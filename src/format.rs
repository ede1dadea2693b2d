//! The two entry points: one binary64 value, given by its bits, to text, and a
//! sequence of them to one space-separated text.
use vstd::prelude::*;
use crate::decimal::{is_shortest, lemma_fewest_digits, lemma_shortest_last_digit};
use crate::decimal::{lemma_shortest_unique, rounds_to, shortest, Decimal};
use crate::text::{decimal_text, digits_of, lemma_decimal_text_first, lemma_decimal_text_reads};
use crate::text::{lemma_digits_magnitude, push_decimal, reads_as};

verus! {

/// `2` raised to the width of the stored mantissa field.
pub const MANTISSA_SCALE: u64 = 4503599627370496;

/// `2` raised to the position of the sign bit.
pub const SIGN_SCALE: u64 = 9223372036854775808;

/// Whether the sign bit of `bits` is set.
pub open spec fn sign_bit(bits: u64) -> bool {
    bits >= SIGN_SCALE
}

/// The biased exponent field of `bits`.
pub open spec fn exponent_field(bits: u64) -> u64 {
    ((bits / MANTISSA_SCALE) % 2048) as u64
}

/// The stored mantissa field of `bits`.
pub open spec fn mantissa_field(bits: u64) -> u64 {
    (bits % MANTISSA_SCALE) as u64
}

pub open spec fn sign_text(bits: u64) -> Seq<char> {
    if sign_bit(bits) {
        seq!['-']
    } else {
        Seq::empty()
    }
}

pub open spec fn nan_text() -> Seq<char> {
    seq!['N', 'a', 'N']
}

pub open spec fn infinity_text() -> Seq<char> {
    seq!['I', 'n', 'f', 'i', 'n', 'i', 't', 'y']
}

pub open spec fn zero_text() -> Seq<char> {
    seq!['0', '.', '0']
}

/// Whether `s` is the text of the binary64 value with bits `bits`: `NaN` for
/// every NaN, `Infinity` and `0.0` with the value's sign, and for any other
/// value its sign followed by the text of its shortest decimal.
pub open spec fn formats_as(bits: u64, s: Seq<char>) -> bool {
    let x = exponent_field(bits);
    let f = mantissa_field(bits);
    if x == 2047 {
        if f != 0 {
            s == nan_text()
        } else {
            s == sign_text(bits) + infinity_text()
        }
    } else if x == 0 && f == 0 {
        s == sign_text(bits) + zero_text()
    } else {
        exists|d: Decimal|
            is_shortest(f, x, d) && s == sign_text(bits) + decimal_text(
                d.mantissa as nat,
                d.exponent as int,
            )
    }
}

/// Each piece followed by one space.
pub open spec fn joined(pieces: Seq<Seq<char>>) -> Seq<char>
    decreases pieces.len(),
{
    if pieces.len() == 0 {
        Seq::empty()
    } else {
        joined(pieces.drop_last()) + pieces.last() + seq![' ']
    }
}

/// Whether `s` is the texts of `values`, in order, each followed by one space.
pub open spec fn formats_all_as(values: Seq<u64>, s: Seq<char>) -> bool {
    exists|pieces: Seq<Seq<char>>|
        pieces.len() == values.len() && (forall|i: int|
            0 <= i < values.len() ==> formats_as(#[trigger] values[i], pieces[i])) && s == joined(
            pieces,
        )
}

fn push_text(out: &mut String, text: &str)
    ensures
        final(out)@ == old(out)@ + text@,
{
    out.append(text);
}

/// Appends the text of the binary64 value with bits `bits` to `out`.
fn push_value(out: &mut String, bits: u64)
    ensures
        exists|s: Seq<char>| formats_as(bits, s) && final(out)@ == old(out)@ + s,
{
    let ghost start = out@;
    let x: u64 = (bits / MANTISSA_SCALE) % 2048;
    let f: u64 = bits % MANTISSA_SCALE;
    let negative = bits >= SIGN_SCALE;
    assert(x == exponent_field(bits));
    assert(f == mantissa_field(bits));
    if x == 2047 && f != 0 {
        out.push('N');
        out.push('a');
        out.push('N');
        proof {
            assert(out@ =~= start + nan_text());
            assert(formats_as(bits, nan_text()));
        }
        return;
    }
    if negative {
        out.push('-');
    }
    let ghost signed = out@;
    proof {
        assert(signed =~= start + sign_text(bits));
    }
    if x == 2047 {
        out.push('I');
        out.push('n');
        out.push('f');
        out.push('i');
        out.push('n');
        out.push('i');
        out.push('t');
        out.push('y');
        proof {
            assert(out@ =~= start + (sign_text(bits) + infinity_text()));
            assert(formats_as(bits, sign_text(bits) + infinity_text()));
        }
    } else if x == 0 && f == 0 {
        out.push('0');
        out.push('.');
        out.push('0');
        proof {
            assert(out@ =~= start + (sign_text(bits) + zero_text()));
            assert(formats_as(bits, sign_text(bits) + zero_text()));
        }
    } else {
        let d = shortest(f, x);
        push_decimal(out, d.mantissa, d.exponent);
        proof {
            let s = sign_text(bits) + decimal_text(d.mantissa as nat, d.exponent as int);
            assert(out@ =~= start + s);
            assert(is_shortest(f, x, d));
            assert(formats_as(bits, s));
        }
    }
}

/// The text of the binary64 value with bits `bits`.
pub fn format_one(bits: u64) -> (r: String)
    ensures
        formats_as(bits, r@),
{
    let mut out = String::new();
    push_value(&mut out, bits);
    proof {
        let s = choose|s: Seq<char>| formats_as(bits, s) && out@ == Seq::<char>::empty() + s;
        assert(out@ =~= s);
    }
    out
}

/// The texts of `values`, in order, each followed by one space.
pub fn format_many(values: &Vec<u64>) -> (r: String)
    ensures
        formats_all_as(values@, r@),
{
    let mut out = String::new();
    let ghost mut pieces: Seq<Seq<char>> = Seq::empty();
    let mut i: usize = 0;
    while i < values.len()
        invariant
            i <= values.len(),
            pieces.len() == i,
            forall|j: int| 0 <= j < i ==> formats_as(#[trigger] values@[j], pieces[j]),
            out@ == joined(pieces),
        decreases values.len() - i,
    {
        let ghost before = out@;
        push_value(&mut out, values[i]);
        let ghost s = choose|s: Seq<char>| formats_as(values@[i as int], s) && out@ == before + s;
        out.push(' ');
        proof {
            let old_pieces = pieces;
            pieces = pieces.push(s);
            assert(pieces.drop_last() =~= old_pieces);
            assert(out@ =~= joined(pieces));
        }
        i += 1;
    }
    proof {
        assert(values@.len() == i);
    }
    out
}


/// Whether `bits` is a NaN.
pub open spec fn is_nan(bits: u64) -> bool {
    exponent_field(bits) == 2047 && mantissa_field(bits) != 0
}

/// Each value has exactly one text.
pub proof fn law_one_text(bits: u64, s1: Seq<char>, s2: Seq<char>)
    requires
        formats_as(bits, s1),
        formats_as(bits, s2),
    ensures
        s1 == s2,
{
    let x = exponent_field(bits);
    let f = mantissa_field(bits);
    if x != 2047 && !(x == 0 && f == 0) {
        let d1 = choose|d: Decimal|
            is_shortest(f, x, d) && s1 == sign_text(bits) + decimal_text(
                d.mantissa as nat,
                d.exponent as int,
            );
        let d2 = choose|d: Decimal|
            is_shortest(f, x, d) && s2 == sign_text(bits) + decimal_text(
                d.mantissa as nat,
                d.exponent as int,
            );
        lemma_shortest_unique(f, x, d1, d2);
    }
}

/// The text of a finite, nonzero value is its sign followed by a decimal numeral
/// whose number rounds, to nearest with ties to even, back to the value.
pub proof fn law_round_trip(bits: u64, s: Seq<char>)
    requires
        formats_as(bits, s),
        exponent_field(bits) != 2047,
        !(exponent_field(bits) == 0 && mantissa_field(bits) == 0),
    ensures
        exists|t: Seq<char>, d: int, k: int|
            s == sign_text(bits) + t && #[trigger] reads_as(t, d, k) && rounds_to(
                mantissa_field(bits),
                exponent_field(bits),
                d,
                k,
            ),
{
    let x = exponent_field(bits);
    let f = mantissa_field(bits);
    let r = choose|d: Decimal|
        is_shortest(f, x, d) && s == sign_text(bits) + decimal_text(
            d.mantissa as nat,
            d.exponent as int,
        );
    lemma_decimal_text_reads(r.mantissa as nat, r.exponent as int);
    let t = decimal_text(r.mantissa as nat, r.exponent as int);
    assert(s == sign_text(bits) + t && reads_as(t, r.mantissa as int, r.exponent as int)
        && rounds_to(f, x, r.mantissa as int, r.exponent as int));
}

/// The text of a finite, nonzero value is its sign followed by the text of a
/// decimal `d * 10^k` that rounds to the value, where no decimal with fewer digits
/// in its mantissa rounds to the value at all.
pub proof fn law_fewest_digits(bits: u64, s: Seq<char>)
    requires
        formats_as(bits, s),
        exponent_field(bits) != 2047,
        !(exponent_field(bits) == 0 && mantissa_field(bits) == 0),
    ensures
        exists|d: Decimal|
            #[trigger] is_shortest(mantissa_field(bits), exponent_field(bits), d) && s == sign_text(
                bits,
            ) + decimal_text(d.mantissa as nat, d.exponent as int) && forall|d2: int, k2: int|
                0 < d2 && digits_of(d2 as nat).len() < digits_of(d.mantissa as nat).len()
                    ==> !#[trigger] rounds_to(mantissa_field(bits), exponent_field(bits), d2, k2),
{
    let x = exponent_field(bits);
    let f = mantissa_field(bits);
    let r = choose|d: Decimal|
        is_shortest(f, x, d) && s == sign_text(bits) + decimal_text(
            d.mantissa as nat,
            d.exponent as int,
        );
    assert(r.mantissa % 10 != 0) by {
        lemma_shortest_last_digit(f, x, r);
    }
    lemma_digits_magnitude(r.mantissa as nat);
    let n = digits_of(r.mantissa as nat).len();
    assert forall|d2: int, k2: int|
        0 < d2 && digits_of(d2 as nat).len() < n implies !#[trigger] rounds_to(f, x, d2, k2) by {
        lemma_digits_magnitude(d2 as nat);
        lemma_fewest_digits(f, x, r, n, d2, k2, digits_of(d2 as nat).len());
    }
}

/// The text of every value but a NaN starts with `-` exactly when its sign bit is
/// set; so `-0.0` is written with a leading minus and `0.0` without.
pub proof fn law_sign(bits: u64, s: Seq<char>)
    requires
        formats_as(bits, s),
        !is_nan(bits),
    ensures
        s.len() >= 1,
        (s[0] == '-') == sign_bit(bits),
{
    let x = exponent_field(bits);
    let f = mantissa_field(bits);
    let body = if x == 2047 {
        infinity_text()
    } else if x == 0 && f == 0 {
        zero_text()
    } else {
        let d = choose|d: Decimal|
            is_shortest(f, x, d) && s == sign_text(bits) + decimal_text(
                d.mantissa as nat,
                d.exponent as int,
            );
        lemma_decimal_text_first(d.mantissa as nat, d.exponent as int);
        decimal_text(d.mantissa as nat, d.exponent as int)
    };
    assert(s == sign_text(bits) + body);
    assert(body.len() >= 1 && body[0] != '-');
    if sign_bit(bits) {
        assert(s[0] == '-');
    } else {
        assert(s =~= body);
    }
}

/// Every NaN is written `NaN`, positive infinity `Infinity` and negative infinity
/// `-Infinity`.
pub proof fn law_special_values(bits: u64, s: Seq<char>)
    requires
        formats_as(bits, s),
    ensures
        is_nan(bits) ==> s == nan_text(),
        bits == 0x7ff0_0000_0000_0000 ==> s == infinity_text(),
        bits == 0xfff0_0000_0000_0000 ==> s == seq!['-'] + infinity_text(),
{
    if bits == 0x7ff0_0000_0000_0000 {
        assert(exponent_field(bits) == 2047 && mantissa_field(bits) == 0);
        assert(s =~= infinity_text());
    }
    if bits == 0xfff0_0000_0000_0000 {
        assert(exponent_field(bits) == 2047 && mantissa_field(bits) == 0);
    }
}

/// The text of a sequence of values is the texts of its values, in their order,
/// each followed by a space.
pub proof fn law_join(values: Seq<u64>, pieces: Seq<Seq<char>>, s: Seq<char>)
    requires
        formats_all_as(values, s),
        pieces.len() == values.len(),
        forall|i: int| 0 <= i < values.len() ==> formats_as(#[trigger] values[i], pieces[i]),
    ensures
        s == joined(pieces),
{
    let found = choose|found: Seq<Seq<char>>|
        found.len() == values.len() && (forall|i: int|
            0 <= i < values.len() ==> formats_as(#[trigger] values[i], found[i])) && s == joined(
            found,
        );
    assert forall|i: int| 0 <= i < pieces.len() implies found[i] == pieces[i] by {
        assert(formats_as(values[i], found[i]));
        assert(formats_as(values[i], pieces[i]));
        law_one_text(values[i], found[i], pieces[i]);
    }
    assert(found =~= pieces);
}

/// The text of two values is the text of the first, a space, the text of the
/// second and a space.
pub proof fn law_join_two(a: u64, b: u64, sa: Seq<char>, sb: Seq<char>, s: Seq<char>)
    requires
        formats_as(a, sa),
        formats_as(b, sb),
        formats_all_as(seq![a, b], s),
    ensures
        s == sa + seq![' '] + sb + seq![' '],
{
    let values = seq![a, b];
    let pieces = choose|pieces: Seq<Seq<char>>|
        pieces.len() == values.len() && (forall|i: int|
            0 <= i < values.len() ==> formats_as(#[trigger] values[i], pieces[i])) && s == joined(
            pieces,
        );
    assert(formats_as(values[0], pieces[0]));
    assert(formats_as(values[1], pieces[1]));
    law_one_text(a, sa, pieces[0]);
    law_one_text(b, sb, pieces[1]);
    assert(pieces.drop_last().drop_last() =~= Seq::<Seq<char>>::empty());
    assert(pieces.drop_last().last() == pieces[0]);
    assert(joined(pieces.drop_last()) =~= joined(pieces.drop_last().drop_last()) + pieces[0]
        + seq![' ']);
    assert(s =~= sa + seq![' '] + sb + seq![' ']);
}

} // verus!
