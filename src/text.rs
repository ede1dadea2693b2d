//! Decimal text: digits, exponents and the choice between fixed and
//! scientific notation.
use vstd::prelude::*;
use crate::bignum::pow10;

verus! {

/// Relies on `String::push`: it appends the one character to the string.
pub assume_specification[ String::push ](s: &mut String, ch: char)
    ensures
        final(s)@ == old(s)@.push(ch),
;

/// The character of a decimal digit.
pub open spec fn digit_char(d: nat) -> char {
    if d == 0 {
        '0'
    } else if d == 1 {
        '1'
    } else if d == 2 {
        '2'
    } else if d == 3 {
        '3'
    } else if d == 4 {
        '4'
    } else if d == 5 {
        '5'
    } else if d == 6 {
        '6'
    } else if d == 7 {
        '7'
    } else if d == 8 {
        '8'
    } else {
        '9'
    }
}

/// The decimal digits of `n`, most significant first, without leading zeros
/// (`0` is the single digit `0`).
pub open spec fn digits_of(n: nat) -> Seq<char>
    decreases n,
{
    if n < 10 {
        seq![digit_char(n)]
    } else {
        digits_of(n / 10).push(digit_char(n % 10))
    }
}

/// `count` zeros.
pub open spec fn zeros(count: nat) -> Seq<char> {
    Seq::new(count, |i: int| '0')
}

/// A decimal exponent after the `e`: its digits, with a minus sign when negative.
pub open spec fn exponent_text(e: int) -> Seq<char> {
    if e < 0 {
        seq!['-'] + digits_of((-e) as nat)
    } else {
        digits_of(e as nat)
    }
}

/// The text of `d * 10^k` for `d > 0`. With `n` digits in `d`, the number is
/// below `10^(n + k)`; where `n + k` is at most 16 it is written in fixed
/// notation, and also down to `n + k == -4` (four zeros after the point); other
/// numbers are written as one digit, the remaining digits after a point, and
/// `e` with the exponent of the first digit.
pub open spec fn decimal_text(d: nat, k: int) -> Seq<char> {
    let ds = digits_of(d);
    let n = ds.len() as int;
    let kk = n + k;
    if 0 <= k && kk <= 16 {
        ds + zeros(k as nat) + seq!['.', '0']
    } else if 0 < kk && kk <= 16 {
        ds.subrange(0, kk) + seq!['.'] + ds.subrange(kk, n)
    } else if -5 < kk && kk <= 0 {
        seq!['0', '.'] + zeros((-kk) as nat) + ds
    } else if n == 1 {
        ds + seq!['e'] + exponent_text(kk - 1)
    } else {
        seq![ds[0], '.'] + ds.subrange(1, n) + seq!['e'] + exponent_text(kk - 1)
    }
}

proof fn lemma_digits_len(n: nat, j: nat)
    requires
        j >= 1,
        n < pow10(j),
    ensures
        1 <= digits_of(n).len() <= j,
    decreases n,
{
    if n >= 10 {
        assert(pow10(j) == 10 * pow10((j - 1) as nat));
        if j == 1 {
            assert(pow10(0) == 1);
        }
        lemma_digits_len(n / 10, (j - 1) as nat);
    }
}

/// The first character of a number's digits is a digit.
pub proof fn lemma_digits_first(n: nat)
    ensures
        digits_of(n).len() >= 1,
        '0' <= digits_of(n)[0] <= '9',
    decreases n,
{
    if n >= 10 {
        lemma_digits_first(n / 10);
    }
}

/// The text of a decimal starts with a digit.
pub proof fn lemma_decimal_text_first(d: nat, k: int)
    ensures
        decimal_text(d, k).len() >= 1,
        '0' <= decimal_text(d, k)[0] <= '9',
{
    lemma_digits_first(d);
    let ds = digits_of(d);
    let n = ds.len() as int;
    let kk = n + k;
    if 0 <= k && kk <= 16 {
        assert((ds + zeros(k as nat) + seq!['.', '0'])[0] == ds[0]);
    } else if 0 < kk && kk <= 16 {
        assert((ds.subrange(0, kk) + seq!['.'] + ds.subrange(kk, n))[0] == ds[0]);
    } else if -5 < kk && kk <= 0 {
        assert((seq!['0', '.'] + zeros((-kk) as nat) + ds)[0] == '0');
    } else if n == 1 {
        assert((ds + seq!['e'] + exponent_text(kk - 1))[0] == ds[0]);
    } else {
        assert((seq![ds[0], '.'] + ds.subrange(1, n) + seq!['e'] + exponent_text(kk - 1))[0]
            == ds[0]);
    }
}

/// A positive number with `n` digits lies in `[10^(n - 1), 10^n)`.
pub proof fn lemma_digits_magnitude(d: nat)
    requires
        d > 0,
    ensures
        digits_of(d).len() >= 1,
        pow10((digits_of(d).len() - 1) as nat) <= d < pow10(digits_of(d).len()),
    decreases d,
{
    assert(pow10(0) == 1);
    if d < 10 {
        assert(pow10(1) == 10);
    } else {
        lemma_digits_magnitude(d / 10);
        let n0 = digits_of(d / 10).len();
        assert(digits_of(d).len() == n0 + 1);
        assert(pow10(n0 + 1) == 10 * pow10(n0));
        assert(pow10(n0) == 10 * pow10((n0 - 1) as nat));
    }
}

proof fn lemma_u64_digits(n: u64)
    ensures
        1 <= digits_of(n as nat).len() <= 20,
{
    reveal_with_fuel(pow10, 21);
    lemma_digits_len(n as nat, 20);
}

fn digit_to_char(d: u64) -> (c: char)
    requires
        d < 10,
    ensures
        c == digit_char(d as nat),
{
    if d == 0 {
        '0'
    } else if d == 1 {
        '1'
    } else if d == 2 {
        '2'
    } else if d == 3 {
        '3'
    } else if d == 4 {
        '4'
    } else if d == 5 {
        '5'
    } else if d == 6 {
        '6'
    } else if d == 7 {
        '7'
    } else if d == 8 {
        '8'
    } else {
        '9'
    }
}

/// The decimal digits of `n`.
pub fn digits(n: u64) -> (r: Vec<char>)
    ensures
        r@ == digits_of(n as nat),
    decreases n,
{
    if n < 10 {
        let mut r: Vec<char> = Vec::new();
        r.push(digit_to_char(n));
        proof {
            assert(r@ =~= seq![digit_char(n as nat)]);
        }
        r
    } else {
        let mut r = digits(n / 10);
        r.push(digit_to_char(n % 10));
        r
    }
}

/// Appends `v[from..to]` to `out`.
fn push_chars(out: &mut String, v: &Vec<char>, from: usize, to: usize)
    requires
        from <= to <= v@.len(),
    ensures
        final(out)@ == old(out)@ + v@.subrange(from as int, to as int),
{
    let ghost start = out@;
    let mut i: usize = from;
    while i < to
        invariant
            from <= i <= to,
            to <= v@.len(),
            out@ == start + v@.subrange(from as int, i as int),
        decreases to - i,
    {
        out.push(v[i]);
        proof {
            assert(v@.subrange(from as int, i + 1) =~= v@.subrange(from as int, i as int).push(
                v@[i as int],
            ));
        }
        i += 1;
    }
}

/// Appends `count` zeros to `out`.
fn push_zeros(out: &mut String, count: u64)
    ensures
        final(out)@ == old(out)@ + zeros(count as nat),
{
    let ghost start = out@;
    let mut i: u64 = 0;
    while i < count
        invariant
            i <= count,
            out@ == start + zeros(i as nat),
        decreases count - i,
    {
        out.push('0');
        proof {
            assert(zeros((i + 1) as nat) =~= zeros(i as nat).push('0'));
        }
        i += 1;
    }
}

/// Appends the text of the exponent `e` to `out`.
fn push_exponent(out: &mut String, e: i64)
    requires
        e > i64::MIN,
    ensures
        final(out)@ == old(out)@ + exponent_text(e as int),
{
    if e < 0 {
        out.push('-');
        let ds = digits((-e) as u64);
        push_chars(out, &ds, 0, ds.len());
        proof {
            assert(ds@.subrange(0, ds@.len() as int) =~= ds@);
        }
    } else {
        let ds = digits(e as u64);
        push_chars(out, &ds, 0, ds.len());
        proof {
            assert(ds@.subrange(0, ds@.len() as int) =~= ds@);
        }
    }
}

/// Appends the text of `d * 10^k` to `out`.
pub fn push_decimal(out: &mut String, d: u64, k: i64)
    requires
        -100000 <= k <= 100000,
    ensures
        final(out)@ == old(out)@ + decimal_text(d as nat, k as int),
{
    let ds = digits(d);
    proof {
        lemma_u64_digits(d);
    }
    let n: i64 = ds.len() as i64;
    let kk: i64 = n + k;
    let ghost start = out@;
    let ghost dsv = ds@;
    if 0 <= k && kk <= 16 {
        push_chars(out, &ds, 0, ds.len());
        push_zeros(out, k as u64);
        out.push('.');
        out.push('0');
        proof {
            assert(dsv.subrange(0, dsv.len() as int) =~= dsv);
            assert(out@ =~= start + (dsv + zeros(k as nat) + seq!['.', '0']));
        }
    } else if 0 < kk && kk <= 16 {
        push_chars(out, &ds, 0, kk as usize);
        out.push('.');
        push_chars(out, &ds, kk as usize, ds.len());
        proof {
            assert(out@ =~= start + (dsv.subrange(0, kk as int) + seq!['.'] + dsv.subrange(
                kk as int,
                n as int,
            )));
        }
    } else if -5 < kk && kk <= 0 {
        out.push('0');
        out.push('.');
        push_zeros(out, (-kk) as u64);
        push_chars(out, &ds, 0, ds.len());
        proof {
            assert(dsv.subrange(0, dsv.len() as int) =~= dsv);
            assert(out@ =~= start + (seq!['0', '.'] + zeros((-kk) as nat) + dsv));
        }
    } else if n == 1 {
        push_chars(out, &ds, 0, 1);
        out.push('e');
        push_exponent(out, kk - 1);
        proof {
            assert(dsv.subrange(0, 1) =~= dsv);
            assert(out@ =~= start + (dsv + seq!['e'] + exponent_text(kk - 1)));
        }
    } else {
        out.push(ds[0]);
        out.push('.');
        push_chars(out, &ds, 1, ds.len());
        out.push('e');
        push_exponent(out, kk - 1);
        proof {
            assert(out@ =~= start + (seq![dsv[0], '.'] + dsv.subrange(1, n as int) + seq!['e']
                + exponent_text(kk - 1)));
        }
    }
}


/// The value of a decimal digit character.
pub open spec fn char_digit(c: char) -> int {
    c as int - '0' as int
}

/// Whether every character of `s` is a decimal digit.
pub open spec fn all_digits(s: Seq<char>) -> bool {
    forall|i: int| 0 <= i < s.len() ==> '0' <= #[trigger] s[i] <= '9'
}

/// The number that the digits `s` stand for, most significant first.
pub open spec fn digits_value(s: Seq<char>) -> int
    decreases s.len(),
{
    if s.len() == 0 {
        0
    } else {
        digits_value(s.drop_last()) * 10 + char_digit(s.last())
    }
}

/// Whether `n * 10^en == d * 10^k`.
pub open spec fn same_number(n: int, en: int, d: int, k: int) -> bool {
    if en >= k {
        n * pow10((en - k) as nat) == d
    } else {
        n == d * pow10((k - en) as nat)
    }
}

/// Whether `s` is laid out as an integer part, a point, a fraction part and an
/// optional exponent `e` (or as digits and an exponent alone), and stands for
/// `d * 10^k`: the digits of both parts together, times `10^(e - |fp|)`.
pub open spec fn reads_as(s: Seq<char>, d: int, k: int) -> bool {
    exists|ip: Seq<char>, fp: Seq<char>, e: int|
        all_digits(ip) && all_digits(fp) && ip.len() >= 1 && (s == ip + seq!['.'] + fp && e == 0
            && fp.len() >= 1 || s == ip + seq!['.'] + fp + seq!['e'] + exponent_text(e)
            && fp.len() >= 1 || s == ip + seq!['e'] + exponent_text(e) && fp.len() == 0)
            && #[trigger] same_number(digits_value(ip + fp), e - fp.len(), d, k)
}

proof fn lemma_digit_char_value(d: nat)
    requires
        d < 10,
    ensures
        char_digit(digit_char(d)) == d,
        '0' <= digit_char(d) <= '9',
{
}

proof fn lemma_digits_of_value(n: nat)
    ensures
        digits_value(digits_of(n)) == n,
        all_digits(digits_of(n)),
    decreases n,
{
    if n < 10 {
        lemma_digit_char_value(n);
        let s = digits_of(n);
        assert(s.drop_last() =~= Seq::<char>::empty());
        assert(digits_value(Seq::<char>::empty()) == 0);
        assert(s.last() == digit_char(n));
    } else {
        lemma_digits_of_value(n / 10);
        lemma_digit_char_value(n % 10);
        let s = digits_of(n);
        assert(s.drop_last() =~= digits_of(n / 10));
        assert(s.last() == digit_char(n % 10));
        assert(digits_value(s) == (n / 10) * 10 + n % 10);
        assert forall|i: int| 0 <= i < s.len() implies '0' <= #[trigger] s[i] <= '9' by {
            if i < s.len() - 1 {
                assert(s[i] == digits_of(n / 10)[i]);
            }
        }
    }
}

proof fn lemma_digits_value_concat(a: Seq<char>, b: Seq<char>)
    ensures
        digits_value(a + b) == digits_value(a) * pow10(b.len()) + digits_value(b),
    decreases b.len(),
{
    if b.len() == 0 {
        assert(a + b =~= a);
        assert(pow10(0) == 1);
    } else {
        let b0 = b.drop_last();
        lemma_digits_value_concat(a, b0);
        assert((a + b).drop_last() =~= a + b0);
        assert((a + b).last() == b.last());
        assert(pow10(b.len()) == 10 * pow10(b0.len()));
        let va = digits_value(a);
        assert(va * pow10(b.len()) == (va * pow10(b0.len())) * 10) by (nonlinear_arith)
            requires
                pow10(b.len()) == 10 * pow10(b0.len()),
        ;
    }
}

proof fn lemma_zeros(count: nat)
    ensures
        digits_value(zeros(count)) == 0,
        all_digits(zeros(count)),
    decreases count,
{
    if count > 0 {
        lemma_zeros((count - 1) as nat);
        assert(zeros(count).drop_last() =~= zeros((count - 1) as nat));
    }
}

/// The text of `d * 10^k` reads as that number.
pub proof fn lemma_decimal_text_reads(d: nat, k: int)
    ensures
        reads_as(decimal_text(d, k), d as int, k),
{
    lemma_digits_of_value(d);
    let ds = digits_of(d);
    lemma_digits_first(d);
    let n = ds.len() as int;
    let kk = n + k;
    let s = decimal_text(d, k);
    assert(pow10(0) == 1);
    if 0 <= k && kk <= 16 {
        let ip = ds + zeros(k as nat);
        let fp = seq!['0'];
        lemma_zeros(k as nat);
        lemma_digits_value_concat(ds, zeros(k as nat));
        lemma_digits_value_concat(ip, fp);
        assert(fp.drop_last() =~= Seq::<char>::empty());
        assert(digits_value(Seq::<char>::empty()) == 0);
        assert(char_digit('0') == 0);
        assert(digits_value(fp) == 0);
        assert(pow10(1) == 10);
        assert(all_digits(ip));
        assert(s =~= ip + seq!['.'] + fp);
        assert(pow10((k + 1) as nat) == 10 * pow10(k as nat));
        assert(digits_value(ip + fp) == d * pow10((k + 1) as nat)) by (nonlinear_arith)
            requires
                digits_value(ip + fp) == digits_value(ip) * 10,
                digits_value(ip) == d * pow10(k as nat),
                pow10((k + 1) as nat) == 10 * pow10(k as nat),
        ;
        assert(same_number(digits_value(ip + fp), 0 - fp.len(), d as int, k));
    } else if 0 < kk && kk <= 16 {
        let ip = ds.subrange(0, kk);
        let fp = ds.subrange(kk, n);
        assert(ip + fp =~= ds);
        assert(all_digits(ip));
        assert(all_digits(fp));
        assert(s =~= ip + seq!['.'] + fp);
        assert(0 - fp.len() == k);
        assert(d * pow10(0) == d);
        assert(same_number(digits_value(ip + fp), 0 - fp.len(), d as int, k));
    } else if -5 < kk && kk <= 0 {
        let ip = seq!['0'];
        let fp = zeros((-kk) as nat) + ds;
        lemma_zeros((-kk) as nat);
        lemma_digits_value_concat(zeros((-kk) as nat), ds);
        lemma_digits_value_concat(ip, fp);
        assert(ip.drop_last() =~= Seq::<char>::empty());
        assert(digits_value(Seq::<char>::empty()) == 0);
        assert(char_digit('0') == 0);
        assert(digits_value(ip) == 0);
        assert(0 * pow10(n as nat) == 0);
        assert(digits_value(fp) == d);
        assert(0 * pow10(fp.len()) == 0);
        assert(digits_value(ip + fp) == d);
        assert(0 - fp.len() == k);
        assert(d * pow10(0) == d);
        assert(all_digits(ip));
        assert(all_digits(fp));
        assert(s =~= ip + seq!['.'] + fp);
        assert(same_number(digits_value(ip + fp), 0 - fp.len(), d as int, k));
    } else if n == 1 {
        let ip = ds;
        let fp = Seq::<char>::empty();
        assert(ip + fp =~= ds);
        assert(s =~= ip + seq!['e'] + exponent_text(kk - 1));
        assert(same_number(digits_value(ip + fp), (kk - 1) - fp.len(), d as int, k));
    } else {
        let ip = seq![ds[0]];
        let fp = ds.subrange(1, n);
        assert(ip + fp =~= ds);
        assert(all_digits(ip));
        assert(all_digits(fp));
        assert(s =~= ip + seq!['.'] + fp + seq!['e'] + exponent_text(kk - 1));
        assert(same_number(digits_value(ip + fp), (kk - 1) - fp.len(), d as int, k));
    }
}

} // verus!
