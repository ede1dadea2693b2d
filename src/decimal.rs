//! Shortest decimal digits for a finite, nonzero binary64 value, by exact
//! digit generation over unbounded integers.
use vstd::prelude::*;
use crate::bignum::{from_u64, lt, mul_small, pow10, pow2, shl, sub_big, value};
use crate::bignum::{lemma_pow10_pos, lemma_pow2_pos};

verus! {

/// `2` raised to the width of the stored mantissa field.
pub const HIDDEN_BIT: u64 = 4503599627370496;

/// The binary mantissa `m` of the value `m * 2^e` held by the fields `f` (mantissa)
/// and `x` (biased exponent).
pub open spec fn bin_mantissa(f: u64, x: u64) -> int {
    if x == 0 {
        f as int
    } else {
        f + HIDDEN_BIT
    }
}

/// The binary exponent `e` of the value `m * 2^e`.
pub open spec fn bin_exponent(x: u64) -> int {
    if x == 0 {
        -1074
    } else {
        x - 1075
    }
}

/// The value as `(4 * m) * 2^(e - 2)`: its neighbours' midpoints are then whole
/// multiples of `2^(e - 2)`.
pub open spec fn quarter_exponent(x: u64) -> int {
    bin_exponent(x) - 2
}

pub open spec fn quarter_mantissa(f: u64, x: u64) -> int {
    4 * bin_mantissa(f, x)
}

/// Distance, in units of `2^(e - 2)`, from the value down to the midpoint with its
/// lower neighbour: half as far at a power of two, where the spacing below halves.
pub open spec fn lower_gap(f: u64, x: u64) -> int {
    if f == 0 && x > 1 {
        1
    } else {
        2
    }
}

/// Distance, in units of `2^(e - 2)`, from the value up to the midpoint with its
/// upper neighbour.
pub open spec fn upper_gap() -> int {
    2
}

/// Round-to-nearest-even sends a midpoint to the value exactly when `m` is even.
pub open spec fn bounds_included(f: u64, x: u64) -> bool {
    bin_mantissa(f, x) % 2 == 0
}

pub open spec fn neg_part(k: int) -> nat {
    if k < 0 {
        (-k) as nat
    } else {
        0
    }
}

/// `10^k` times `2^sb * 10^sk`, where `sb` and `sk` are the negative parts of the
/// binary exponent `b` and of `k`: a positive integer.
pub open spec fn dec_unit(k: int, b: int) -> nat {
    pow10((k + neg_part(k)) as nat) * pow2(neg_part(b))
}

/// `2^b` times the same factor `2^sb * 10^sk`: a positive integer.
pub open spec fn bin_unit(k: int, b: int) -> nat {
    pow2((b + neg_part(b)) as nat) * pow10(neg_part(k))
}

/// Whether `lo * u < t < hi * u`, or with `<=` where the bounds are included.
pub open spec fn within(lo: int, hi: int, u: int, t: int, incl: bool) -> bool {
    if incl {
        lo * u <= t && t <= hi * u
    } else {
        lo * u < t && t < hi * u
    }
}

/// Whether `d * 10^k` lies in the interval of reals that round to the binary64
/// value with fields `f` and `x` (both sides scaled by one positive factor).
pub open spec fn rounds_to(f: u64, x: u64, d: int, k: int) -> bool {
    let b = quarter_exponent(x);
    let v = quarter_mantissa(f, x);
    within(v - lower_gap(f, x), v + upper_gap(), bin_unit(k, b) as int, d * dec_unit(k, b), bounds_included(f, x))
}

/// `|d * 10^k - value|`, scaled by the same factor as in `rounds_to`.
pub open spec fn distance(f: u64, x: u64, d: int, k: int) -> int {
    let b = quarter_exponent(x);
    let t = d * dec_unit(k, b) - quarter_mantissa(f, x) * bin_unit(k, b);
    if t < 0 {
        -t
    } else {
        t
    }
}

/// Fields of a finite, nonzero binary64 value.
pub open spec fn finite_nonzero(f: u64, x: u64) -> bool {
    f < HIDDEN_BIT && x < 2047 && !(f == 0 && x == 0)
}

/// A decimal number `mantissa * 10^exponent`.
#[derive(Clone, Copy, Debug, PartialEq, Eq, Structural)]
pub struct Decimal {
    pub mantissa: u64,
    pub exponent: i64,
}

/// The shortest decimal for `(f, x)`: it rounds to the value, its exponent is the
/// largest that any such decimal has (so it has the fewest significant digits),
/// and among the decimals with that exponent it is the closest to the value, an
/// exact tie going to the even mantissa.
pub open spec fn is_shortest(f: u64, x: u64, r: Decimal) -> bool {
    &&& rounds_to(f, x, r.mantissa as int, r.exponent as int)
    &&& forall|d: int| !#[trigger] rounds_to(f, x, d, r.exponent + 1)
    &&& forall|d: int|
        #[trigger] rounds_to(f, x, d, r.exponent as int) && d != r.mantissa ==> (distance(
            f,
            x,
            r.mantissa as int,
            r.exponent as int,
        ) < distance(f, x, d, r.exponent as int) || (distance(
            f,
            x,
            r.mantissa as int,
            r.exponent as int,
        ) == distance(f, x, d, r.exponent as int) && r.mantissa % 2 == 0))
}


/// Order of `a * 10^k` against `b * 2^e` read off a second scaling `(s, xs)` of
/// the two units, where `xs * c1 == s * c2`.
proof fn lemma_cross(a: int, b: int, c1: int, c2: int, xs: int, s: int)
    requires
        c1 > 0,
        c2 > 0,
        xs > 0,
        s > 0,
        xs * c1 == s * c2,
    ensures
        (a * c1 <= b * c2) == (a * s <= b * xs),
        (a * c1 < b * c2) == (a * s < b * xs),
{
    assert(a * c1 * xs == a * s * c2) by (nonlinear_arith)
        requires
            xs * c1 == s * c2,
    ;
    assert(b * c2 * xs == b * xs * c2) by (nonlinear_arith);
    assert((a * c1 <= b * c2) == (a * c1 * xs <= b * c2 * xs)) by (nonlinear_arith)
        requires
            xs > 0,
    ;
    assert((a * c1 < b * c2) == (a * c1 * xs < b * c2 * xs)) by (nonlinear_arith)
        requires
            xs > 0,
    ;
    assert((a * s * c2 <= b * xs * c2) == (a * s <= b * xs)) by (nonlinear_arith)
        requires
            c2 > 0,
    ;
    assert((a * s * c2 < b * xs * c2) == (a * s < b * xs)) by (nonlinear_arith)
        requires
            c2 > 0,
    ;
}

/// What the digit generation reads off its integers `p, r, s, xs`, where the value
/// is `v * 2^e = (p + r / s) * 10^k` and `xs * 10^k == s * 2^e`: which of `p * 10^k`
/// and `(p + 1) * 10^k` lie in the rounding interval and which of them is closer.
proof fn lemma_candidates(
    lo: int,
    v: int,
    hi: int,
    c1: int,
    c2: int,
    xs: int,
    s: int,
    p: int,
    r: int,
    incl: bool,
)
    requires
        c1 > 0,
        c2 > 0,
        xs > 0,
        s > 0,
        xs * c1 == s * c2,
        p * s + r == v * xs,
        0 <= r < s,
        lo < v < hi,
    ensures
        within(lo, hi, c2, p * c1, incl) == (if incl {
            r <= (v - lo) * xs
        } else {
            r < (v - lo) * xs
        }),
        within(lo, hi, c2, (p + 1) * c1, incl) == (if incl {
            s - r <= (hi - v) * xs
        } else {
            s - r < (hi - v) * xs
        }),
        p * c1 <= v * c2 < (p + 1) * c1,
        (2 * r < s) == (v * c2 - p * c1 < (p + 1) * c1 - v * c2),
        (2 * r == s) == (v * c2 - p * c1 == (p + 1) * c1 - v * c2),
{
    lemma_cross(p, v, c1, c2, xs, s);
    lemma_cross(p + 1, v, c1, c2, xs, s);
    lemma_cross(p, lo, c1, c2, xs, s);
    lemma_cross(p + 1, hi, c1, c2, xs, s);
    assert((p + 1) * s == p * s + s) by (nonlinear_arith);
    assert((v - lo) * xs == v * xs - lo * xs) by (nonlinear_arith);
    assert((hi - v) * xs == hi * xs - v * xs) by (nonlinear_arith);
    assert(lo * c2 < v * c2 < hi * c2) by (nonlinear_arith)
        requires
            lo < v < hi,
            c2 > 0,
    ;
    assert((v * c2 - p * c1) * xs == r * c2) by (nonlinear_arith)
        requires
            xs * c1 == s * c2,
            p * s + r == v * xs,
    ;
    assert(((p + 1) * c1 - v * c2) * xs == (s - r) * c2) by (nonlinear_arith)
        requires
            xs * c1 == s * c2,
            p * s + r == v * xs,
    ;
    let a = v * c2 - p * c1;
    let b = (p + 1) * c1 - v * c2;
    assert((a < b) == (a * xs < b * xs)) by (nonlinear_arith)
        requires
            xs > 0,
    ;
    assert((a == b) == (a * xs == b * xs)) by (nonlinear_arith)
        requires
            xs > 0,
    ;
    assert((r * c2 < (s - r) * c2) == (r < s - r)) by (nonlinear_arith)
        requires
            c2 > 0,
    ;
    assert((r * c2 == (s - r) * c2) == (r == s - r)) by (nonlinear_arith)
        requires
            c2 > 0,
    ;
}

/// Any multiple `d * 10^k` lies no nearer to the value than the candidate on its
/// side, and lies in the interval only where that candidate does.
proof fn lemma_other_multiple(lo: int, v: int, hi: int, c1: int, c2: int, p: int, d: int, incl: bool)
    requires
        c1 > 0,
        c2 > 0,
        p * c1 <= v * c2 < (p + 1) * c1,
        lo < v < hi,
    ensures
        d <= p ==> v * c2 - d * c1 >= v * c2 - p * c1,
        d < p ==> v * c2 - d * c1 > v * c2 - p * c1,
        d >= p + 1 ==> d * c1 - v * c2 >= (p + 1) * c1 - v * c2,
        d > p + 1 ==> d * c1 - v * c2 > (p + 1) * c1 - v * c2,
        d <= p && within(lo, hi, c2, d * c1, incl) ==> within(lo, hi, c2, p * c1, incl),
        d >= p + 1 && within(lo, hi, c2, d * c1, incl) ==> within(lo, hi, c2, (p + 1) * c1, incl),
{
    assert(lo * c2 < v * c2 < hi * c2) by (nonlinear_arith)
        requires
            lo < v < hi,
            c2 > 0,
    ;
    if d <= p {
        assert(d * c1 <= p * c1) by (nonlinear_arith)
            requires
                d <= p,
                c1 > 0,
        ;
    }
    if d < p {
        assert(d * c1 < p * c1) by (nonlinear_arith)
            requires
                d < p,
                c1 > 0,
        ;
    }
    if d >= p + 1 {
        assert(d * c1 >= (p + 1) * c1) by (nonlinear_arith)
            requires
                d >= p + 1,
                c1 > 0,
        ;
    }
    if d > p + 1 {
        assert(d * c1 > (p + 1) * c1) by (nonlinear_arith)
            requires
                d > p + 1,
                c1 > 0,
        ;
    }
}


proof fn lemma_units_pos(k: int, b: int)
    ensures
        dec_unit(k, b) > 0,
        bin_unit(k, b) > 0,
{
    lemma_pow10_pos((k + neg_part(k)) as nat);
    lemma_pow2_pos(neg_part(b));
    lemma_pow2_pos((b + neg_part(b)) as nat);
    lemma_pow10_pos(neg_part(k));
    assert(dec_unit(k, b) > 0) by (nonlinear_arith)
        requires
            pow10((k + neg_part(k)) as nat) > 0,
            pow2(neg_part(b)) > 0,
            dec_unit(k, b) == pow10((k + neg_part(k)) as nat) * pow2(neg_part(b)),
    ;
    assert(bin_unit(k, b) > 0) by (nonlinear_arith)
        requires
            pow2((b + neg_part(b)) as nat) > 0,
            pow10(neg_part(k)) > 0,
            bin_unit(k, b) == pow2((b + neg_part(b)) as nat) * pow10(neg_part(k)),
    ;
}

/// Lowering the decimal exponent by one takes a factor ten out of one unit or puts
/// it into the other.
proof fn lemma_units_step(k: int, b: int)
    ensures
        k >= 1 ==> dec_unit(k, b) == 10 * dec_unit(k - 1, b) && bin_unit(k, b) == bin_unit(k - 1, b),
        k <= 0 ==> dec_unit(k, b) == dec_unit(k - 1, b) && bin_unit(k - 1, b) == 10 * bin_unit(k, b),
{
    let e = pow2(neg_part(b));
    let g = pow2((b + neg_part(b)) as nat);
    if k >= 1 {
        assert(pow10(k as nat) == 10 * pow10((k - 1) as nat));
        assert(dec_unit(k, b) == pow10(k as nat) * e);
        assert(dec_unit(k - 1, b) == pow10((k - 1) as nat) * e);
        assert(pow10(k as nat) * e == 10 * (pow10((k - 1) as nat) * e)) by (nonlinear_arith)
            requires
                pow10(k as nat) == 10 * pow10((k - 1) as nat),
        ;
    } else {
        assert(pow10((1 - k) as nat) == 10 * pow10((-k) as nat));
        assert(bin_unit(k - 1, b) == g * pow10((1 - k) as nat));
        assert(bin_unit(k, b) == g * pow10((-k) as nat));
        assert(g * pow10((1 - k) as nat) == 10 * (g * pow10((-k) as nat))) by (nonlinear_arith)
            requires
                pow10((1 - k) as nat) == 10 * pow10((-k) as nat),
        ;
    }
}

proof fn lemma_pow2_le_pow10(n: nat)
    ensures
        pow2(n) <= pow10(n),
    decreases n,
{
    if n > 0 {
        lemma_pow2_le_pow10((n - 1) as nat);
    }
}

proof fn lemma_pow2_strict(a: nat, c: nat)
    requires
        a < c,
    ensures
        pow2(a) < pow2(c),
    decreases c,
{
    lemma_pow2_pos(a);
    if a < c - 1 {
        lemma_pow2_strict(a, (c - 1) as nat);
    }
}

proof fn lemma_pow2_add(a: nat, c: nat)
    ensures
        pow2(a + c) == pow2(a) * pow2(c),
    decreases c,
{
    assert(pow2(0) == 1);
    if c > 0 {
        let c0 = (c - 1) as nat;
        lemma_pow2_add(a, c0);
        assert(pow2(c) == 2 * pow2(c0));
        assert(a + c == (a + c0) + 1);
        assert(pow2(a + c) == 2 * pow2(a + c0));
        assert(pow2(a) * pow2(c) == 2 * (pow2(a) * pow2(c0))) by (nonlinear_arith)
            requires
                pow2(c) == 2 * pow2(c0),
        ;
    } else {
        assert(a + c == a);
        assert(pow2(a) * pow2(c) == pow2(a)) by (nonlinear_arith)
            requires
                pow2(c) == 1,
        ;
    }
}

proof fn lemma_pow2_56()
    ensures
        pow2(56) == 72057594037927936,
{
    reveal_with_fuel(pow2, 57);
}

/// Where the gap up to the next binary64 is at most the decimal unit, the decimal
/// exponent stays above the binary one.
proof fn lemma_exponent_floor(k: int, b: int, xs: int, s: int)
    requires
        k < 0,
        xs > 0,
        s > 0,
        2 * xs <= s,
        xs * dec_unit(k, b) == s * bin_unit(k, b),
    ensures
        k > b,
{
    let c1 = dec_unit(k, b) as int;
    let c2 = bin_unit(k, b) as int;
    lemma_units_pos(k, b);
    assert(2 * c2 <= c1) by (nonlinear_arith)
        requires
            xs * c1 == s * c2,
            2 * xs <= s,
            c1 > 0,
            s > 0,
    ;
    lemma_pow2_pos((b + neg_part(b)) as nat);
    lemma_pow2_le_pow10((-k) as nat);
    assert(pow10(0) == 1);
    if b >= 0 {
        assert(pow2(0) == 1);
        assert(neg_part(b) == 0);
        assert(neg_part(k) == -k);
        assert((k + neg_part(k)) as nat == 0);
        assert(c1 == pow10(0) * pow2(0));
        assert(c1 == 1);
        lemma_pow10_pos((-k) as nat);
        assert(c2 >= 1) by (nonlinear_arith)
            requires
                c2 == pow2((b + neg_part(b)) as nat) * pow10(neg_part(k)),
                pow2((b + neg_part(b)) as nat) >= 1,
                pow10(neg_part(k)) >= 1,
        ;
    } else {
        assert(pow2(0) == 1);
        assert(neg_part(b) == -b);
        assert(neg_part(k) == -k);
        assert((k + neg_part(k)) as nat == 0);
        assert((b + neg_part(b)) as nat == 0);
        assert(c2 == pow2(0) * pow10((-k) as nat));
        assert(c2 == pow10((-k) as nat));
        assert(c1 == pow10(0) * pow2((-b) as nat));
        assert(c1 == pow2((-b) as nat));
        assert(pow2((1 - k) as nat) == 2 * pow2((-k) as nat));
        if 1 - k > -b {
            lemma_pow2_strict((-b) as nat, (1 - k) as nat);
        }
    }
}

/// While the scale is at most the upper bound of the interval, the decimal exponent
/// stays below a fixed bound.
proof fn lemma_exponent_ceiling(k: int, b: int, xs: int, s: int, top: int)
    requires
        k >= 0,
        xs > 0,
        s > 0,
        0 < top < 72057594037927936,
        s <= top * xs,
        xs * dec_unit(k, b) == s * bin_unit(k, b),
    ensures
        k < 56 + neg_part(-b),
{
    let c1 = dec_unit(k, b) as int;
    let c2 = bin_unit(k, b) as int;
    lemma_units_pos(k, b);
    lemma_pow2_56();
    assert(c1 <= top * c2) by (nonlinear_arith)
        requires
            xs * c1 == s * c2,
            s <= top * xs,
            c2 > 0,
            xs > 0,
    ;
    lemma_pow2_le_pow10(k as nat);
    assert(pow10(0) == 1);
    assert(neg_part(k) == 0);
    assert((k + neg_part(k)) as nat == k as nat);
    if b >= 0 {
        assert(neg_part(b) == 0);
        assert(neg_part(-b) == b);
        assert(c1 == pow10(k as nat) * pow2(0));
        assert(pow2(0) == 1);
        assert(c1 == pow10(k as nat)) by (nonlinear_arith)
            requires
                c1 == pow10(k as nat) * pow2(0),
                pow2(0) == 1,
        ;
        assert(c2 == pow2(b as nat) * pow10(0));
        assert(c2 == pow2(b as nat));
        lemma_pow2_add(56, b as nat);
        assert(top * c2 < pow2(56) * pow2(b as nat)) by (nonlinear_arith)
            requires
                top < pow2(56),
                c2 == pow2(b as nat),
                c2 > 0,
        ;
        assert(pow2(k as nat) < pow2((56 + b) as nat));
        if k >= 56 + b {
            if k > 56 + b {
                lemma_pow2_strict((56 + b) as nat, k as nat);
            }
        }
    } else {
        assert(neg_part(b) == -b);
        assert((b + neg_part(b)) as nat == 0);
        assert(c2 == pow2(0) * pow10(0));
        assert(pow2(0) == 1);
        assert(c2 == 1);
        assert(c1 == pow10(k as nat) * pow2((-b) as nat));
        lemma_pow2_pos((-b) as nat);
        assert(c1 >= pow10(k as nat)) by (nonlinear_arith)
            requires
                c1 == pow10(k as nat) * pow2((-b) as nat),
                pow2((-b) as nat) >= 1,
                pow10(k as nat) >= 0,
        ;
        assert(neg_part(-b) == 0);
        assert(top * c2 == top) by (nonlinear_arith)
            requires
                c2 == 1,
        ;
        assert(pow2(k as nat) < pow2(56));
        if k > 56 {
            lemma_pow2_strict(56, k as nat);
        }
    }
}


/// The shortest decimal that rounds to the finite, nonzero binary64 value with
/// mantissa field `f` and biased exponent field `x`.
pub fn shortest(f: u64, x: u64) -> (res: Decimal)
    requires
        finite_nonzero(f, x),
    ensures
        is_shortest(f, x, res),
        res.mantissa % 10 != 0,
        -1100 <= res.exponent <= 1100,
{
    let m: u64 = if x == 0 {
        f
    } else {
        f + HIDDEN_BIT
    };
    let b: i64 = if x == 0 {
        -1076
    } else {
        x as i64 - 1077
    };
    let v: u64 = 4 * m;
    let mm: u64 = if f == 0 && x > 1 {
        1
    } else {
        2
    };
    let incl: bool = m % 2 == 0;
    let ghost lo: int = v - mm;
    let ghost hi: int = v + 2;
    assert(v == quarter_mantissa(f, x));
    assert(b == quarter_exponent(x));
    assert(mm == lower_gap(f, x));
    assert(incl == bounds_included(f, x));
    // The scale `s`, the value `r`, the gaps `mp` and `mmb` and the upper bound
    // `top`, all counted in the unit `2^b / xs`.
    let mut s: Vec<u32>;
    let mut r: Vec<u32>;
    let mut mp: Vec<u32>;
    let mut mmb: Vec<u32>;
    let top: Vec<u32>;
    let ghost mut xs: int;
    if b >= 0 {
        let sh = b as u32;
        s = from_u64(1);
        r = shl(&from_u64(v), sh);
        mp = shl(&from_u64(2), sh);
        mmb = shl(&from_u64(mm), sh);
        top = shl(&from_u64(v + 2), sh);
        proof {
            xs = pow2(sh as nat) as int;
            lemma_pow2_pos(sh as nat);
            assert(neg_part(b as int) == 0);
            assert(pow10(0) == 1);
            assert(pow2(0) == 1);
            assert(dec_unit(0, b as int) == pow10(0) * pow2(0));
            assert(bin_unit(0, b as int) == pow2(sh as nat) * pow10(0));
            assert(xs * dec_unit(0, b as int) == value(s@) * bin_unit(0, b as int));
        }
    } else {
        let sh = (-b) as u32;
        s = shl(&from_u64(1), sh);
        r = from_u64(v);
        mp = from_u64(2);
        mmb = from_u64(mm);
        top = from_u64(v + 2);
        proof {
            xs = 1;
            lemma_pow2_pos(sh as nat);
            assert(neg_part(b as int) == sh);
            assert(pow10(0) == 1);
            assert(pow2(0) == 1);
            assert(dec_unit(0, b as int) == pow10(0) * pow2(sh as nat));
            assert(bin_unit(0, b as int) == pow2(0) * pow10(0));
            assert(xs * dec_unit(0, b as int) == value(s@) * bin_unit(0, b as int));
        }
    }
    // Raise the decimal exponent until `10^k` exceeds the upper bound of the
    // interval: no multiple of it rounds to the value then.
    let mut k: i64 = 0;
    while !lt(&top, &s)
        invariant
            0 <= k <= 1100,
            b == quarter_exponent(x),
            -1076 <= b <= 969,
            v < 36028797018963968,
            xs > 0,
            value(s@) > 0,
            value(r@) == v * xs,
            value(mp@) == 2 * xs,
            value(mmb@) == mm * xs,
            value(top@) == (v + 2) * xs,
            xs * dec_unit(k as int, b as int) == value(s@) * bin_unit(k as int, b as int),
        decreases 10 * value(top@) - value(s@),
    {
        proof {
            lemma_exponent_ceiling(k as int, b as int, xs, value(s@) as int, v + 2);
        }
        let ghost s0 = value(s@) as int;
        s = mul_small(&s, 10);
        proof {
            lemma_units_step(k + 1, b as int);
            let c1 = dec_unit(k as int, b as int) as int;
            let c2 = bin_unit(k as int, b as int) as int;
            assert(xs * (10 * c1) == (10 * s0) * c2) by (nonlinear_arith)
                requires
                    xs * c1 == s0 * c2,
            ;
        }
        k += 1;
    }
    proof {
        assert((v + 2) * xs == v * xs + 2 * xs) by (nonlinear_arith);
        assert(v * xs >= 0) by (nonlinear_arith)
            requires
                xs > 0,
        ;
    }
    // Generate digits: the value is `(p + r / s) * 10^k`. Stop at the first `k`
    // where `p * 10^k` or `(p + 1) * 10^k` lies in the interval.
    let mut p: u64 = 0;
    let ghost mut first = true;
    loop
        invariant
            -1100 <= k <= 1100,
            b == quarter_exponent(x),
            -1076 <= b <= 969,
            v == quarter_mantissa(f, x),
            mm == lower_gap(f, x),
            incl == bounds_included(f, x),
            lo == v - mm,
            hi == v + 2,
            4 <= v < 36028797018963968,
            1 <= mm <= 2,
            xs > 0,
            value(s@) > 0,
            value(r@) < value(s@),
            p * value(s@) + value(r@) == v * xs,
            value(mp@) == 2 * xs,
            value(mmb@) == mm * xs,
            value(mp@) <= 10 * value(s@),
            p <= 288230376151711744,
            xs * dec_unit(k as int, b as int) == value(s@) * bin_unit(k as int, b as int),
            first ==> p == 0 && value(r@) + value(mp@) < value(s@),
            !first ==> forall|d: int| !#[trigger] rounds_to(f, x, d, k + 1),
        decreases 10 * value(s@) - value(mp@),
    {
        let floor_hit = if incl {
            !lt(&mmb, &r)
        } else {
            lt(&r, &mmb)
        };
        let gap = sub_big(&s, &r);
        let ceil_hit = if incl {
            !lt(&mp, &gap)
        } else {
            lt(&gap, &mp)
        };
        let ghost c1 = dec_unit(k as int, b as int) as int;
        let ghost c2 = bin_unit(k as int, b as int) as int;
        let ghost sv = value(s@) as int;
        let ghost rv = value(r@) as int;
        proof {
            lemma_units_pos(k as int, b as int);
            lemma_candidates(lo, v as int, hi, c1, c2, xs, sv, p as int, rv, incl);
            assert((v - lo) * xs == mm * xs);
            assert((hi - v) * xs == 2 * xs);
            assert(floor_hit == rounds_to(f, x, p as int, k as int));
            assert(ceil_hit == rounds_to(f, x, p + 1, k as int));
            if first {
                assert(v * xs > mm * xs) by (nonlinear_arith)
                    requires
                        v > mm,
                        xs > 0,
                ;
            }
        }
        if floor_hit || ceil_hit {
            let d: u64;
            if floor_hit && ceil_hit {
                let r2 = mul_small(&r, 2);
                if lt(&r2, &s) {
                    d = p;
                } else if lt(&s, &r2) {
                    d = p + 1;
                } else if p % 2 == 0 {
                    d = p;
                } else {
                    d = p + 1;
                }
            } else if floor_hit {
                d = p;
            } else {
                d = p + 1;
            }
            let res = Decimal { mantissa: d, exponent: k };
            proof {
                assert forall|e: int| #[trigger]
                    rounds_to(f, x, e, k as int) && e != d implies (distance(f, x, d as int, k as int)
                        < distance(f, x, e, k as int) || (distance(f, x, d as int, k as int)
                        == distance(f, x, e, k as int) && d % 2 == 0)) by {
                    lemma_other_multiple(lo, v as int, hi, c1, c2, p as int, e, incl);
                }
                assert(res.exponent + 1 == k + 1);
                lemma_shortest_last_digit(f, x, res);
            }
            return res;
        }
        proof {
            assert forall|e: int| !#[trigger] rounds_to(f, x, e, k as int) by {
                lemma_other_multiple(lo, v as int, hi, c1, c2, p as int, e, incl);
            }
            assert(2 * xs <= sv);
            assert(2 * p <= v) by (nonlinear_arith)
                requires
                    2 * xs <= sv,
                    p * sv + rv == v * xs,
                    rv >= 0,
                    xs > 0,
                    p >= 0,
            ;
            if k < 0 {
                lemma_exponent_floor(k as int, b as int, xs, sv);
            }
        }
        // Next digit: `q = floor(10 * r / s)`, between 0 and 9.
        let r10 = mul_small(&r, 10);
        mp = mul_small(&mp, 10);
        mmb = mul_small(&mmb, 10);
        let mut q: u64 = 0;
        let mut rem = r10;
        while !lt(&rem, &s)
            invariant
                value(s@) == sv,
                sv > 0,
                rv < sv,
                value(rem@) + q * sv == 10 * rv,
                q <= 9,
            decreases value(rem@),
        {
            proof {
                assert(q + 1 < 10) by (nonlinear_arith)
                    requires
                        value(rem@) >= sv,
                        value(rem@) + q * sv == 10 * rv,
                        rv < sv,
                        sv > 0,
                ;
            }
            rem = sub_big(&rem, &s);
            proof {
                assert((q + 1) * sv == q * sv + sv) by (nonlinear_arith);
            }
            q += 1;
        }
        proof {
            lemma_units_step(k as int, b as int);
            let c1n = dec_unit(k - 1, b as int) as int;
            let c2n = bin_unit(k - 1, b as int) as int;
            assert((10 * xs) * c1n == sv * c2n) by (nonlinear_arith)
                requires
                    xs * c1 == sv * c2,
                    (c1 == 10 * c1n && c2 == c2n) || (c1 == c1n && c2n == 10 * c2),
            ;
            assert((10 * p + q) * sv + value(rem@) == v * (10 * xs)) by (nonlinear_arith)
                requires
                    value(rem@) + q * sv == 10 * rv,
                    p * sv + rv == v * xs,
            ;
        }
        p = 10 * p + q;
        r = rem;
        k -= 1;
        proof {
            xs = 10 * xs;
            first = false;
        }
    }
}


/// `d * 10^k` and `(10 * d) * 10^(k - 1)` are one number.
pub proof fn lemma_rounds_to_rescale(f: u64, x: u64, d: int, k: int)
    ensures
        rounds_to(f, x, d, k) == rounds_to(f, x, 10 * d, k - 1),
{
    let b = quarter_exponent(x);
    let v = quarter_mantissa(f, x);
    let lo = v - lower_gap(f, x);
    let hi = v + upper_gap();
    lemma_units_step(k, b);
    lemma_units_pos(k, b);
    let c1 = dec_unit(k, b) as int;
    let c2 = bin_unit(k, b) as int;
    let c1n = dec_unit(k - 1, b) as int;
    let c2n = bin_unit(k - 1, b) as int;
    if k >= 1 {
        assert(d * c1 == (10 * d) * c1n) by (nonlinear_arith)
            requires
                c1 == 10 * c1n,
        ;
    } else {
        assert((10 * d) * c1n == 10 * (d * c1)) by (nonlinear_arith)
            requires
                c1 == c1n,
        ;
        assert(lo * c2n == 10 * (lo * c2) && hi * c2n == 10 * (hi * c2)) by (nonlinear_arith)
            requires
                c2n == 10 * c2,
        ;
    }
}

/// A decimal rounds to the value exactly when it does written with a lower
/// exponent.
pub proof fn lemma_rounds_to_lower(f: u64, x: u64, d: int, k: int, j: nat)
    ensures
        rounds_to(f, x, d, k) == rounds_to(f, x, d * pow10(j), k - j),
    decreases j,
{
    if j == 0 {
        assert(pow10(0) == 1);
        assert(d * 1 == d);
    } else {
        lemma_rounds_to_lower(f, x, d, k, (j - 1) as nat);
        lemma_rounds_to_rescale(f, x, d * pow10((j - 1) as nat), k - (j - 1));
        assert(10 * (d * pow10((j - 1) as nat)) == d * pow10(j)) by (nonlinear_arith)
            requires
                pow10(j) == 10 * pow10((j - 1) as nat),
        ;
    }
}

proof fn lemma_pow10_mono(a: nat, c: nat)
    requires
        a <= c,
    ensures
        pow10(a) <= pow10(c),
    decreases c,
{
    lemma_pow10_pos(a);
    if a < c {
        lemma_pow10_mono(a, (c - 1) as nat);
    }
}

proof fn lemma_pow10_add(a: nat, c: nat)
    ensures
        pow10(a + c) == pow10(a) * pow10(c),
    decreases c,
{
    assert(pow10(0) == 1);
    if c > 0 {
        let c0 = (c - 1) as nat;
        lemma_pow10_add(a, c0);
        assert(pow10(c) == 10 * pow10(c0));
        assert(a + c == (a + c0) + 1);
        assert(pow10(a + c) == 10 * pow10(a + c0));
        assert(pow10(a) * pow10(c) == 10 * (pow10(a) * pow10(c0))) by (nonlinear_arith)
            requires
                pow10(c) == 10 * pow10(c0),
        ;
    } else {
        assert(a + c == a);
        assert(pow10(a) * pow10(c) == pow10(a)) by (nonlinear_arith)
            requires
                pow10(c) == 1,
        ;
    }
}

/// The decimals with one exponent that round to the value have no gaps.
proof fn lemma_between(f: u64, x: u64, d1: int, d2: int, d: int, k: int)
    requires
        rounds_to(f, x, d1, k),
        rounds_to(f, x, d2, k),
        d1 <= d <= d2,
    ensures
        rounds_to(f, x, d, k),
{
    let b = quarter_exponent(x);
    lemma_units_pos(k, b);
    let c1 = dec_unit(k, b) as int;
    assert(d1 * c1 <= d * c1 <= d2 * c1) by (nonlinear_arith)
        requires
            d1 <= d <= d2,
            c1 > 0,
    ;
}

/// No decimal with fewer digits than the shortest one rounds to the value: a
/// mantissa below `10^n2` with `n2 < n`, where the shortest mantissa is at least
/// `10^(n - 1)`.
pub proof fn lemma_fewest_digits(f: u64, x: u64, r: Decimal, n: nat, d2: int, k2: int, n2: nat)
    requires
        is_shortest(f, x, r),
        pow10((n - 1) as nat) <= r.mantissa,
        n >= 1,
        0 < d2 < pow10(n2),
        n2 < n,
    ensures
        !rounds_to(f, x, d2, k2),
{
    if rounds_to(f, x, d2, k2) {
        let k = r.exponent as int;
        if k2 >= k + 1 {
            let j = (k2 - (k + 1)) as nat;
            lemma_rounds_to_lower(f, x, d2, k2, j);
            assert(!rounds_to(f, x, d2 * pow10(j), k + 1));
        } else {
            let j = (k - k2) as nat;
            if n2 == 0 {
                assert(pow10(0) == 1);
            }
            assert(n >= 2);
            let big = r.mantissa * pow10(j);
            lemma_rounds_to_lower(f, x, r.mantissa as int, k, j);
            let m = pow10(((n - 1) as nat + j) as nat) as int;
            lemma_pow10_add((n - 1) as nat, j);
            lemma_pow10_mono(n2, (n - 1) as nat);
            lemma_pow10_pos(j);
            lemma_pow10_mono((n - 1) as nat, ((n - 1) as nat + j) as nat);
            assert(m <= big) by (nonlinear_arith)
                requires
                    m == pow10((n - 1) as nat) * pow10(j),
                    pow10((n - 1) as nat) <= r.mantissa,
                    pow10(j) > 0,
                    big == r.mantissa * pow10(j),
            ;
            lemma_between(f, x, d2, big, m, k2);
            let t = pow10((n - 2) as nat) as int;
            lemma_pow10_add((n - 2) as nat, j + 1);
            assert(((n - 2) as nat + (j + 1)) as nat == ((n - 1) as nat + j) as nat);
            lemma_rounds_to_lower(f, x, t, k + 1, (j + 1) as nat);
            assert(k + 1 - (j + 1) == k2);
            assert(!rounds_to(f, x, t, k + 1));
        }
    }
}

/// The shortest decimal ends in a nonzero digit: otherwise one digit fewer, with
/// a larger exponent, would round to the value too.
pub proof fn lemma_shortest_last_digit(f: u64, x: u64, r: Decimal)
    requires
        is_shortest(f, x, r),
    ensures
        r.mantissa % 10 != 0,
{
    if r.mantissa % 10 == 0 {
        let e = r.mantissa as int / 10;
        lemma_rounds_to_rescale(f, x, e, r.exponent + 1);
        assert(10 * e == r.mantissa);
        assert(!rounds_to(f, x, e, r.exponent + 1));
    }
}

/// Two integers that are even, distinct and equally far from `w / c` have an
/// integer midpoint, and that midpoint is `w / c` itself.
proof fn lemma_even_tie(a: int, b: int, c: int, w: int)
    requires
        c > 0,
        a != b,
        a % 2 == 0,
        b % 2 == 0,
        (if a * c - w < 0 {
            w - a * c
        } else {
            a * c - w
        }) == (if b * c - w < 0 {
            w - b * c
        } else {
            b * c - w
        }),
    ensures
        ((a + b) / 2) * c == w,
        (a + b) / 2 != a,
{
    if a * c - w < 0 && b * c - w < 0 || a * c - w >= 0 && b * c - w >= 0 {
        assert(a * c == b * c);
        assert(a == b) by (nonlinear_arith)
            requires
                a * c == b * c,
                c > 0,
        ;
    }
    assert((a + b) * c == 2 * w) by (nonlinear_arith)
        requires
            a * c + b * c == 2 * w,
    ;
    let m = (a + b) / 2;
    assert(2 * m == a + b);
    assert(m * c == w) by (nonlinear_arith)
        requires
            (2 * m) * c == 2 * w,
    ;
}

/// There is exactly one shortest decimal for each finite, nonzero value.
pub proof fn lemma_shortest_unique(f: u64, x: u64, r1: Decimal, r2: Decimal)
    requires
        is_shortest(f, x, r1),
        is_shortest(f, x, r2),
    ensures
        r1 == r2,
{
    if r1.exponent > r2.exponent {
        let j = (r1.exponent - r2.exponent - 1) as nat;
        lemma_rounds_to_lower(f, x, r1.mantissa as int, r1.exponent as int, j);
        assert(!rounds_to(f, x, r1.mantissa * pow10(j), r2.exponent + 1));
    } else if r2.exponent > r1.exponent {
        let j = (r2.exponent - r1.exponent - 1) as nat;
        lemma_rounds_to_lower(f, x, r2.mantissa as int, r2.exponent as int, j);
        assert(!rounds_to(f, x, r2.mantissa * pow10(j), r1.exponent + 1));
    } else if r1.mantissa != r2.mantissa {
        let k = r1.exponent as int;
        let a = r1.mantissa as int;
        let bm = r2.mantissa as int;
        assert(rounds_to(f, x, bm, k));
        assert(rounds_to(f, x, a, k));
        let b = quarter_exponent(x);
        let v = quarter_mantissa(f, x);
        lemma_units_pos(k, b);
        let c1 = dec_unit(k, b) as int;
        let c2 = bin_unit(k, b) as int;
        let w = v * c2;
        assert(distance(f, x, a, k) == distance(f, x, bm, k));
        lemma_even_tie(a, bm, c1, w);
        let m = (a + bm) / 2;
        let lo = v - lower_gap(f, x);
        let hi = v + upper_gap();
        assert(lo * c2 < w < hi * c2) by (nonlinear_arith)
            requires
                lo < v < hi,
                c2 > 0,
                w == v * c2,
        ;
        assert(rounds_to(f, x, m, k));
        assert(distance(f, x, m, k) == 0);
        assert(a * c1 == m * c1);
        assert(a == m) by (nonlinear_arith)
            requires
                a * c1 == m * c1,
                c1 > 0,
        ;
    }
}

} // verus!
