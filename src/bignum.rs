//! Unbounded natural numbers as little-endian vectors of 32-bit limbs.
use vstd::prelude::*;

verus! {

pub open spec fn limb_base() -> nat {
    4294967296
}

/// `limb_base()` raised to `n`.
pub open spec fn base_pow(n: nat) -> nat
    decreases n,
{
    if n == 0 {
        1
    } else {
        limb_base() * base_pow((n - 1) as nat)
    }
}

/// `2` raised to `n`.
pub open spec fn pow2(n: nat) -> nat
    decreases n,
{
    if n == 0 {
        1
    } else {
        2 * pow2((n - 1) as nat)
    }
}

/// `10` raised to `n`.
pub open spec fn pow10(n: nat) -> nat
    decreases n,
{
    if n == 0 {
        1
    } else {
        10 * pow10((n - 1) as nat)
    }
}

pub open spec fn limb_at(s: Seq<u32>, i: int) -> nat {
    if 0 <= i < s.len() {
        s[i] as nat
    } else {
        0
    }
}

/// The number that the lowest `n` limbs of `s` stand for (missing limbs are zero).
pub open spec fn value_upto(s: Seq<u32>, n: nat) -> nat
    decreases n,
{
    if n == 0 {
        0
    } else {
        value_upto(s, (n - 1) as nat) + limb_at(s, n - 1) * base_pow((n - 1) as nat)
    }
}

/// The number that the limbs `s` stand for.
pub open spec fn value(s: Seq<u32>) -> nat {
    value_upto(s, s.len())
}

pub proof fn lemma_pow2_pos(n: nat)
    ensures
        pow2(n) > 0,
    decreases n,
{
    if n > 0 {
        lemma_pow2_pos((n - 1) as nat);
    }
}

pub proof fn lemma_pow10_pos(n: nat)
    ensures
        pow10(n) > 0,
    decreases n,
{
    if n > 0 {
        lemma_pow10_pos((n - 1) as nat);
    }
}

proof fn lemma_value_upto_bound(s: Seq<u32>, n: nat)
    ensures
        value_upto(s, n) < base_pow(n),
    decreases n,
{
    if n > 0 {
        let m = (n - 1) as nat;
        lemma_value_upto_bound(s, m);
        let l = limb_at(s, m as int);
        let p = base_pow(m);
        let v = value_upto(s, m);
        assert(l * p + v < limb_base() * p) by (nonlinear_arith)
            requires
                l < limb_base(),
                v < p,
        ;
    }
}

proof fn lemma_value_upto_beyond(s: Seq<u32>, n: nat)
    requires
        n >= s.len(),
    ensures
        value_upto(s, n) == value(s),
    decreases n,
{
    if n > s.len() {
        lemma_value_upto_beyond(s, (n - 1) as nat);
    }
}

proof fn lemma_value_upto_push(s: Seq<u32>, x: u32, n: nat)
    requires
        n <= s.len(),
    ensures
        value_upto(s.push(x), n) == value_upto(s, n),
    decreases n,
{
    if n > 0 {
        lemma_value_upto_push(s, x, (n - 1) as nat);
    }
}

proof fn lemma_push_step(s: Seq<u32>, x: u32)
    ensures
        value(s.push(x)) == value(s) + x * base_pow(s.len()),
{
    lemma_value_upto_push(s, x, s.len());
}

/// The limbs of a 64-bit number.
pub fn from_u64(x: u64) -> (r: Vec<u32>)
    ensures
        value(r@) == x,
{
    let lo = (x % 4294967296) as u32;
    let hi = (x / 4294967296) as u32;
    let mut r: Vec<u32> = Vec::new();
    let ghost r0 = r@;
    proof {
        assert(value(r0) == 0);
        assert(base_pow(0) == 1);
    }
    r.push(lo);
    proof {
        lemma_push_step(r0, lo);
        assert(value(r@) == lo);
        assert(x == lo + hi * limb_base());
    }
    let ghost r1 = r@;
    r.push(hi);
    proof {
        lemma_push_step(r1, hi);
        assert(base_pow(1) == limb_base()) by {
            assert(base_pow(0) == 1);
        }
    }
    r
}

/// The product of `a` and a small factor.
pub fn mul_small(a: &Vec<u32>, c: u32) -> (r: Vec<u32>)
    ensures
        value(r@) == value(a@) * c,
{
    let mut r: Vec<u32> = Vec::new();
    let mut carry: u64 = 0;
    let mut i: usize = 0;
    proof {
        assert(value(r@) == 0);
        assert(value_upto(a@, 0) == 0);
        assert(base_pow(0) == 1);
    }
    while i < a.len()
        invariant
            i <= a.len(),
            r@.len() == i,
            carry < limb_base(),
            value(r@) + carry * base_pow(i as nat) == value_upto(a@, i as nat) * c,
        decreases a.len() - i,
    {
        let ai = a[i];
        proof {
            assert((ai as u64) * (c as u64) <= 4294967295 * 4294967295) by (nonlinear_arith)
                requires
                    ai <= 4294967295,
                    c <= 4294967295,
            ;
        }
        let t: u64 = (ai as u64) * (c as u64) + carry;
        let lo = (t % 4294967296) as u32;
        let ghost old_r = r@;
        let ghost old_carry = carry;
        r.push(lo);
        carry = t / 4294967296;
        proof {
            lemma_push_step(old_r, lo);
            let p = base_pow(i as nat);
            assert(base_pow((i + 1) as nat) == limb_base() * p);
            assert(value_upto(a@, (i + 1) as nat) == value_upto(a@, i as nat) + ai * p);
            let va = value_upto(a@, i as nat);
            assert(t == lo + carry * limb_base());
            assert((va + ai * p) * c == va * c + (ai * c) * p) by (nonlinear_arith);
            assert(t * p == lo * p + carry * (limb_base() * p)) by (nonlinear_arith)
                requires
                    t == lo + carry * limb_base(),
            ;
            assert((ai * c + old_carry) * p == (ai * c) * p + old_carry * p) by (nonlinear_arith);
        }
        i += 1;
    }
    proof {
        lemma_value_upto_beyond(a@, i as nat);
    }
    if carry > 0 {
        let ghost old_r = r@;
        r.push(carry as u32);
        proof {
            lemma_push_step(old_r, carry as u32);
        }
    }
    r
}

/// `a - b` over as many limbs as the longer of the two, and whether it borrowed
/// out of the top limb (which happens exactly when `a < b`).
fn sub_borrow(a: &Vec<u32>, b: &Vec<u32>) -> (res: (Vec<u32>, bool))
    ensures
        res.1 == (value(a@) < value(b@)),
        !res.1 ==> value(res.0@) == value(a@) - value(b@),
{
    let n: usize = if a.len() >= b.len() {
        a.len()
    } else {
        b.len()
    };
    let mut r: Vec<u32> = Vec::new();
    let mut borrow: u64 = 0;
    let mut i: usize = 0;
    proof {
        assert(value(r@) == 0);
        assert(value_upto(a@, 0) == 0);
        assert(value_upto(b@, 0) == 0);
    }
    while i < n
        invariant
            i <= n,
            n >= a.len(),
            n >= b.len(),
            r@.len() == i,
            borrow <= 1,
            value(r@) - borrow * base_pow(i as nat) == value_upto(a@, i as nat) - value_upto(
                b@,
                i as nat,
            ),
        decreases n - i,
    {
        let x: u64 = if i < a.len() {
            a[i] as u64
        } else {
            0
        };
        let y: u64 = if i < b.len() {
            b[i] as u64
        } else {
            0
        };
        let d: u64;
        let nb: u64;
        if x >= y + borrow {
            d = x - y - borrow;
            nb = 0;
        } else {
            d = x + 4294967296 - y - borrow;
            nb = 1;
        }
        let ghost old_r = r@;
        let ghost old_borrow = borrow;
        r.push(d as u32);
        borrow = nb;
        proof {
            lemma_push_step(old_r, d as u32);
            let p = base_pow(i as nat);
            assert(base_pow((i + 1) as nat) == limb_base() * p);
            assert(x == limb_at(a@, i as int));
            assert(y == limb_at(b@, i as int));
            assert(d - nb * limb_base() == x - y - old_borrow);
            assert(d * p - nb * (limb_base() * p) == x * p - y * p - old_borrow * p)
                by (nonlinear_arith)
                requires
                    d - nb * limb_base() == x - y - old_borrow,
            ;
        }
        i += 1;
    }
    proof {
        lemma_value_upto_beyond(a@, i as nat);
        lemma_value_upto_beyond(b@, i as nat);
        lemma_value_upto_bound(r@, i as nat);
    }
    (r, borrow == 1)
}

/// Whether `a < b`.
pub fn lt(a: &Vec<u32>, b: &Vec<u32>) -> (r: bool)
    ensures
        r == (value(a@) < value(b@)),
{
    let (_d, borrow) = sub_borrow(a, b);
    borrow
}

/// `a - b`, for `b <= a`.
pub fn sub_big(a: &Vec<u32>, b: &Vec<u32>) -> (r: Vec<u32>)
    requires
        value(b@) <= value(a@),
    ensures
        value(r@) == value(a@) - value(b@),
{
    let (d, _borrow) = sub_borrow(a, b);
    d
}

/// `a` times `2` raised to `n`.
pub fn shl(a: &Vec<u32>, n: u32) -> (r: Vec<u32>)
    ensures
        value(r@) == value(a@) * pow2(n as nat),
{
    let mut r = mul_small(a, 1);
    let mut i: u32 = 0;
    while i < n
        invariant
            i <= n,
            value(r@) == value(a@) * pow2(i as nat),
        decreases n - i,
    {
        r = mul_small(&r, 2);
        proof {
            let p = pow2(i as nat);
            assert(value(a@) * (2 * p) == 2 * (value(a@) * p)) by (nonlinear_arith);
        }
        i += 1;
    }
    r
}

} // verus!
