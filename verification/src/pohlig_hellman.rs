//! The discrete logarithm in the ring of polynomials over GF(2) modulo a
//! characteristic polynomial: baby steps and giant steps in each subgroup
//! of prime order, and the Chinese remainder theorem to put the residues
//! together.

use crate::error::Error;
use crate::gf2vec::{compute_jump_poly, GF2Vec128};
use std::collections::HashMap;
use vstd::arithmetic::div_mod::{
    lemma_fundamental_div_mod, lemma_mod_add_multiples_vanish, lemma_mod_mod,
    lemma_mod_multiples_basic, lemma_mul_mod_noop_left, lemma_mul_mod_noop_right, lemma_small_mod,
    lemma_sub_mod_noop, lemma_add_mod_noop,
};
use vstd::prelude::*;

verus! {

broadcast use vstd::std_specs::hash::group_hash_axioms;

/// The greatest common divisor, by Euclid's recurrence.
pub open spec fn gcd(a: nat, b: nat) -> nat
    decreases b,
{
    if b == 0 {
        a
    } else {
        gcd(b, a % b)
    }
}

/// The product of the first `n` moduli.
pub open spec fn product(mods: Seq<u128>, n: nat) -> nat
    decreases n,
{
    if n == 0 {
        1
    } else {
        product(mods, (n - 1) as nat) * (mods[n - 1] as nat)
    }
}

/// The product of the first `n` moduli but the one at index `l`.
pub open spec fn product_except(mods: Seq<u128>, n: nat, l: int) -> nat
    decreases n,
{
    if n == 0 {
        1
    } else if n - 1 == l {
        product_except(mods, (n - 1) as nat, l)
    } else {
        product_except(mods, (n - 1) as nat, l) * (mods[n - 1] as nat)
    }
}

/// Leaving out a modulus that is not among the first `n` leaves out
/// nothing.
pub proof fn lemma_product_except_outside(mods: Seq<u128>, n: nat, l: int)
    requires
        l >= n,
    ensures
        product_except(mods, n, l) == product(mods, n),
    decreases n,
{
    if n > 0 {
        lemma_product_except_outside(mods, (n - 1) as nat, l);
    }
}

/// The product is the modulus at `l` times the product of the others.
pub proof fn lemma_product_split(mods: Seq<u128>, n: nat, l: int)
    requires
        0 <= l < n,
    ensures
        product(mods, n) == (mods[l] as nat) * product_except(mods, n, l),
    decreases n,
{
    let k = (n - 1) as nat;
    if k == l {
        lemma_product_except_outside(mods, k, l);
        assert(product(mods, k) * (mods[l] as nat) == (mods[l] as nat) * product(mods, k))
            by (nonlinear_arith);
    } else {
        lemma_product_split(mods, k, l);
        let a = mods[l] as nat;
        let b = product_except(mods, k, l);
        let c = mods[k as int] as nat;
        assert((a * b) * c == a * (b * c)) by (nonlinear_arith);
    }
}

/// The product of the others is a multiple of each of them.
pub proof fn lemma_product_except_divides(mods: Seq<u128>, n: nat, l: int, j: int)
    requires
        0 <= j < n,
        j != l,
        mods[j] > 0,
    ensures
        product_except(mods, n, l) % (mods[j] as nat) == 0,
    decreases n,
{
    let k = (n - 1) as nat;
    let mj = mods[j] as int;
    if k == l {
        lemma_product_except_divides(mods, k, l, j);
    } else if k == j {
        lemma_mod_multiples_basic(product_except(mods, k, l) as int, mj);
    } else {
        lemma_product_except_divides(mods, k, l, j);
        lemma_mul_mod_noop_left(product_except(mods, k, l) as int, mods[k as int] as int, mj);
        assert(0 * (mods[k as int] as int) == 0);
        lemma_small_mod(0, mj as nat);
    }
}

/// A product of positive moduli is positive.
pub proof fn lemma_product_positive(mods: Seq<u128>, n: nat)
    requires
        forall|i: int| 0 <= i < n ==> mods[i] > 0,
    ensures
        product(mods, n) > 0,
    decreases n,
{
    if n > 0 {
        lemma_product_positive(mods, (n - 1) as nat);
        let a = product(mods, (n - 1) as nat);
        let b = mods[n - 1] as nat;
        assert(a * b > 0) by (nonlinear_arith)
            requires
                a > 0,
                b > 0,
        ;
    }
}

/// Reducing modulo a multiple of `a` and then modulo `a` is reducing
/// modulo `a`.
pub proof fn lemma_mod_of_mod(x: int, a: int, m: int)
    requires
        a > 0,
        m > 0,
        m % a == 0,
    ensures
        (x % m) % a == x % a,
{
    lemma_fundamental_div_mod(m, a);
    let c = m / a;
    assert(c > 0) by (nonlinear_arith)
        requires
            m == a * c + 0,
            m > 0,
            a > 0,
    ;
    lemma_mod_mod(x, a, c);
}

/// The product of two numbers below 2^128 modulo `m`, computed by
/// `num_bigint::BigUint`: both factors are converted with `From<u128>`,
/// multiplied with `Mul`, reduced with `Rem`, and the remainder, which is
/// below `m`, is converted back with `TryFrom`.
#[verifier::external_body]
fn mul_mod(a: u128, b: u128, m: u128) -> (r: u128)
    requires
        m > 0,
    ensures
        r as nat == ((a as nat) * (b as nat)) % (m as nat),
{
    let product = num_bigint::BigUint::from(a) * num_bigint::BigUint::from(b);
    u128::try_from(product % num_bigint::BigUint::from(m)).unwrap_or(0)
}

/// The sum of two residues modulo `m`.
fn add_mod(a: u128, b: u128, m: u128) -> (r: u128)
    requires
        a < m,
        b < m,
    ensures
        r as int == (a + b) % (m as int),
        r < m,
{
    if a >= m - b {
        proof {
            lemma_mod_add_multiples_vanish(a + b - m, m as int);
            lemma_small_mod((a + b - m) as nat, m as nat);
        }
        a - (m - b)
    } else {
        proof {
            lemma_small_mod((a + b) as nat, m as nat);
        }
        a + b
    }
}

/// The difference of two residues modulo `m`.
fn sub_mod(a: u128, b: u128, m: u128) -> (r: u128)
    requires
        a < m,
        b < m,
    ensures
        r as int == (a - b) % (m as int),
        r < m,
{
    if a >= b {
        proof {
            lemma_small_mod((a - b) as nat, m as nat);
        }
        a - b
    } else {
        proof {
            lemma_mod_add_multiples_vanish(a - b, m as int);
            lemma_small_mod((a - b + m) as nat, m as nat);
        }
        m - (b - a)
    }
}

/// One step of Euclid's algorithm keeps the coefficients in step with
/// the remainders.
proof fn lemma_euclid_step(x: int, y: int, t: int, a: int, m: int, ac: int, mc: int, tx: int, xn: int)
    requires
        m > 0,
        (x * a) % m == ac % m,
        (y * a) % m == mc % m,
        tx == ((t % m) * x) % m,
        xn == (y - tx) % m,
    ensures
        (xn * a) % m == (mc - t * ac) % m,
{
    lemma_mul_mod_noop_left(y - tx, a, m);
    assert((y - tx) * a == y * a - tx * a) by (nonlinear_arith);
    lemma_sub_mod_noop(y * a, tx * a, m);
    lemma_mul_mod_noop_left((t % m) * x, a, m);
    assert(((t % m) * x) * a == (t % m) * (x * a)) by (nonlinear_arith);
    lemma_mul_mod_noop_left(t, x * a, m);
    lemma_mul_mod_noop_right(t, x * a, m);
    lemma_mul_mod_noop_right(t, ac, m);
    lemma_sub_mod_noop(mc, t * ac, m);
}

/// The inverse of `a` modulo `m` by the extended algorithm of Euclid,
/// with the coefficients kept as residues modulo `m`.
pub fn modular_inverse(a: u128, m: u128) -> (r: u128)
    requires
        m > 0,
    ensures
        r < m,
        gcd(m as nat, a as nat) == 1 ==> ((a as nat) * (r as nat)) % (m as nat) == 1nat % (
        m as nat),
{
    if m == 1 {
        return 0;
    }
    let mut a_cur: u128 = a;
    let mut m_cur: u128 = m;
    let mut x: u128 = 1;
    let mut y: u128 = 0;
    proof {
        lemma_small_mod(0, m as nat);
        vstd::arithmetic::div_mod::lemma_mod_self_0(m as int);
        assert(1 * (a as int) == a as int);
        assert(0 * (a as int) == 0);
    }
    while a_cur > 1
        invariant
            m > 1,
            x < m,
            y < m,
            ((x as int) * (a as int)) % (m as int) == (a_cur as int) % (m as int),
            ((y as int) * (a as int)) % (m as int) == (m_cur as int) % (m as int),
            gcd(m_cur as nat, a_cur as nat) == gcd(m as nat, a as nat),
            a_cur == 0 ==> m_cur > 1,
        decreases a_cur,
    {
        let t: u128 = m_cur / a_cur;
        let rem: u128 = m_cur % a_cur;
        let tx: u128 = mul_mod(t % m, x, m);
        let x_new: u128 = sub_mod(y, tx, m);
        proof {
            lemma_fundamental_div_mod(m_cur as int, a_cur as int);
            assert((a_cur as int) * (t as int) == (t as int) * (a_cur as int))
                by (nonlinear_arith);
            lemma_euclid_step(
                x as int,
                y as int,
                t as int,
                a as int,
                m as int,
                a_cur as int,
                m_cur as int,
                tx as int,
                x_new as int,
            );
        }
        m_cur = a_cur;
        a_cur = rem;
        y = x;
        x = x_new;
    }
    proof {
        if a_cur == 1 {
            assert((x as int) * (a as int) == (a as int) * (x as int)) by (nonlinear_arith);
        } else {
            assert(gcd(m_cur as nat, 0) == m_cur);
        }
    }
    x
}

/// The number below the product of the moduli that leaves the given
/// remainders, by the Chinese remainder theorem.
pub open spec fn solves(mods: Seq<u128>, rems: Seq<u128>, n: nat, k: nat) -> bool {
    &&& k < product(mods, n)
    &&& forall|j: int| 0 <= j < n ==> k % (#[trigger] mods[j] as nat) == (rems[j] as nat) % (mods[j] as nat)
}

/// The moduli that `chinese_remainder_theorem` accepts: none is zero,
/// their product is below 2^128, and no two of them share a factor.
pub open spec fn usable_moduli(mods: Seq<u128>) -> bool {
    &&& forall|j: int| 0 <= j < mods.len() ==> mods[j] > 0
    &&& product(mods, mods.len()) <= u128::MAX
    &&& forall|i: int, j: int|
        0 <= i < mods.len() && 0 <= j < mods.len() && i != j ==> gcd(
            #[trigger] mods[j] as nat,
            #[trigger] mods[i] as nat,
        ) == 1
}

/// Bezout's identity: the greatest common divisor of `a` and `b` is a
/// combination of them with integer coefficients, which are returned.
pub proof fn lemma_bezout(a: nat, b: nat) -> (r: (int, int))
    ensures
        a * r.0 + b * r.1 == gcd(a, b),
    decreases b,
{
    if b == 0 {
        (1, 0)
    } else {
        let (x, y) = lemma_bezout(b, a % b);
        let q = (a / b) as int;
        let rem = (a % b) as int;
        let g = gcd(a, b) as int;
        lemma_fundamental_div_mod(a as int, b as int);
        assert(a * y + b * (x - q * y) == g) by (nonlinear_arith)
            requires
                a == b * q + rem,
                b * x + rem * y == g,
        ;
        (y, x - q * y)
    }
}

/// The greatest common divisor divides both numbers; the cofactors are
/// returned.
pub proof fn lemma_gcd_divides(a: nat, b: nat) -> (r: (nat, nat))
    ensures
        a == gcd(a, b) * r.0,
        b == gcd(a, b) * r.1,
    decreases b,
{
    if b == 0 {
        assert(a == a * 1) by (nonlinear_arith);
        assert(0 == a * 0) by (nonlinear_arith);
        (1, 0)
    } else {
        let (u, v) = lemma_gcd_divides(b, a % b);
        let q = a / b;
        let rem = a % b;
        let g = gcd(a, b);
        lemma_fundamental_div_mod(a as int, b as int);
        assert(a == g * (q * u + v)) by (nonlinear_arith)
            requires
                a == b * q + rem,
                b == g * u,
                rem == g * v,
        ;
        (q * u + v, u)
    }
}

/// Two numbers of which a combination with integer coefficients is one
/// share no factor.
pub proof fn lemma_coprime_from_bezout(a: nat, c: nat, x: int, y: int)
    requires
        a * x + c * y == 1,
    ensures
        gcd(a, c) == 1,
{
    let (u, v) = lemma_gcd_divides(a, c);
    let g = gcd(a, c);
    let k = u * x + v * y;
    assert((g * u) * x == g * (u * x)) by (nonlinear_arith);
    assert((g * v) * y == g * (v * y)) by (nonlinear_arith);
    assert(g * (u * x) + g * (v * y) == g * k) by (nonlinear_arith)
        requires
            k == u * x + v * y,
    ;
    assert(g * k == 1);
    if g == 0 {
        assert(g * k == 0) by (nonlinear_arith)
            requires
                g == 0,
        ;
    }
    if k <= 0 {
        assert(g * k <= 0) by (nonlinear_arith)
            requires
                g >= 0,
                k <= 0,
        ;
    } else {
        assert(g * k >= g) by (nonlinear_arith)
            requires
                g >= 0,
                k >= 1,
        ;
    }
}

/// A number that shares no factor with either of two numbers shares none
/// with their product.
pub proof fn lemma_coprime_product(m: nat, a: nat, b: nat)
    requires
        gcd(m, a) == 1,
        gcd(m, b) == 1,
    ensures
        gcd(m, a * b) == 1,
{
    let (x1, y1) = lemma_bezout(m, a);
    let (x2, y2) = lemma_bezout(m, b);
    let x = x1 * (m * x2 + b * y2) + a * y1 * x2;
    let y = y1 * y2;
    assert(m * x + (a * b) * y == 1) by (nonlinear_arith)
        requires
            m * x1 + a * y1 == 1,
            m * x2 + b * y2 == 1,
            x == x1 * (m * x2 + b * y2) + a * y1 * x2,
            y == y1 * y2,
    ;
    lemma_coprime_from_bezout(m, a * b, x, y);
}

/// A modulus that shares no factor with any other shares none with the
/// product of the others.
pub proof fn lemma_coprime_to_others(mods: Seq<u128>, n: nat, j: int)
    requires
        n <= mods.len(),
        forall|i: int| 0 <= i < n && i != j ==> gcd(mods[j] as nat, #[trigger] mods[i] as nat) == 1,
    ensures
        gcd(mods[j] as nat, product_except(mods, n, j)) == 1,
    decreases n,
{
    let m = mods[j] as nat;
    if n == 0 {
        assert(gcd(m, 1) == gcd(1, m % 1));
        assert(gcd(1, 0) == 1);
    } else {
        let k = (n - 1) as nat;
        lemma_coprime_to_others(mods, k, j);
        if k != j {
            assert(gcd(m, mods[k as int] as nat) == 1);
            lemma_coprime_product(m, product_except(mods, k, j), mods[k as int] as nat);
        }
    }
}

/// The product of the moduli, if none is zero and it is below 2^128.
fn product_of(mods: &Vec<u128>) -> (r: Option<u128>)
    ensures
        match r {
            Some(p) => p == product(mods@, mods.len() as nat) && p > 0 && forall|j: int|
                0 <= j < mods.len() ==> mods[j] > 0,
            None => (exists|j: int| 0 <= j < mods.len() && mods[j] == 0) || product(
                mods@,
                mods.len() as nat,
            ) > u128::MAX,
        },
{
    let mut p: u128 = 1;
    let mut i: usize = 0;
    while i < mods.len()
        invariant
            i <= mods.len(),
            p == product(mods@, i as nat),
            p > 0,
            forall|j: int| 0 <= j < i ==> mods[j] > 0,
        decreases mods.len() - i,
    {
        if mods[i] == 0 {
            return None;
        }
        match p.checked_mul(mods[i]) {
            Some(q) => {
                proof {
                    lemma_product_positive(mods@, (i + 1) as nat);
                }
                p = q;
            },
            None => {
                proof {
                    lemma_product_grows(mods@, (i + 1) as nat, mods.len() as nat);
                }
                return None;
            },
        }
        i = i + 1;
    }
    Some(p)
}

/// A product that has passed a bound stays above it, unless a later
/// modulus is zero.
proof fn lemma_product_grows(mods: Seq<u128>, lo: nat, hi: nat)
    requires
        lo <= hi,
    ensures
        (exists|j: int| 0 <= j < hi && mods[j] == 0) || product(mods, hi) >= product(mods, lo),
    decreases hi - lo,
{
    if hi > lo {
        lemma_product_grows(mods, lo, (hi - 1) as nat);
        if mods[hi - 1] != 0 && !(exists|j: int| 0 <= j < hi - 1 && mods[j] == 0) {
            let a = product(mods, (hi - 1) as nat);
            let b = mods[hi - 1] as nat;
            assert(a * b >= a) by (nonlinear_arith)
                requires
                    b >= 1,
            ;
        }
    }
}

/// One term of the reconstruction leaves the remainder `r` modulo its
/// own modulus.
proof fn lemma_own_term(inv: int, r: int, p: int, m: int, big: int, t1: int, term: int)
    requires
        m > 0,
        big > 0,
        big % m == 0,
        ((p % m) * inv) % m == 1int % m,
        t1 == (inv * r) % big,
        term == (t1 * p) % big,
    ensures
        term % m == r % m,
{
    lemma_mod_of_mod(t1 * p, m, big);
    lemma_mod_of_mod(inv * r, m, big);
    lemma_mul_mod_noop_left(t1, p, m);
    lemma_mul_mod_noop_left(inv * r, p, m);
    assert((inv * r) * p == (p * inv) * r) by (nonlinear_arith);
    lemma_mul_mod_noop_left(p * inv, r, m);
    lemma_mul_mod_noop_left(p, inv, m);
    lemma_mul_mod_noop_left(1, r, m);
    assert(1 * r == r);
}

/// One term of the reconstruction vanishes modulo every other modulus.
proof fn lemma_other_term(t1: int, p: int, mj: int, big: int, term: int)
    requires
        mj > 0,
        big > 0,
        big % mj == 0,
        p % mj == 0,
        term == (t1 * p) % big,
    ensures
        term % mj == 0,
{
    lemma_mod_of_mod(t1 * p, mj, big);
    lemma_mul_mod_noop_right(t1, p, mj);
    assert(t1 * 0 == 0);
    lemma_small_mod(0, mj as nat);
}

/// Reconstructs the number below the product of the moduli that leaves
/// the given remainders.
pub fn chinese_remainder_theorem(mods: Vec<u128>, rems: Vec<u128>) -> (r: Result<u128, Error>)
    requires
        mods.len() <= rems.len(),
    ensures
        r matches Ok(k) ==> solves(mods@, rems@, mods.len() as nat, k as nat),
        usable_moduli(mods@) ==> r is Ok,
        r matches Err(e) ==> e == Error::BadModuli,
{
    let n: usize = mods.len();
    let big: u128 = match product_of(&mods) {
        Some(p) => p,
        None => {
            return Err(Error::BadModuli);
        },
    };
    let mut total: u128 = 0;
    let mut i: usize = 0;
    proof {
        assert forall|j: int| 0 <= j < n implies 0nat % (#[trigger] mods[j] as nat) == 0 by {
            lemma_small_mod(0, mods[j] as nat);
        }
    }
    while i < n
        invariant
            n == mods.len(),
            n <= rems.len(),
            i <= n,
            big == product(mods@, n as nat),
            big > 0,
            total < big,
            forall|j: int| 0 <= j < n ==> mods[j] > 0,
            forall|j: int|
                0 <= j < n ==> (total as nat) % (#[trigger] mods[j] as nat) == (if j < i {
                    (rems[j] as nat) % (mods[j] as nat)
                } else {
                    0
                }),
        decreases n - i,
    {
        let modulus: u128 = mods[i];
        let remainder: u128 = rems[i];
        let p: u128 = big / modulus;
        proof {
            lemma_product_split(mods@, n as nat, i as int);
            let pe = product_except(mods@, n as nat, i as int);
            vstd::arithmetic::div_mod::lemma_div_multiples_vanish(pe as int, modulus as int);
            assert((modulus as int) * (pe as int) == (pe as int) * (modulus as int))
                by (nonlinear_arith);
            assert(p == pe);
        }
        let inv: u128 = modular_inverse(p, modulus);
        if mul_mod(p % modulus, inv, modulus) != 1 % modulus {
            proof {
                lemma_mul_mod_noop_left(p as int, inv as int, modulus as int);
                if usable_moduli(mods@) {
                    lemma_coprime_to_others(mods@, n as nat, i as int);
                }
            }
            return Err(Error::BadModuli);
        }
        let t1: u128 = mul_mod(inv, remainder, big);
        let term: u128 = mul_mod(t1, p, big);
        let ghost old_total = total;
        total = add_mod(total, term, big);
        proof {
            assert forall|j: int| 0 <= j < n implies (total as nat) % (#[trigger] mods[j] as nat)
                == (if j < i + 1 {
                (rems[j] as nat) % (mods[j] as nat)
            } else {
                0
            }) by {
                let mj = mods[j] as int;
                lemma_product_split(mods@, n as nat, j);
                lemma_mod_multiples_basic(product_except(mods@, n as nat, j) as int, mj);
                assert((mj) * (product_except(mods@, n as nat, j) as int) == (product_except(
                    mods@,
                    n as nat,
                    j,
                ) as int) * mj) by (nonlinear_arith);
                assert((big as int) % mj == 0);
                lemma_mod_of_mod(old_total + term, mj, big as int);
                lemma_add_mod_noop(old_total as int, term as int, mj);
                if j == i {
                    lemma_own_term(
                        inv as int,
                        remainder as int,
                        p as int,
                        mj,
                        big as int,
                        t1 as int,
                        term as int,
                    );
                    lemma_small_mod(0, mj as nat);
                    vstd::arithmetic::div_mod::lemma_mod_twice(remainder as int, mj);
                } else {
                    lemma_product_except_divides(mods@, n as nat, i as int, j);
                    lemma_other_term(t1 as int, p as int, mj, big as int, term as int);
                    vstd::arithmetic::div_mod::lemma_mod_twice(old_total as int, mj);
                    if j < i {
                        vstd::arithmetic::div_mod::lemma_mod_twice(rems[j] as int, mj);
                    } else {
                        lemma_small_mod(0, mj as nat);
                    }
                }
            }
        }
        i = i + 1;
    }
    Ok(total)
}


/// `s` is the least number whose square is at least `n`.
pub open spec fn is_ceil_sqrt(s: nat, n: nat) -> bool {
    s * s >= n && (s == 0 || (s - 1) * (s - 1) < n)
}

/// The square root of `n`, rounded up.
pub open spec fn spec_ceil_sqrt(n: nat) -> nat {
    choose|s: nat| is_ceil_sqrt(s, n)
}

/// There is one rounded-up square root only.
pub proof fn lemma_ceil_sqrt_unique(s: nat, t: nat, n: nat)
    requires
        is_ceil_sqrt(s, n),
        is_ceil_sqrt(t, n),
    ensures
        s == t,
{
    if s < t {
        assert(s * s <= (t - 1) * (t - 1)) by (nonlinear_arith)
            requires
                s <= t - 1,
        ;
    } else if t < s {
        assert(t * t <= (s - 1) * (s - 1)) by (nonlinear_arith)
            requires
                t <= s - 1,
        ;
    }
}

/// The square root of `n`, rounded up, by bisection.
pub fn ceil_sqrt(n: u128) -> (s: u128)
    ensures
        is_ceil_sqrt(s as nat, n as nat),
        s == spec_ceil_sqrt(n as nat),
        s <= 0x1_0000_0000_0000_0000,
{
    let mut lo: u128 = 0;
    let mut hi: u128 = 0x1_0000_0000_0000_0000;
    assert(0x1_0000_0000_0000_0000int * 0x1_0000_0000_0000_0000int > u128::MAX) by (nonlinear_arith);
    while lo < hi
        invariant
            lo <= hi <= 0x1_0000_0000_0000_0000,
            hi * hi >= n,
            lo == 0 || (lo - 1) * (lo - 1) < n,
        decreases hi - lo,
    {
        let mid: u128 = lo + (hi - lo) / 2;
        assert(mid * mid <= 0xffff_ffff_ffff_ffffint * 0xffff_ffff_ffff_ffffint) by (nonlinear_arith)
            requires
                0 <= mid <= 0xffff_ffff_ffff_ffffint,
        ;
        assert(0xffff_ffff_ffff_ffffint * 0xffff_ffff_ffff_ffffint < u128::MAX) by (nonlinear_arith);
        if mid * mid >= n {
            hi = mid;
        } else {
            lo = mid + 1;
        }
    }
    proof {
        assert(is_ceil_sqrt(lo as nat, n as nat));
        lemma_ceil_sqrt_unique(lo as nat, spec_ceil_sqrt(n as nat), n as nat);
    }
    lo
}

/// `start` times the `i`-th power of `g`, each product reduced modulo
/// `m`.
pub open spec fn walk(start: GF2Vec128, g: GF2Vec128, i: nat, m: GF2Vec128) -> GF2Vec128
    decreases i,
{
    if i == 0 {
        start
    } else {
        walk(start, g, (i - 1) as nat, m).mul_mod(g, m)
    }
}

/// The low register of the `i`-th baby step: the `i`-th power of `g`.
pub open spec fn baby_step(g: GF2Vec128, m: GF2Vec128, i: nat) -> u128 {
    walk(GF2Vec128::spec_one(), g, i, m).state_low
}

/// The low register of the `j`-th giant step: `h` times the `j`-th power
/// of `back`.
pub open spec fn giant_step(h: GF2Vec128, back: GF2Vec128, m: GF2Vec128, j: nat) -> u128 {
    walk(h, back, j, m).state_low
}

/// What the search for a logarithm in a subgroup of order `order`
/// returns: `x` is `j * s + i` for the first giant step `j` that meets a
/// baby step and the first baby step `i` that it meets, with `s` the
/// rounded-up square root of `order`.
pub open spec fn bsgs_result(
    g: GF2Vec128,
    h: GF2Vec128,
    backwards: GF2Vec128,
    m: GF2Vec128,
    order: u128,
    x: nat,
) -> bool {
    let s = spec_ceil_sqrt(order as nat);
    let back = backwards.spec_modpow(s, m);
    exists|j: nat, i: nat|
        {
            &&& j < s
            &&& i < s
            &&& x == j * s + i
            &&& baby_step(g, m, i) == giant_step(h, back, m, j)
            &&& forall|i2: nat| i2 < i ==> #[trigger] baby_step(g, m, i2) != giant_step(h, back, m, j)
            &&& forall|j2: nat, i2: nat|
                j2 < j && i2 < s ==> #[trigger] baby_step(g, m, i2) != #[trigger] giant_step(
                    h,
                    back,
                    m,
                    j2,
                )
        }
}

/// No giant step meets a baby step.
pub open spec fn bsgs_exhausted(
    g: GF2Vec128,
    h: GF2Vec128,
    backwards: GF2Vec128,
    m: GF2Vec128,
    order: u128,
) -> bool {
    let s = spec_ceil_sqrt(order as nat);
    let back = backwards.spec_modpow(s, m);
    forall|j2: nat, i2: nat|
        j2 < s && i2 < s ==> #[trigger] baby_step(g, m, i2) != #[trigger] giant_step(
            h,
            back,
            m,
            j2,
        )
}

/// A walk from a reduced polynomial `u` is `u` times a power of the
/// step.
pub proof fn lemma_walk_is_product(u: GF2Vec128, g: GF2Vec128, i: nat, m: GF2Vec128)
    requires
        m.narrow(),
        u.below(m.bit_len() - 1),
        g.below(128),
    ensures
        walk(u, g, i, m) == u.mul_mod(g.spec_modpow(i, m), m),
    decreases i,
{
    if i == 0 {
        u.lemma_mul_mod_one(m);
    } else {
        let k = (i - 1) as nat;
        lemma_walk_is_product(u, g, k, m);
        g.lemma_modpow_reduced(k, m);
        g.lemma_below_to_len(128);
        g.lemma_modpow_succ(k, m);
        u.lemma_mul_mod_assoc(g.spec_modpow(k, m), g, m);
    }
}

/// Where `back` is the inverse of `g`, the power `j * s` of `g` and the
/// power `j` of the power `s` of `back` cancel.
pub proof fn lemma_powers_cancel(g: GF2Vec128, back: GF2Vec128, s: nat, j: nat, m: GF2Vec128)
    requires
        m.narrow(),
        g.below(128),
        back.below(128),
        g.mul_mod(back, m) == GF2Vec128::spec_one(),
    ensures
        g.spec_modpow(j * s, m).mul_mod(back.spec_modpow(s, m).spec_modpow(j, m), m)
            == GF2Vec128::spec_one(),
    decreases j,
{
    let one = GF2Vec128::spec_one();
    let step = back.spec_modpow(s, m);
    one.lemma_modpow_reduced(0, m);
    if j == 0 {
        assert(j * s == 0) by (nonlinear_arith)
            requires
                j == 0,
        ;
        one.lemma_mul_mod_one(m);
    } else {
        let k = (j - 1) as nat;
        lemma_powers_cancel(g, back, s, k, m);
        assert(j * s == k * s + s) by (nonlinear_arith)
            requires
                j == k + 1,
        ;
        g.lemma_modpow_add(k * s, s, m);
        back.lemma_modpow_reduced(s, m);
        step.lemma_below_to_len(128);
        step.lemma_modpow_succ(k, m);
        g.lemma_modpow_reduced(k * s, m);
        g.lemma_modpow_reduced(s, m);
        step.lemma_modpow_reduced(k, m);
        g.spec_modpow(k * s, m).lemma_mul_mod_shuffle(
            g.spec_modpow(s, m),
            step.spec_modpow(k, m),
            step,
            m,
        );
        g.lemma_modpow_product(back, s, m);
        GF2Vec128::lemma_modpow_of_one(s, m);
        one.lemma_mul_mod_one(m);
    }
}

/// What the search returns is a logarithm: where the modulus is of
/// degree between 1 and 128, the three polynomials are reduced and
/// `backwards` is the inverse of `g`, the power `x` of `g` is `h`.
pub proof fn lemma_bsgs_is_logarithm(
    g: GF2Vec128,
    h: GF2Vec128,
    backwards: GF2Vec128,
    m: GF2Vec128,
    order: u128,
    x: nat,
)
    requires
        m.narrow(),
        g.below(m.bit_len() - 1),
        h.below(m.bit_len() - 1),
        backwards.below(m.bit_len() - 1),
        g.mul_mod(backwards, m) == GF2Vec128::spec_one(),
        bsgs_result(g, h, backwards, m, order, x),
    ensures
        g.spec_modpow(x, m) == h,
{
    let one = GF2Vec128::spec_one();
    let s = spec_ceil_sqrt(order as nat);
    let back = backwards.spec_modpow(s, m);
    let (j, i) = choose|j: nat, i: nat|
        {
            &&& j < s
            &&& i < s
            &&& x == j * s + i
            &&& baby_step(g, m, i) == giant_step(h, back, m, j)
            &&& forall|i2: nat| i2 < i ==> #[trigger] baby_step(g, m, i2) != giant_step(h, back, m, j)
            &&& forall|j2: nat, i2: nat|
                j2 < j && i2 < s ==> #[trigger] baby_step(g, m, i2) != #[trigger] giant_step(
                    h,
                    back,
                    m,
                    j2,
                )
        };
    one.lemma_modpow_reduced(0, m);
    backwards.lemma_modpow_reduced(s, m);
    let baby = walk(one, g, i, m);
    let giant = walk(h, back, j, m);
    lemma_walk_is_product(one, g, i, m);
    lemma_walk_is_product(h, back, j, m);
    let gi = g.spec_modpow(i, m);
    let gjs = g.spec_modpow(j * s, m);
    let bj = back.spec_modpow(j, m);
    g.lemma_modpow_reduced(i, m);
    g.lemma_modpow_reduced(j * s, m);
    back.lemma_modpow_reduced(j, m);
    // the baby step is the power `i` of `g`
    one.lemma_mul_comm(gi);
    gi.lemma_mul_mod_one(m);
    assert(baby == gi);
    // both steps lie in the low register
    h.lemma_mul_mod_small(bj, m);
    baby.lemma_below_high();
    giant.lemma_below_high();
    assert(baby == giant);
    // the power `x` of `g`
    g.lemma_modpow_add(j * s, i, m);
    h.lemma_mul_comm(bj);
    gjs.lemma_mul_mod_assoc(bj, h, m);
    lemma_powers_cancel(g, backwards, s, j, m);
    one.lemma_mul_comm(h);
    h.lemma_mul_mod_one(m);
}

/// The search for the logarithm of 1 does not run out, and finds 0: the
/// first giant step meets the first baby step.
pub proof fn lemma_bsgs_of_one(
    g: GF2Vec128,
    backwards: GF2Vec128,
    m: GF2Vec128,
    order: u128,
    s: nat,
)
    requires
        order >= 1,
        is_ceil_sqrt(s, order as nat),
    ensures
        !bsgs_exhausted(g, GF2Vec128::spec_one(), backwards, m, order),
        forall|x: nat| #[trigger]
            bsgs_result(g, GF2Vec128::spec_one(), backwards, m, order, x) ==> x == 0,
{
    let one = GF2Vec128::spec_one();
    lemma_ceil_sqrt_unique(s, spec_ceil_sqrt(order as nat), order as nat);
    assert(s >= 1) by (nonlinear_arith)
        requires
            s * s >= order,
            order >= 1,
    ;
    let back = backwards.spec_modpow(s, m);
    assert(baby_step(g, m, 0) == 1);
    assert(giant_step(one, back, m, 0) == 1);
}

/// The logarithm of `h_poly` to the base `gamma_poly` in a subgroup of
/// order `order`, by baby steps and giant steps. `backwards_poly` is the
/// inverse of the base.
pub fn baby_step_giant_step(
    gamma_poly: GF2Vec128,
    h_poly: GF2Vec128,
    backwards_poly: GF2Vec128,
    char_poly: GF2Vec128,
    order: u128,
) -> (r: Result<u128, Error>)
    requires
        char_poly != GF2Vec128::spec_zero(),
    ensures
        match r {
            Ok(x) => bsgs_result(gamma_poly, h_poly, backwards_poly, char_poly, order, x as nat),
            Err(e) => e == Error::RemainderNotFound && bsgs_exhausted(
                gamma_poly,
                h_poly,
                backwards_poly,
                char_poly,
                order,
            ),
        },
{
    let step_size: u128 = ceil_sqrt(order);
    let backward_jump_poly = backwards_poly.modpow(step_size, char_poly);
    let mut lookup_table: HashMap<u128, u128> = HashMap::new();
    let mut cur = GF2Vec128 { state_low: 1, state_high: 0 };
    let mut t: u128 = 0;
    while t < step_size
        invariant
            char_poly != GF2Vec128::spec_zero(),
            t <= step_size,
            cur == walk(GF2Vec128::spec_one(), gamma_poly, t as nat, char_poly),
            forall|i: nat|
                i < t ==> lookup_table@.contains_key(
                    #[trigger] baby_step(gamma_poly, char_poly, i),
                ),
            forall|v: u128| #[trigger]
                lookup_table@.contains_key(v) ==> {
                    &&& lookup_table@[v] < t
                    &&& baby_step(gamma_poly, char_poly, lookup_table@[v] as nat) == v
                    &&& forall|i2: nat|
                        i2 < lookup_table@[v] ==> #[trigger] baby_step(gamma_poly, char_poly, i2)
                            != v
                },
        decreases step_size - t,
    {
        let key: u128 = cur.state_low;
        if !lookup_table.contains_key(&key) {
            lookup_table.insert(key, t);
        }
        cur = cur.mul(gamma_poly).modulo(char_poly);
        t = t + 1;
    }
    let mut x = h_poly;
    let mut j: u128 = 0;
    while j < step_size
        invariant
            char_poly != GF2Vec128::spec_zero(),
            j <= step_size,
            step_size <= 0x1_0000_0000_0000_0000,
            step_size == spec_ceil_sqrt(order as nat),
            backward_jump_poly == backwards_poly.spec_modpow(step_size as nat, char_poly),
            x == walk(h_poly, backward_jump_poly, j as nat, char_poly),
            forall|i: nat|
                i < step_size ==> lookup_table@.contains_key(
                    #[trigger] baby_step(gamma_poly, char_poly, i),
                ),
            forall|v: u128| #[trigger]
                lookup_table@.contains_key(v) ==> {
                    &&& lookup_table@[v] < step_size
                    &&& baby_step(gamma_poly, char_poly, lookup_table@[v] as nat) == v
                    &&& forall|i2: nat|
                        i2 < lookup_table@[v] ==> #[trigger] baby_step(gamma_poly, char_poly, i2)
                            != v
                },
            forall|j2: nat, i2: nat|
                j2 < j && i2 < step_size ==> #[trigger] baby_step(gamma_poly, char_poly, i2)
                    != #[trigger] giant_step(h_poly, backward_jump_poly, char_poly, j2),
        decreases step_size - j,
    {
        let key: u128 = x.state_low;
        match lookup_table.get(&key) {
            Some(found) => {
                let i: u128 = *found;
                assert(j * step_size + i <= u128::MAX) by (nonlinear_arith)
                    requires
                        j < step_size,
                        i < step_size,
                        step_size <= 0x1_0000_0000_0000_0000,
                ;
                assert(j * step_size <= u128::MAX) by (nonlinear_arith)
                    requires
                        j < step_size,
                        step_size <= 0x1_0000_0000_0000_0000,
                ;
                assert(lookup_table@.contains_key(key));
                assert(key == giant_step(h_poly, backward_jump_poly, char_poly, j as nat));
                return Ok(j * step_size + i);
            },
            None => {
                assert(!lookup_table@.contains_key(key));
                assert(key == giant_step(h_poly, backward_jump_poly, char_poly, j as nat));
            },
        }
        x = x.mul(backward_jump_poly).modulo(char_poly);
        j = j + 1;
    }
    Err(Error::RemainderNotFound)
}

/// The low register of step `i` of a run of baby steps that starts at
/// the power `base` of `g`.
pub open spec fn chunk_baby_step(g: GF2Vec128, m: GF2Vec128, base: u128, i: nat) -> u128 {
    walk(g.spec_modpow(base as nat, m), g, i, m).state_low
}

/// The low register of step `i` of a run of giant steps that starts at
/// `h` times the power `base` of `back`.
pub open spec fn chunk_giant_step(
    h: GF2Vec128,
    back: GF2Vec128,
    m: GF2Vec128,
    base: u128,
    i: nat,
) -> u128 {
    walk(h.mul_mod(back.spec_modpow(base as nat, m), m), back, i, m).state_low
}

/// A run of `len` baby steps that starts at the power `base` of
/// `gamma_poly`, for a search that is shared out in runs.
pub fn baby_steps_chunk(gamma_poly: GF2Vec128, char_poly: GF2Vec128, base: u128, len: usize) -> (r:
    Vec<u128>)
    requires
        char_poly != GF2Vec128::spec_zero(),
    ensures
        r.len() == len,
        forall|i: int|
            0 <= i < len ==> #[trigger] r[i] == chunk_baby_step(
                gamma_poly,
                char_poly,
                base,
                i as nat,
            ),
{
    let mut out: Vec<u128> = Vec::new();
    let mut cur = gamma_poly.modpow(base, char_poly);
    let mut i: usize = 0;
    while i < len
        invariant
            char_poly != GF2Vec128::spec_zero(),
            i <= len,
            out.len() == i,
            cur == walk(gamma_poly.spec_modpow(base as nat, char_poly), gamma_poly, i as nat, char_poly),
            forall|k: int|
                0 <= k < i ==> #[trigger] out[k] == chunk_baby_step(
                    gamma_poly,
                    char_poly,
                    base,
                    k as nat,
                ),
        decreases len - i,
    {
        out.push(cur.state_low);
        cur = cur.mul(gamma_poly).modulo(char_poly);
        i = i + 1;
    }
    out
}

/// The table that gives, for each number of a list, the place at which
/// it stands first.
pub fn first_positions(values: &Vec<u128>) -> (r: HashMap<u128, u128>)
    ensures
        forall|i: int| 0 <= i < values.len() ==> r@.contains_key(#[trigger] values[i]),
        forall|v: u128| #[trigger]
            r@.contains_key(v) ==> {
                &&& r@[v] < values.len()
                &&& values[r@[v] as int] == v
                &&& forall|k: int| 0 <= k < r@[v] ==> #[trigger] values[k] != v
            },
{
    let mut table: HashMap<u128, u128> = HashMap::new();
    let mut i: usize = 0;
    while i < values.len()
        invariant
            i <= values.len(),
            forall|k: int| 0 <= k < i ==> table@.contains_key(#[trigger] values[k]),
            forall|v: u128| #[trigger]
                table@.contains_key(v) ==> {
                    &&& table@[v] < i
                    &&& values[table@[v] as int] == v
                    &&& forall|k: int| 0 <= k < table@[v] ==> #[trigger] values[k] != v
                },
        decreases values.len() - i,
    {
        let key: u128 = values[i];
        if !table.contains_key(&key) {
            table.insert(key, i as u128);
        }
        i = i + 1;
    }
    table
}

/// A run of `len` giant steps that starts at giant step `base`: the
/// first of them that is found in the table gives the logarithm.
pub fn giant_steps_chunk(
    h_poly: GF2Vec128,
    backward_jump_poly: GF2Vec128,
    char_poly: GF2Vec128,
    lookup_table: &HashMap<u128, u128>,
    base: u128,
    len: usize,
    step_size: u128,
) -> (r: Option<u128>)
    requires
        char_poly != GF2Vec128::spec_zero(),
        base + len <= step_size,
        step_size <= 0x1_0000_0000_0000_0000,
        forall|v: u128| #[trigger] lookup_table@.contains_key(v) ==> lookup_table@[v] < step_size,
    ensures
        match r {
            Some(x) => exists|i: nat|
                {
                    &&& i < len
                    &&& lookup_table@.contains_key(
                        #[trigger] chunk_giant_step(h_poly, backward_jump_poly, char_poly, base, i),
                    )
                    &&& x == (base + i) * step_size + lookup_table@[chunk_giant_step(
                        h_poly,
                        backward_jump_poly,
                        char_poly,
                        base,
                        i,
                    )]
                    &&& forall|k: nat|
                        k < i ==> !lookup_table@.contains_key(
                            #[trigger] chunk_giant_step(
                                h_poly,
                                backward_jump_poly,
                                char_poly,
                                base,
                                k,
                            ),
                        )
                },
            None => forall|k: nat|
                k < len ==> !lookup_table@.contains_key(
                    #[trigger] chunk_giant_step(h_poly, backward_jump_poly, char_poly, base, k),
                ),
        },
{
    let seed = backward_jump_poly.modpow(base, char_poly);
    let mut x = h_poly.mul(seed).modulo(char_poly);
    let mut i: usize = 0;
    while i < len
        invariant
            char_poly != GF2Vec128::spec_zero(),
            i <= len,
            base + len <= step_size,
            step_size <= 0x1_0000_0000_0000_0000,
            forall|v: u128| #[trigger]
                lookup_table@.contains_key(v) ==> lookup_table@[v] < step_size,
            x == walk(
                h_poly.mul_mod(backward_jump_poly.spec_modpow(base as nat, char_poly), char_poly),
                backward_jump_poly,
                i as nat,
                char_poly,
            ),
            forall|k: nat|
                k < i ==> !lookup_table@.contains_key(
                    #[trigger] chunk_giant_step(h_poly, backward_jump_poly, char_poly, base, k),
                ),
        decreases len - i,
    {
        let key: u128 = x.state_low;
        assert(key == chunk_giant_step(h_poly, backward_jump_poly, char_poly, base, i as nat));
        match lookup_table.get(&key) {
            Some(found) => {
                let j: u128 = *found;
                let giant: u128 = base + i as u128;
                assert(lookup_table@.contains_key(key));
                assert(giant * step_size + j <= u128::MAX) by (nonlinear_arith)
                    requires
                        giant < step_size,
                        j < step_size,
                        step_size <= 0x1_0000_0000_0000_0000,
                ;
                assert(giant * step_size <= u128::MAX) by (nonlinear_arith)
                    requires
                        giant < step_size,
                        step_size <= 0x1_0000_0000_0000_0000,
                ;
                return Some(giant * step_size + j);
            },
            None => {
                assert(!lookup_table@.contains_key(key));
            },
        }
        x = x.mul(backward_jump_poly).modulo(char_poly);
        i = i + 1;
    }
    None
}

/// The runs `runs[0..n]` follow one another from 0 on, none is empty and
/// none is longer than `run_length`; `end` is where the last one ends.
pub open spec fn runs_cover(runs: Seq<(u128, usize)>, run_length: usize, end: int) -> bool {
    &&& forall|i: int|
        0 <= i < runs.len() ==> 0 < (#[trigger] runs[i]).1 <= run_length && runs[i].0 + runs[i].1
            <= end
    &&& forall|i: int|
        0 <= i < runs.len() ==> (#[trigger] runs[i]).0 == (if i == 0 {
            0
        } else {
            runs[i - 1].0 + runs[i - 1].1
        })
    &&& (if runs.len() == 0 {
        end == 0
    } else {
        runs[runs.len() - 1].0 + runs[runs.len() - 1].1 == end
    })
}

/// The runs into which the steps `0..step_size` of a search are shared
/// out: start and length of each, every run of `run_length` steps but
/// the last, which holds what is left.
pub fn search_runs(step_size: u128, run_length: usize) -> (r: Vec<(u128, usize)>)
    requires
        run_length > 0,
    ensures
        runs_cover(r@, run_length, step_size as int),
{
    let mut runs: Vec<(u128, usize)> = Vec::new();
    let mut start: u128 = 0;
    while start < step_size
        invariant
            run_length > 0,
            start <= step_size,
            runs_cover(runs@, run_length, start as int),
        decreases step_size - start,
    {
        let left: u128 = step_size - start;
        let len: usize = if left < run_length as u128 {
            left as usize
        } else {
            run_length
        };
        let ghost before = runs@;
        runs.push((start, len));
        proof {
            assert forall|i: int| 0 <= i < runs.len() implies (#[trigger] runs[i]).0 == (if i == 0 {
                0
            } else {
                runs[i - 1].0 + runs[i - 1].1
            }) by {
                if i < before.len() {
                    assert(runs[i] == before[i]);
                }
            }
            assert forall|i: int| 0 <= i < runs.len() implies 0 < (#[trigger] runs[i]).1
                <= run_length && runs[i].0 + runs[i].1 <= start + len by {
                if i < before.len() {
                    assert(runs[i] == before[i]);
                }
            }
        }
        start = start + len as u128;
    }
    runs
}

/// Copies a list of numbers.
fn copy_words(v: &Vec<u128>) -> (r: Vec<u128>)
    ensures
        r@ == v@,
{
    let mut out: Vec<u128> = Vec::new();
    let mut j: usize = 0;
    while j < v.len()
        invariant
            j <= v.len(),
            out@ == v@.subrange(0, j as int),
        decreases v.len() - j,
    {
        out.push(v[j]);
        assert(out@ =~= v@.subrange(0, j + 1));
        j = j + 1;
    }
    assert(v@.subrange(0, v.len() as int) =~= v@);
    out
}

/// The product of the first `n` moduli depends on those alone.
pub proof fn lemma_product_agree(a: Seq<u128>, b: Seq<u128>, n: nat)
    requires
        forall|i: int| 0 <= i < n ==> a[i] == b[i],
    ensures
        product(a, n) == product(b, n),
    decreases n,
{
    if n > 0 {
        lemma_product_agree(a, b, (n - 1) as nat);
    }
}

/// What `pohlig_hellman` returns after the first `n` primes: `k` is
/// below their product, and modulo each of them it is the logarithm
/// `rems[i]` that the search in the subgroup of that order gave.
pub open spec fn pohlig_outcome(
    advance_poly: GF2Vec128,
    backwards_poly: GF2Vec128,
    jump_poly: GF2Vec128,
    char_poly: GF2Vec128,
    order: u128,
    primes: Seq<u128>,
    rems: Seq<u128>,
    n: nat,
    k: nat,
) -> bool {
    &&& n <= primes.len()
    &&& rems.len() == n
    &&& solves(primes, rems, n, k)
    &&& forall|i: int|
        0 <= i < n ==> primes[i] > 0 && bsgs_result(
            advance_poly.spec_modpow((order / primes[i]) as nat, char_poly),
            jump_poly.spec_modpow((order / primes[i]) as nat, char_poly),
            backwards_poly.spec_modpow((order / primes[i]) as nat, char_poly),
            char_poly,
            primes[i],
            #[trigger] rems[i] as nat,
        )
}

/// Each residue that `pohlig_hellman` puts together is a logarithm in
/// its subgroup: where the modulus is of degree between 1 and 128, the
/// polynomials are of degree below 128 and `backwards_poly` is the
/// inverse of `advance_poly`, the power `rems[i]` of
/// `advance_poly^(order / primes[i])` is `jump_poly^(order / primes[i])`.
pub proof fn lemma_pohlig_residues(
    advance_poly: GF2Vec128,
    backwards_poly: GF2Vec128,
    jump_poly: GF2Vec128,
    char_poly: GF2Vec128,
    order: u128,
    primes: Seq<u128>,
    rems: Seq<u128>,
    n: nat,
    k: nat,
    i: int,
)
    requires
        char_poly.narrow(),
        advance_poly.below(128),
        backwards_poly.below(128),
        advance_poly.mul_mod(backwards_poly, char_poly) == GF2Vec128::spec_one(),
        pohlig_outcome(
            advance_poly,
            backwards_poly,
            jump_poly,
            char_poly,
            order,
            primes,
            rems,
            n,
            k,
        ),
        0 <= i < n,
    ensures
        advance_poly.spec_modpow((order / primes[i]) as nat, char_poly).spec_modpow(
            rems[i] as nat,
            char_poly,
        ) == jump_poly.spec_modpow((order / primes[i]) as nat, char_poly),
{
    let e = (order / primes[i]) as nat;
    let g = advance_poly.spec_modpow(e, char_poly);
    let h = jump_poly.spec_modpow(e, char_poly);
    let b = backwards_poly.spec_modpow(e, char_poly);
    advance_poly.lemma_modpow_reduced(e, char_poly);
    jump_poly.lemma_modpow_reduced(e, char_poly);
    backwards_poly.lemma_modpow_reduced(e, char_poly);
    advance_poly.lemma_modpow_product(backwards_poly, e, char_poly);
    GF2Vec128::lemma_modpow_of_one(e, char_poly);
    assert(bsgs_result(g, h, b, char_poly, primes[i], rems[i] as nat));
    lemma_bsgs_is_logarithm(g, h, b, char_poly, primes[i], rems[i] as nat);
}

/// The power `k` of `z` modulo `char_poly` has the low register of
/// `jump_poly`: the test by which `pohlig_hellman` accepts a number.
pub open spec fn reproduces(k: nat, jump_poly: GF2Vec128, char_poly: GF2Vec128) -> bool {
    GF2Vec128::spec_z().spec_modpow(k, char_poly).state_low == jump_poly.state_low
}

/// The numbers that `pohlig_hellman` tries, one after each prime:
/// `cands[t]` leaves the first `t + 1` residues, all but the last fail
/// the test, `k` is the last, and unless all primes were used `k` passes
/// the test. So `n` is the first number of primes at which the test
/// passes, or the number of all primes.
pub open spec fn pohlig_trace(
    jump_poly: GF2Vec128,
    char_poly: GF2Vec128,
    primes: Seq<u128>,
    rems: Seq<u128>,
    cands: Seq<u128>,
    n: nat,
    k: nat,
) -> bool {
    &&& cands.len() == n
    &&& forall|t: int|
        0 <= t < n ==> solves(primes, rems, (t + 1) as nat, #[trigger] cands[t] as nat)
    &&& forall|t: int|
        0 <= t < n - 1 ==> !reproduces(#[trigger] cands[t] as nat, jump_poly, char_poly)
    &&& (n > 0 ==> cands[n - 1] == k)
    &&& (n < primes.len() ==> reproduces(k, jump_poly, char_poly))
}

/// What `pohlig_hellman` returns: for some residues and some number `n`
/// of primes, `k` is put together from the logarithms in the first `n`
/// subgroups, and `n` is where the search stops.
pub open spec fn pohlig_returns(
    advance_poly: GF2Vec128,
    backwards_poly: GF2Vec128,
    jump_poly: GF2Vec128,
    char_poly: GF2Vec128,
    order: u128,
    primes: Seq<u128>,
    k: nat,
) -> bool {
    exists|rems: Seq<u128>, cands: Seq<u128>, n: nat|
        #![trigger pohlig_trace(jump_poly, char_poly, primes, rems, cands, n, k)]
        pohlig_outcome(
            advance_poly,
            backwards_poly,
            jump_poly,
            char_poly,
            order,
            primes,
            rems,
            n,
            k,
        ) && pohlig_trace(jump_poly, char_poly, primes, rems, cands, n, k)
}

/// A number that leaves the first `n` residues of one list leaves those
/// of a list that agrees with it there.
pub proof fn lemma_solves_agree(mods: Seq<u128>, r1: Seq<u128>, r2: Seq<u128>, n: nat, k: nat)
    requires
        forall|j: int| 0 <= j < n ==> r1[j] == r2[j],
        solves(mods, r1, n, k),
    ensures
        solves(mods, r2, n, k),
{
    assert forall|j: int| 0 <= j < n implies k % (#[trigger] mods[j] as nat) == (r2[j] as nat) % (
    mods[j] as nat) by {
        assert(r1[j] == r2[j]);
    }
}

/// The search in the subgroup of each prime order finds a logarithm:
/// none of them runs out of giant steps.
pub open spec fn every_search_succeeds(
    advance_poly: GF2Vec128,
    backwards_poly: GF2Vec128,
    jump_poly: GF2Vec128,
    char_poly: GF2Vec128,
    order: u128,
    primes: Seq<u128>,
) -> bool {
    forall|i: int|
        0 <= i < primes.len() && primes[i] > 0 ==> !bsgs_exhausted(
            advance_poly.spec_modpow((order / #[trigger] primes[i]) as nat, char_poly),
            jump_poly.spec_modpow((order / primes[i]) as nat, char_poly),
            backwards_poly.spec_modpow((order / primes[i]) as nat, char_poly),
            char_poly,
            primes[i],
        )
}

/// The first moduli of a usable list are a usable list.
pub proof fn lemma_usable_prefix(mods: Seq<u128>, n: int)
    requires
        usable_moduli(mods),
        0 <= n <= mods.len(),
    ensures
        usable_moduli(mods.subrange(0, n)),
{
    let head = mods.subrange(0, n);
    lemma_product_agree(head, mods, n as nat);
    lemma_product_grows(mods, n as nat, mods.len());
    assert forall|i: int, j: int| 0 <= i < head.len() && 0 <= j < head.len() && i != j implies gcd(
        #[trigger] head[j] as nat,
        #[trigger] head[i] as nat,
    ) == 1 by {
        assert(gcd(mods[j] as nat, mods[i] as nat) == 1);
    }
}

/// The logarithm of `jump_poly` to the base `advance_poly` modulo
/// `char_poly`, in a group whose order `order` is the product of
/// `primes`. The search stops after the first primes whose residues
/// already give a number `k` with `z^k` equal to `jump_poly`.
pub fn pohlig_hellman(
    advance_poly: GF2Vec128,
    backwards_poly: GF2Vec128,
    jump_poly: GF2Vec128,
    char_poly: GF2Vec128,
    order: u128,
    primes: Vec<u128>,
) -> (r: Result<u128, Error>)
    requires
        char_poly != GF2Vec128::spec_zero(),
    ensures
        r matches Ok(k) ==> pohlig_returns(
            advance_poly,
            backwards_poly,
            jump_poly,
            char_poly,
            order,
            primes@,
            k as nat,
        ),
        usable_moduli(primes@) ==> r != Err::<u128, Error>(Error::BadModuli),
        r matches Err(e) ==> e == Error::RemainderNotFound || e == Error::BadModuli,
        primes.len() == 0 ==> r == Ok::<u128, Error>(0),
        usable_moduli(primes@) && every_search_succeeds(
            advance_poly,
            backwards_poly,
            jump_poly,
            char_poly,
            order,
            primes@,
        ) ==> r is Ok,
{
    let mut remainders: Vec<u128> = Vec::new();
    let mut mods: Vec<u128> = Vec::new();
    let mut idx: usize = 0;
    let ghost mut cands: Seq<u128> = Seq::empty();
    while idx < primes.len()
        invariant
            char_poly != GF2Vec128::spec_zero(),
            idx <= primes.len(),
            idx == 0 || idx < primes.len(),
            cands.len() == idx,
            forall|t: int|
                0 <= t < idx ==> solves(
                    primes@,
                    remainders@,
                    (t + 1) as nat,
                    #[trigger] cands[t] as nat,
                ),
            forall|t: int|
                0 <= t < idx ==> !reproduces(#[trigger] cands[t] as nat, jump_poly, char_poly),
            mods@ == primes@.subrange(0, idx as int),
            remainders.len() == idx,
            forall|i: int|
                0 <= i < idx ==> primes[i] > 0 && bsgs_result(
                    advance_poly.spec_modpow((order / primes[i]) as nat, char_poly),
                    jump_poly.spec_modpow((order / primes[i]) as nat, char_poly),
                    backwards_poly.spec_modpow((order / primes[i]) as nat, char_poly),
                    char_poly,
                    primes[i],
                    #[trigger] remainders[i] as nat,
                ),
        decreases primes.len() - idx,
    {
        let prime: u128 = primes[idx];
        if prime == 0 {
            return Err(Error::BadModuli);
        }
        let exp: u128 = order / prime;
        let g_i = advance_poly.modpow(exp, char_poly);
        let h_i = jump_poly.modpow(exp, char_poly);
        let b_i = backwards_poly.modpow(exp, char_poly);
        let digit: u128 = match baby_step_giant_step(g_i, h_i, b_i, char_poly, prime) {
            Ok(d) => d,
            Err(e) => {
                return Err(e);
            },
        };
        let ghost old_rems = remainders@;
        remainders.push(digit);
        mods.push(prime);
        proof {
            assert forall|t: int| 0 <= t < idx implies solves(
                primes@,
                remainders@,
                (t + 1) as nat,
                #[trigger] cands[t] as nat,
            ) by {
                lemma_solves_agree(
                    primes@,
                    old_rems,
                    remainders@,
                    (t + 1) as nat,
                    cands[t] as nat,
                );
            }
        }
        assert(mods@ =~= primes@.subrange(0, idx + 1));
        let jmp: u128 = match chinese_remainder_theorem(
            copy_words(&mods),
            copy_words(&remainders),
        ) {
            Ok(k) => k,
            Err(e) => {
                proof {
                    if usable_moduli(primes@) {
                        lemma_usable_prefix(primes@, idx + 1);
                    }
                }
                return Err(e);
            },
        };
        proof {
            lemma_product_agree(mods@, primes@, (idx + 1) as nat);
            assert(solves(primes@, remainders@, (idx + 1) as nat, jmp as nat)) by {
                assert forall|j: int| 0 <= j < idx + 1 implies (jmp as nat) % (
                #[trigger] primes@[j] as nat) == (remainders@[j] as nat) % (primes@[j] as nat) by {
                    assert(mods@[j] == primes@[j]);
                }
            }
            assert(pohlig_outcome(
                advance_poly,
                backwards_poly,
                jump_poly,
                char_poly,
                order,
                primes@,
                remainders@,
                (idx + 1) as nat,
                jmp as nat,
            ));
        }
        let test_jump = compute_jump_poly(jmp, char_poly);
        proof {
            cands = cands.push(jmp);
        }
        if test_jump.state_low == jump_poly.state_low {
            proof {
                assert(pohlig_trace(
                    jump_poly,
                    char_poly,
                    primes@,
                    remainders@,
                    cands,
                    (idx + 1) as nat,
                    jmp as nat,
                ));
            }
            return Ok(jmp);
        }
        if idx + 1 == primes.len() {
            proof {
                assert(pohlig_trace(
                    jump_poly,
                    char_poly,
                    primes@,
                    remainders@,
                    cands,
                    (idx + 1) as nat,
                    jmp as nat,
                ));
            }
            return Ok(jmp);
        }
        idx = idx + 1;
    }
    let k: u128 = match chinese_remainder_theorem(copy_words(&mods), copy_words(&remainders)) {
        Ok(k) => k,
        Err(e) => {
            proof {
                assert(mods@ =~= primes@);
            }
            return Err(e);
        },
    };
    proof {
        assert(primes.len() == 0);
        assert(pohlig_outcome(
            advance_poly,
            backwards_poly,
            jump_poly,
            char_poly,
            order,
            primes@,
            remainders@,
            0,
            k as nat,
        ));
        assert(pohlig_trace(jump_poly, char_poly, primes@, remainders@, cands, 0, k as nat));
    }
    Ok(k)
}

} // verus!
