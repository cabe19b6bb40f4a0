//! Polynomials over GF(2) of degree at most 255, held in two 128-bit
//! registers.

use crate::gf2int::GF2Int;
use vstd::prelude::*;

verus! {

/// Bit `i` of a 128-bit register; `false` beyond the register.
pub open spec fn bit_at(x: u128, i: nat) -> bool {
    i < 128 && (x >> (i as u128)) & 1 == 1
}

/// The number of bits needed to write `x`: zero for zero, otherwise one
/// more than the index of the highest set bit.
pub open spec fn len128(x: u128) -> nat
    decreases x,
{
    if x == 0 {
        0
    } else {
        1 + len128(x / 2)
    }
}

/// A bit of an exclusive or is the exclusive or of the bits.
pub proof fn lemma_bit_xor(a: u128, b: u128, i: nat)
    ensures
        bit_at(a ^ b, i) == (bit_at(a, i) != bit_at(b, i)),
{
    if i < 128 {
        let j = i as u128;
        assert((((a ^ b) >> j) & 1 == 1) == (((a >> j) & 1 == 1) != ((b >> j) & 1 == 1)))
            by (bit_vector);
    }
}

/// A bit of a disjunction is the disjunction of the bits.
pub proof fn lemma_bit_or(a: u128, b: u128, i: nat)
    ensures
        bit_at(a | b, i) == (bit_at(a, i) || bit_at(b, i)),
{
    if i < 128 {
        let j = i as u128;
        assert((((a | b) >> j) & 1 == 1) == (((a >> j) & 1 == 1) || ((b >> j) & 1 == 1)))
            by (bit_vector);
    }
}

/// A shift up by `r` places moves bit `i - r` to bit `i`.
pub proof fn lemma_bit_shl(x: u128, r: nat, i: nat)
    requires
        r < 128,
    ensures
        bit_at(x << (r as u128), i) == (r <= i && i < 128 && bit_at(x, (i - r) as nat)),
{
    if i < 128 {
        let j = i as u128;
        let s = r as u128;
        if r <= i {
            let d = (i - r) as u128;
            assert((((x << s) >> j) & 1 == 1) == ((x >> d) & 1 == 1)) by (bit_vector)
                requires
                    s < 128,
                    j < 128,
                    s <= j,
                    d == j - s,
            ;
        } else {
            assert(((x << s) >> j) & 1 == 0) by (bit_vector)
                requires
                    s < 128,
                    j < s,
            ;
        }
    }
}

/// A shift down by `r` places moves bit `i + r` to bit `i`.
pub proof fn lemma_bit_shr(x: u128, r: nat, i: nat)
    requires
        r < 128,
    ensures
        bit_at(x >> (r as u128), i) == bit_at(x, i + r),
{
    if i < 128 {
        let j = i as u128;
        let s = r as u128;
        if i + r < 128 {
            let d = (i + r) as u128;
            assert((((x >> s) >> j) & 1 == 1) == ((x >> d) & 1 == 1)) by (bit_vector)
                requires
                    s < 128,
                    j < 128,
                    d < 128,
                    d == j + s,
            ;
        } else {
            assert(((x >> s) >> j) & 1 == 0) by (bit_vector)
                requires
                    s < 128,
                    j < 128,
                    j + s >= 128,
            ;
        }
    }
}

/// Halving a register moves every bit down by one place.
pub proof fn lemma_bit_half(x: u128, i: nat)
    ensures
        bit_at(x / 2, i) == bit_at(x, i + 1),
        bit_at(x, 0) == (x % 2 == 1),
{
    assert(x / 2 == x >> 1u128) by (bit_vector);
    lemma_bit_shr(x, 1, i);
    assert(((x >> 0u128) & 1 == 1) == (x % 2 == 1)) by (bit_vector);
}

/// The highest set bit of `x` sits just below `len128(x)`.
pub proof fn lemma_len128(x: u128)
    ensures
        len128(x) <= 128,
        x != 0 ==> len128(x) >= 1 && bit_at(x, (len128(x) - 1) as nat),
        forall|i: nat| i >= len128(x) ==> !bit_at(x, i),
    decreases x,
{
    if x == 0 {
        assert forall|i: nat| !bit_at(x, i) by {
            if i < 128 {
                let j = i as u128;
                assert((0u128 >> j) & 1 == 0) by (bit_vector);
            }
        }
    } else {
        lemma_len128(x / 2);
        let n = len128(x);
        if x / 2 == 0 {
            assert(x == 1) by (bit_vector)
                requires
                    x != 0,
                    x / 2 == 0,
            ;
            lemma_bit_half(x, 0);
        } else {
            lemma_bit_half(x, (len128(x / 2) - 1) as nat);
        }
        assert forall|i: nat| i >= n implies !bit_at(x, i) by {
            lemma_bit_half(x, (i - 1) as nat);
        }
        assert(len128(x) <= 128) by {
            if len128(x / 2) == 128 {
                lemma_bit_half(x, 127);
            }
        }
    }
}

/// Two registers with the same bits are the same register.
pub proof fn lemma_bits_equal(a: u128, b: u128)
    requires
        forall|i: nat| i < 128 ==> bit_at(a, i) == bit_at(b, i),
    ensures
        a == b,
    decreases a + b,
{
    if a != 0 || b != 0 {
        let ha = a / 2;
        let hb = b / 2;
        assert forall|i: nat| i < 128 implies bit_at(ha, i) == bit_at(hb, i) by {
            lemma_bit_half(a, i);
            lemma_bit_half(b, i);
            if i + 1 >= 128 {
                assert(!bit_at(a, i + 1));
                assert(!bit_at(b, i + 1));
            }
        }
        lemma_bits_equal(ha, hb);
        lemma_bit_half(a, 0);
        lemma_bit_half(b, 0);
    }
}

/// A polynomial over GF(2): bit `i` of `state_low` is the coefficient of
/// `z^i`, bit `i` of `state_high` that of `z^(128 + i)`.
#[derive(Debug, Clone, Copy, PartialEq, Eq, Structural)]
pub struct GF2Vec128 {
    pub state_low: u128,
    pub state_high: u128,
}

impl GF2Vec128 {
    /// The coefficient of `z^i`.
    pub open spec fn coeff(self, i: nat) -> bool {
        if i < 128 {
            bit_at(self.state_low, i)
        } else {
            bit_at(self.state_high, (i - 128) as nat)
        }
    }

    /// The polynomial 0.
    pub open spec fn spec_zero() -> GF2Vec128 {
        GF2Vec128 { state_low: 0, state_high: 0 }
    }

    /// The polynomial 1.
    pub open spec fn spec_one() -> GF2Vec128 {
        GF2Vec128 { state_low: 1, state_high: 0 }
    }

    /// The polynomial z.
    pub open spec fn spec_z() -> GF2Vec128 {
        GF2Vec128 { state_low: 2, state_high: 0 }
    }

    /// One more than the degree; zero for the zero polynomial.
    pub open spec fn bit_len(self) -> nat {
        if self.state_high != 0 {
            128 + len128(self.state_high)
        } else {
            len128(self.state_low)
        }
    }

    /// The sum of two polynomials.
    pub open spec fn spec_xor(self, rhs: GF2Vec128) -> GF2Vec128 {
        GF2Vec128 {
            state_low: self.state_low ^ rhs.state_low,
            state_high: self.state_high ^ rhs.state_high,
        }
    }

    /// The polynomial times `z^n`, cut off above `z^255`.
    pub open spec fn spec_shl(self, n: nat) -> GF2Vec128 {
        if n == 0 {
            self
        } else if n >= 256 {
            Self::spec_zero()
        } else if n >= 128 {
            GF2Vec128 { state_low: 0, state_high: self.state_low << ((n - 128) as u128) }
        } else {
            GF2Vec128 {
                state_low: self.state_low << (n as u128),
                state_high: (self.state_high << (n as u128)) | (self.state_low >> ((128
                    - n) as u128)),
            }
        }
    }

    /// The polynomial divided by `z^n`, the remainder dropped.
    pub open spec fn spec_shr(self, n: nat) -> GF2Vec128 {
        if n == 0 {
            self
        } else if n >= 256 {
            Self::spec_zero()
        } else if n >= 128 {
            GF2Vec128 { state_low: self.state_high >> ((n - 128) as u128), state_high: 0 }
        } else {
            GF2Vec128 {
                state_low: (self.state_low >> (n as u128)) | (self.state_high << ((128
                    - n) as u128)),
                state_high: self.state_high >> (n as u128),
            }
        }
    }

    /// The sum of `self * z^j` over the `j < n` at which `rhs` has a
    /// coefficient, cut off above `z^255`.
    pub open spec fn mul_partial(self, rhs: GF2Vec128, n: nat) -> GF2Vec128
        decreases n,
    {
        if n == 0 {
            Self::spec_zero()
        } else {
            let p = self.mul_partial(rhs, (n - 1) as nat);
            if rhs.coeff((n - 1) as nat) {
                p.spec_xor(self.spec_shl((n - 1) as nat))
            } else {
                p
            }
        }
    }

    /// The product of two polynomials, cut off above `z^255`.
    pub open spec fn spec_mul(self, rhs: GF2Vec128) -> GF2Vec128 {
        self.mul_partial(rhs, 256)
    }

    /// Long division from the coefficient of `z^(t - 1)` downwards: each
    /// coefficient at or above the degree of `m` is cleared by adding the
    /// multiple of `m` whose leading term sits there.
    pub open spec fn reduce_from(self, m: GF2Vec128, t: nat) -> GF2Vec128
        decreases t,
    {
        if t == 0 || t < m.bit_len() {
            self
        } else if self.coeff((t - 1) as nat) {
            self.spec_xor(m.spec_shl((t - m.bit_len()) as nat)).reduce_from(m, (t - 1) as nat)
        } else {
            self.reduce_from(m, (t - 1) as nat)
        }
    }

    /// The remainder of the division by a polynomial `m` other than zero.
    pub open spec fn spec_mod(self, m: GF2Vec128) -> GF2Vec128 {
        self.reduce_from(m, 256)
    }

    /// The product of two polynomials, reduced modulo `m`.
    pub open spec fn mul_mod(self, rhs: GF2Vec128, m: GF2Vec128) -> GF2Vec128 {
        self.spec_mul(rhs).spec_mod(m)
    }

    /// Square-and-multiply from the low bit of the exponent upwards:
    /// `acc` times the `e`-th power of `self`, every product reduced
    /// modulo `m`.
    pub open spec fn pow_acc(self, acc: GF2Vec128, e: nat, m: GF2Vec128) -> GF2Vec128
        decreases e,
    {
        if e == 0 {
            acc
        } else {
            let next = if e % 2 == 1 {
                acc.mul_mod(self, m)
            } else {
                acc
            };
            self.mul_mod(self, m).pow_acc(next, e / 2, m)
        }
    }

    /// The `e`-th power of the polynomial modulo `m`.
    pub open spec fn spec_modpow(self, e: nat, m: GF2Vec128) -> GF2Vec128 {
        self.pow_acc(Self::spec_one(), e, m)
    }

    /// Two polynomials with the same coefficients are the same value.
    pub proof fn lemma_equal(self, other: GF2Vec128)
        requires
            forall|i: nat| i < 256 ==> self.coeff(i) == other.coeff(i),
        ensures
            self == other,
    {
        assert forall|i: nat| i < 128 implies bit_at(self.state_low, i) == bit_at(
            other.state_low,
            i,
        ) by {
            assert(self.coeff(i) == other.coeff(i));
        }
        assert forall|i: nat| i < 128 implies bit_at(self.state_high, i) == bit_at(
            other.state_high,
            i,
        ) by {
            assert(self.coeff(i + 128) == other.coeff(i + 128));
        }
        lemma_bits_equal(self.state_low, other.state_low);
        lemma_bits_equal(self.state_high, other.state_high);
    }

    /// The leading coefficient sits just below `bit_len`, and only the
    /// zero polynomial has length zero.
    pub proof fn lemma_bit_len(self)
        ensures
            self.bit_len() <= 256,
            (self.bit_len() == 0) == (self == Self::spec_zero()),
            self.bit_len() > 0 ==> self.coeff((self.bit_len() - 1) as nat),
            forall|i: nat| i >= self.bit_len() ==> !self.coeff(i),
    {
        lemma_len128(self.state_low);
        lemma_len128(self.state_high);
    }

    /// The coefficients of a sum are the sums of the coefficients.
    pub proof fn lemma_xor_coeff(self, rhs: GF2Vec128, i: nat)
        ensures
            self.spec_xor(rhs).coeff(i) == (self.coeff(i) != rhs.coeff(i)),
    {
        if i < 128 {
            lemma_bit_xor(self.state_low, rhs.state_low, i);
        } else {
            lemma_bit_xor(self.state_high, rhs.state_high, (i - 128) as nat);
        }
    }

    /// The coefficients of a polynomial shifted up by `n` places.
    pub proof fn lemma_shl_coeff(self, n: nat, i: nat)
        ensures
            self.spec_shl(n).coeff(i) == (n <= i && i < 256 && self.coeff((i - n) as nat)),
    {
        lemma_len128(0);
        if n == 0 {
        } else if n >= 256 {
        } else if n >= 128 {
            if i >= 128 {
                lemma_bit_shl(self.state_low, (n - 128) as nat, (i - 128) as nat);
            }
        } else {
            if i < 128 {
                lemma_bit_shl(self.state_low, n, i);
            } else {
                let j = (i - 128) as nat;
                lemma_bit_or(
                    self.state_high << (n as u128),
                    self.state_low >> ((128 - n) as u128),
                    j,
                );
                lemma_bit_shl(self.state_high, n, j);
                lemma_bit_shr(self.state_low, (128 - n) as nat, j);
            }
        }
    }

    /// The coefficients of a polynomial shifted down by `n` places.
    pub proof fn lemma_shr_coeff(self, n: nat, i: nat)
        ensures
            self.spec_shr(n).coeff(i) == (i + n < 256 && self.coeff(i + n)),
    {
        lemma_len128(0);
        if n == 0 {
        } else if n >= 256 {
        } else if n >= 128 {
            if i < 128 {
                lemma_bit_shr(self.state_high, (n - 128) as nat, i);
            }
        } else {
            if i < 128 {
                lemma_bit_or(
                    self.state_low >> (n as u128),
                    self.state_high << ((128 - n) as u128),
                    i,
                );
                lemma_bit_shr(self.state_low, n, i);
                lemma_bit_shl(self.state_high, (128 - n) as nat, i);
            } else {
                lemma_bit_shr(self.state_high, n, (i - 128) as nat);
            }
        }
    }
}


/// The single bit `1 << k` holds exactly bit `k`.
pub proof fn lemma_bit_single(k: nat, i: nat)
    requires
        k < 128,
    ensures
        bit_at(1u128 << (k as u128), i) == (i == k),
{
    lemma_bit_shl(1u128, k, i);
    if k <= i && i < 128 {
        let d = (i - k) as u128;
        assert(((1u128 >> d) & 1 == 1) == (d == 0)) by (bit_vector)
            requires
                d < 128,
        ;
    }
}

/// The bit length of a register other than zero.
fn len128_exec(x: u128) -> (r: u32)
    ensures
        r == len128(x),
        r <= 128,
{
    let mut state: u128 = x;
    let mut count: u32 = 0;
    proof {
        lemma_len128(x);
    }
    while state != 0
        invariant
            count + len128(state) == len128(x),
            len128(x) <= 128,
        decreases state,
    {
        assert(state >> 1u128 == state / 2) by (bit_vector);
        state = state >> 1u128;
        count = count + 1;
    }
    count
}

impl GF2Vec128 {
    /// Packs a coefficient list, lowest degree first. Entries from the
    /// 257th on are ignored.
    pub fn new(vec: Vec<GF2Int>) -> (r: GF2Vec128)
        ensures
            forall|i: nat|
                #![trigger r.coeff(i)]
                r.coeff(i) == (i < 256 && i < vec.len() && vec[i as int].val % 2 == 1),
    {
        let mut r = GF2Vec128 { state_low: 0, state_high: 0 };
        let n: usize = if vec.len() < 256 {
            vec.len()
        } else {
            256
        };
        let mut i: usize = 0;
        proof {
            Self::spec_zero().lemma_bit_len();
        }
        while i < n
            invariant
                i <= n,
                n <= 256,
                n <= vec.len(),
                forall|j: nat|
                    #![trigger r.coeff(j)]
                    r.coeff(j) == (j < i && vec[j as int].val % 2 == 1),
            decreases n - i,
        {
            let v: u8 = vec[i].val;
            if v % 2 == 1 {
                let ghost prev = r;
                let k: u32 = i as u32;
                let one_bit = GF2Vec128 { state_low: 1, state_high: 0 }.shl(k);
                r = r.bitxor(one_bit);
                proof {
                    assert forall|j: nat| #![trigger r.coeff(j)] r.coeff(j) == (j < i + 1 && vec[j as int].val % 2 == 1) by {
                        prev.lemma_xor_coeff(one_bit, j);
                        Self::lemma_one_coeff((j - i) as nat);
                        assert(prev.coeff(j) == (j < i && vec[j as int].val % 2 == 1));
                    }
                }
            }
            i = i + 1;
        }
        r
    }

    /// The polynomial 1 has the constant coefficient and no other.
    pub proof fn lemma_one_coeff(i: nat)
        ensures
            Self::spec_one().coeff(i) == (i == 0),
    {
        lemma_len128(0);
        lemma_bit_single(0, i);
        assert(1u128 << 0u128 == 1u128) by (bit_vector);
    }

    /// Tells whether the coefficient of `z^i` is set.
    pub fn bit(self, i: u32) -> (r: bool)
        ensures
            r == self.coeff(i as nat),
    {
        if i < 128 {
            (self.state_low >> (i as u128)) & 1 == 1
        } else if i < 256 {
            (self.state_high >> ((i - 128) as u128)) & 1 == 1
        } else {
            false
        }
    }

    /// One more than the index of the highest coefficient.
    pub fn last_bit_pos(self) -> (r: u32)
        requires
            self != Self::spec_zero(),
        ensures
            r == self.bit_len(),
            1 <= r <= 256,
            self.coeff((r - 1) as nat),
            forall|i: nat| i >= r ==> !self.coeff(i),
    {
        proof {
            self.lemma_bit_len();
        }
        if self.state_high != 0 {
            128 + len128_exec(self.state_high)
        } else {
            len128_exec(self.state_low)
        }
    }

    /// Tells whether the polynomial is 0.
    pub fn is_zero(self) -> (r: bool)
        ensures
            r == (self == Self::spec_zero()),
            r == (forall|i: nat| !self.coeff(i)),
    {
        proof {
            self.lemma_bit_len();
        }
        (self.state_high == 0) && (self.state_low == 0)
    }

    /// Tells whether the polynomial is 1.
    pub fn is_one(self) -> (r: bool)
        ensures
            r == (self == Self::spec_one()),
    {
        (self.state_high == 0) && (self.state_low == 1)
    }

    /// Adds two polynomials: the registers are combined by exclusive or.
    pub fn bitxor(self, rhs: GF2Vec128) -> (r: GF2Vec128)
        ensures
            r == self.spec_xor(rhs),
            forall|i: nat| #[trigger] r.coeff(i) == (self.coeff(i) != rhs.coeff(i)),
    {
        proof {
            assert forall|i: nat| #[trigger]
                self.spec_xor(rhs).coeff(i) == (self.coeff(i) != rhs.coeff(i)) by {
                self.lemma_xor_coeff(rhs, i);
            }
        }
        GF2Vec128 {
            state_low: self.state_low ^ rhs.state_low,
            state_high: self.state_high ^ rhs.state_high,
        }
    }

    /// Moves every coefficient down by `rhs` places; zeros come in at the
    /// top.
    pub fn shr(self, rhs: u32) -> (r: GF2Vec128)
        ensures
            r == self.spec_shr(rhs as nat),
            forall|i: nat| #[trigger] r.coeff(i) == (i + rhs < 256 && self.coeff(i + rhs as nat)),
    {
        proof {
            assert forall|i: nat| #[trigger]
                self.spec_shr(rhs as nat).coeff(i) == (i + rhs < 256 && self.coeff(i + rhs as nat)) by {
                self.lemma_shr_coeff(rhs as nat, i);
            }
        }
        if rhs == 0 {
            return self;
        }
        if rhs >= 256 {
            return GF2Vec128 { state_low: 0, state_high: 0 };
        }
        if rhs >= 128 {
            return GF2Vec128 { state_low: self.state_high >> ((rhs - 128) as u128), state_high: 0 };
        }
        let state_low = (self.state_low >> (rhs as u128)) | (self.state_high << ((128
            - rhs) as u128));
        let state_high = self.state_high >> (rhs as u128);
        GF2Vec128 { state_low, state_high }
    }

    /// Moves every coefficient up by `rhs` places; zeros come in at the
    /// bottom and what passes `z^255` is dropped.
    pub fn shl(self, rhs: u32) -> (r: GF2Vec128)
        ensures
            r == self.spec_shl(rhs as nat),
            forall|i: nat| #[trigger]
                r.coeff(i) == (rhs <= i && i < 256 && self.coeff((i - rhs) as nat)),
    {
        proof {
            assert forall|i: nat| #[trigger]
                self.spec_shl(rhs as nat).coeff(i) == (rhs <= i && i < 256 && self.coeff(
                    (i - rhs) as nat,
                )) by {
                self.lemma_shl_coeff(rhs as nat, i);
            }
        }
        if rhs == 0 {
            return self;
        }
        if rhs >= 256 {
            return GF2Vec128 { state_low: 0, state_high: 0 };
        }
        if rhs >= 128 {
            return GF2Vec128 { state_low: 0, state_high: self.state_low << ((rhs - 128) as u128) };
        }
        let state_high = (self.state_high << (rhs as u128)) | (self.state_low >> ((128
            - rhs) as u128));
        let state_low = self.state_low << (rhs as u128);
        GF2Vec128 { state_low, state_high }
    }
}


impl GF2Vec128 {
    /// The parity of the number of `j < n` with `j <= k` at which `rhs`
    /// has the coefficient of `z^j` and `self` that of `z^(k - j)`.
    pub open spec fn conv(self, rhs: GF2Vec128, k: nat, n: nat) -> bool
        decreases n,
    {
        if n == 0 {
            false
        } else {
            let j = (n - 1) as nat;
            self.conv(rhs, k, j) != (rhs.coeff(j) && j <= k && self.coeff((k - j) as nat))
        }
    }

    /// Each coefficient of a partial product is a convolution of the
    /// coefficients of the factors.
    pub proof fn lemma_mul_coeff(self, rhs: GF2Vec128, k: nat, n: nat)
        requires
            k < 256,
        ensures
            self.mul_partial(rhs, n).coeff(k) == self.conv(rhs, k, n),
        decreases n,
    {
        if n == 0 {
            Self::spec_zero().lemma_bit_len();
        } else {
            let j = (n - 1) as nat;
            self.lemma_mul_coeff(rhs, k, j);
            self.mul_partial(rhs, j).lemma_xor_coeff(self.spec_shl(j), k);
            self.lemma_shl_coeff(j, k);
        }
    }

    /// Places above the length of `rhs` add nothing to a product.
    pub proof fn lemma_mul_skip(self, rhs: GF2Vec128, lo: nat, hi: nat)
        requires
            lo <= hi,
            forall|i: nat| i >= lo ==> !rhs.coeff(i),
        ensures
            self.mul_partial(rhs, hi) == self.mul_partial(rhs, lo),
        decreases hi - lo,
    {
        if hi > lo {
            self.lemma_mul_skip(rhs, lo, (hi - 1) as nat);
        }
    }

    /// Places above the length of the polynomial need no reduction.
    pub proof fn lemma_reduce_skip(self, m: GF2Vec128, lo: nat, hi: nat)
        requires
            lo <= hi,
            forall|i: nat| i >= lo ==> !self.coeff(i),
        ensures
            self.reduce_from(m, hi) == self.reduce_from(m, lo),
        decreases hi - lo,
    {
        if hi > lo {
            self.lemma_reduce_skip(m, lo, (hi - 1) as nat);
        }
    }

    /// Carry-less product of two polynomials. Terms above `z^255` are
    /// dropped.
    pub fn mul(self, rhs: GF2Vec128) -> (r: GF2Vec128)
        ensures
            r == self.spec_mul(rhs),
            forall|k: nat| k < 256 ==> #[trigger] r.coeff(k) == self.conv(rhs, k, 256),
    {
        proof {
            assert forall|k: nat| k < 256 implies #[trigger] self.spec_mul(rhs).coeff(k)
                == self.conv(rhs, k, 256) by {
                self.lemma_mul_coeff(rhs, k, 256);
            }
        }
        let mut result = GF2Vec128 { state_low: 0, state_high: 0 };
        if rhs.is_zero() {
            proof {
                self.lemma_mul_skip(rhs, 0, 256);
            }
            return result;
        }
        let n: u32 = rhs.last_bit_pos();
        let mut i: u32 = 0;
        while i < n
            invariant
                i <= n,
                n <= 256,
                result == self.mul_partial(rhs, i as nat),
            decreases n - i,
        {
            if rhs.bit(i) {
                result = result.bitxor(self.shl(i));
            }
            i = i + 1;
        }
        proof {
            self.lemma_mul_skip(rhs, n as nat, 256);
        }
        result
    }

    /// Remainder of the division by `rhs`.
    pub fn modulo(self, rhs: GF2Vec128) -> (r: GF2Vec128)
        requires
            rhs != Self::spec_zero(),
        ensures
            r == self.spec_mod(rhs),
            exists|q: GF2Vec128| self == #[trigger] q.spec_mul(rhs).spec_xor(r),
            r.bit_len() < rhs.bit_len(),
            forall|i: nat| i + 1 >= rhs.bit_len() ==> !r.coeff(i),
            self.bit_len() < rhs.bit_len() ==> r == self,
    {
        let mut polynomial = self;
        proof {
            self.lemma_bit_len();
            rhs.lemma_bit_len();
            let q = self.lemma_mod_is_remainder(rhs);
            assert(self == q.spec_mul(rhs).spec_xor(self.spec_mod(rhs)));
        }
        if polynomial.is_zero() {
            proof {
                self.lemma_reduce_skip(rhs, 0, 256);
            }
            return polynomial;
        }
        let m: u32 = rhs.last_bit_pos();
        let top: u32 = polynomial.last_bit_pos();
        proof {
            self.lemma_reduce_skip(rhs, top as nat, 256);
        }
        if top < m {
            return polynomial;
        }
        let mut pos: u32 = top;
        while pos >= m
            invariant
                1 <= m <= 256,
                m == rhs.bit_len(),
                rhs.coeff((m - 1) as nat),
                forall|i: nat| i >= m ==> !rhs.coeff(i),
                m - 1 <= pos <= top <= 256,
                forall|i: nat| i >= pos ==> !polynomial.coeff(i),
                polynomial.reduce_from(rhs, pos as nat) == self.spec_mod(rhs),
            decreases pos,
        {
            if polynomial.bit(pos - 1) {
                let ghost prev = polynomial;
                let modulus = rhs.shl(pos - m);
                polynomial = polynomial.bitxor(modulus);
                proof {
                    assert forall|i: nat| i >= pos - 1 implies !polynomial.coeff(i) by {
                        assert(polynomial.coeff(i) == (prev.coeff(i) != modulus.coeff(i)));
                        assert(modulus.coeff(i) == (pos - m <= i && i < 256 && rhs.coeff(
                            (i - (pos - m)) as nat,
                        )));
                    }
                }
            }
            pos = pos - 1;
        }
        proof {
            polynomial.lemma_bit_len();
        }
        polynomial
    }

    /// Raises the polynomial to the power `rhs` modulo `modulus` by
    /// squaring, from the low bit of the exponent upwards.
    pub fn modpow(self, rhs: u128, modulus: GF2Vec128) -> (r: GF2Vec128)
        requires
            rhs == 0 || modulus != Self::spec_zero(),
        ensures
            r == self.spec_modpow(rhs as nat, modulus),
            rhs > 0 ==> r.bit_len() < modulus.bit_len(),
    {
        let mut power: u128 = rhs;
        let mut base = self;
        let mut result = GF2Vec128 { state_low: 1, state_high: 0 };
        while power > 0
            invariant
                rhs == 0 || modulus != Self::spec_zero(),
                base.pow_acc(result, power as nat, modulus) == self.spec_modpow(
                    rhs as nat,
                    modulus,
                ),
                power == 0 && rhs > 0 ==> result.bit_len() < modulus.bit_len(),
                power <= rhs,
            decreases power,
        {
            assert(power & 1 == power % 2) by (bit_vector);
            assert(power >> 1u128 == power / 2) by (bit_vector);
            if (power & 1) == 1 {
                result = result.mul(base).modulo(modulus);
            }
            power = power >> 1u128;
            base = base.mul(base).modulo(modulus);
        }
        result
    }

    /// With exponent zero the power is the polynomial 1, whatever the
    /// modulus.
    pub proof fn lemma_modpow_zero(self, m: GF2Vec128)
        ensures
            self.spec_modpow(0, m) == Self::spec_one(),
    {
    }

    /// The polynomial 1 is neutral on the left of a product.
    pub proof fn lemma_one_mul(self)
        ensures
            Self::spec_one().spec_mul(self) == self,
    {
        let p = Self::spec_one().spec_mul(self);
        assert forall|k: nat| k < 256 implies p.coeff(k) == self.coeff(k) by {
            self.lemma_one_partial(k, 256);
        }
        p.lemma_equal(self);
    }

    /// The head of the product of 1 with a polynomial is the head of the
    /// polynomial.
    proof fn lemma_one_partial(self, k: nat, n: nat)
        requires
            k < 256,
        ensures
            Self::spec_one().mul_partial(self, n).coeff(k) == (k < n && self.coeff(k)),
        decreases n,
    {
        let one = Self::spec_one();
        if n == 0 {
            Self::spec_zero().lemma_bit_len();
        } else {
            let j = (n - 1) as nat;
            self.lemma_one_partial(k, j);
            one.mul_partial(self, j).lemma_xor_coeff(one.spec_shl(j), k);
            one.lemma_shl_coeff(j, k);
            Self::lemma_one_coeff((k - j) as nat);
        }
    }

    /// With exponent one the power is the polynomial reduced modulo `m`.
    pub proof fn lemma_modpow_one(self, m: GF2Vec128)
        ensures
            self.spec_modpow(1, m) == self.spec_mod(m),
    {
        self.lemma_one_mul();
        let sq = self.mul_mod(self, m);
        let acc = Self::spec_one().mul_mod(self, m);
        assert(self.pow_acc(Self::spec_one(), 1, m) == sq.pow_acc(acc, 0, m));
    }
}

impl GF2Vec128 {
    /// A product is additive in its left factor, coefficient by
    /// coefficient.
    pub proof fn lemma_conv_add(self, other: GF2Vec128, rhs: GF2Vec128, k: nat, n: nat)
        ensures
            self.spec_xor(other).conv(rhs, k, n) == (self.conv(rhs, k, n) != other.conv(rhs, k, n)),
        decreases n,
    {
        if n > 0 {
            let j = (n - 1) as nat;
            self.lemma_conv_add(other, rhs, k, j);
            if j <= k {
                self.lemma_xor_coeff(other, (k - j) as nat);
            }
        }
    }

    /// A product is additive in its left factor.
    pub proof fn lemma_mul_add(self, other: GF2Vec128, rhs: GF2Vec128)
        ensures
            self.spec_xor(other).spec_mul(rhs) == self.spec_mul(rhs).spec_xor(other.spec_mul(rhs)),
    {
        let lhs = self.spec_xor(other).spec_mul(rhs);
        let sum = self.spec_mul(rhs).spec_xor(other.spec_mul(rhs));
        assert forall|k: nat| k < 256 implies lhs.coeff(k) == sum.coeff(k) by {
            self.spec_xor(other).lemma_mul_coeff(rhs, k, 256);
            self.lemma_mul_coeff(rhs, k, 256);
            other.lemma_mul_coeff(rhs, k, 256);
            self.lemma_conv_add(other, rhs, k, 256);
            self.spec_mul(rhs).lemma_xor_coeff(other.spec_mul(rhs), k);
        }
        lhs.lemma_equal(sum);
    }

    /// The power `z^d` has the coefficient of `z^d` and no other.
    pub proof fn lemma_monomial_coeff(d: nat, i: nat)
        requires
            d < 256,
        ensures
            Self::spec_one().spec_shl(d).coeff(i) == (i == d),
    {
        Self::spec_one().lemma_shl_coeff(d, i);
        if d <= i {
            Self::lemma_one_coeff((i - d) as nat);
        }
    }

    /// The coefficients of the head of a product with `z^d`.
    proof fn lemma_monomial_conv(rhs: GF2Vec128, d: nat, k: nat, n: nat)
        requires
            d < 256,
            k < 256,
        ensures
            Self::spec_one().spec_shl(d).conv(rhs, k, n) == (d <= k && k - d < n && rhs.coeff(
                (k - d) as nat,
            )),
        decreases n,
    {
        if n > 0 {
            let j = (n - 1) as nat;
            Self::lemma_monomial_conv(rhs, d, k, j);
            if j <= k {
                Self::lemma_monomial_coeff(d, (k - j) as nat);
            }
        }
    }

    /// Multiplying by `z^d` shifts the coefficients up by `d` places.
    pub proof fn lemma_monomial_mul(rhs: GF2Vec128, d: nat)
        requires
            d < 256,
        ensures
            Self::spec_one().spec_shl(d).spec_mul(rhs) == rhs.spec_shl(d),
    {
        let e = Self::spec_one().spec_shl(d);
        assert forall|k: nat| k < 256 implies e.spec_mul(rhs).coeff(k) == rhs.spec_shl(d).coeff(
            k,
        ) by {
            e.lemma_mul_coeff(rhs, k, 256);
            Self::lemma_monomial_conv(rhs, d, k, 256);
            rhs.lemma_shl_coeff(d, k);
        }
        e.spec_mul(rhs).lemma_equal(rhs.spec_shl(d));
    }

    /// Every coefficient of a product with zero vanishes.
    proof fn lemma_zero_conv(rhs: GF2Vec128, k: nat, n: nat)
        ensures
            !Self::spec_zero().conv(rhs, k, n),
        decreases n,
    {
        Self::spec_zero().lemma_bit_len();
        if n > 0 {
            Self::lemma_zero_conv(rhs, k, (n - 1) as nat);
        }
    }

    /// Long division from the coefficient of `z^(t - 1)` downwards
    /// leaves a polynomial that differs from `self` by a multiple of
    /// `m`. The quotient is returned: its product with `m` has no term
    /// above `z^(t - 1)`, so nothing of it is cut off.
    pub proof fn lemma_reduce_quotient(self, m: GF2Vec128, t: nat) -> (q: GF2Vec128)
        requires
            m != Self::spec_zero(),
            t <= 256,
            forall|i: nat| i >= t ==> !self.coeff(i),
        ensures
            self == q.spec_mul(m).spec_xor(self.reduce_from(m, t)),
            forall|i: nat| i + m.bit_len() > t ==> !q.coeff(i),
            forall|i: nat| i >= t || i + 1 >= m.bit_len() ==> !self.reduce_from(m, t).coeff(i),
        decreases t,
    {
        m.lemma_bit_len();
        let len = m.bit_len();
        if t == 0 || t < len {
            let q = Self::spec_zero();
            q.lemma_bit_len();
            assert forall|k: nat| k < 256 implies self.coeff(k) == q.spec_mul(m).spec_xor(
                self,
            ).coeff(k) by {
                q.lemma_mul_coeff(m, k, 256);
                Self::lemma_zero_conv(m, k, 256);
                q.spec_mul(m).lemma_xor_coeff(self, k);
            }
            self.lemma_equal(q.spec_mul(m).spec_xor(self));
            q
        } else if self.coeff((t - 1) as nat) {
            let d = (t - len) as nat;
            let shifted = m.spec_shl(d);
            let next = self.spec_xor(shifted);
            assert forall|i: nat| i >= t - 1 implies !next.coeff(i) by {
                self.lemma_xor_coeff(shifted, i);
                m.lemma_shl_coeff(d, i);
            }
            let q0 = next.lemma_reduce_quotient(m, (t - 1) as nat);
            let e = Self::spec_one().spec_shl(d);
            let q = q0.spec_xor(e);
            let r = next.reduce_from(m, (t - 1) as nat);
            q0.lemma_mul_add(e, m);
            Self::lemma_monomial_mul(m, d);
            assert forall|k: nat| k < 256 implies self.coeff(k) == q.spec_mul(m).spec_xor(r).coeff(
                k,
            ) by {
                q.spec_mul(m).lemma_xor_coeff(r, k);
                q0.spec_mul(m).lemma_xor_coeff(shifted, k);
                q0.spec_mul(m).lemma_xor_coeff(r, k);
                self.lemma_xor_coeff(shifted, k);
            }
            self.lemma_equal(q.spec_mul(m).spec_xor(r));
            assert forall|i: nat| i + len > t implies !q.coeff(i) by {
                q0.lemma_xor_coeff(e, i);
                if i < 256 {
                    Self::lemma_monomial_coeff(d, i);
                } else {
                    e.lemma_bit_len();
                }
            }
            q
        } else {
            let q = self.lemma_reduce_quotient(m, (t - 1) as nat);
            q
        }
    }

    /// The remainder differs from the polynomial by a multiple of the
    /// modulus and is of lower degree than the modulus.
    pub proof fn lemma_mod_is_remainder(self, m: GF2Vec128) -> (q: GF2Vec128)
        requires
            m != Self::spec_zero(),
        ensures
            self == q.spec_mul(m).spec_xor(self.spec_mod(m)),
            forall|i: nat| i + m.bit_len() > 256 ==> !q.coeff(i),
    {
        self.lemma_bit_len();
        self.lemma_reduce_quotient(m, 256)
    }
}

impl GF2Vec128 {
    /// Terms beyond `z^k` add nothing to the coefficient of `z^k`.
    pub proof fn lemma_conv_cap(self, rhs: GF2Vec128, k: nat, n: nat)
        requires
            n > k,
        ensures
            self.conv(rhs, k, n) == self.conv(rhs, k, k + 1),
        decreases n,
    {
        if n > k + 1 {
            self.lemma_conv_cap(rhs, k, (n - 1) as nat);
        }
    }

    /// The first `n` terms of a coefficient of a product are the last `n`
    /// terms of that coefficient with the factors exchanged.
    proof fn lemma_conv_reverse(self, rhs: GF2Vec128, k: nat, n: nat)
        requires
            n <= k + 1,
        ensures
            self.conv(rhs, k, n) == (rhs.conv(self, k, k + 1) != rhs.conv(
                self,
                k,
                (k + 1 - n) as nat,
            )),
        decreases n,
    {
        if n > 0 {
            self.lemma_conv_reverse(rhs, k, (n - 1) as nat);
        }
    }

    /// The product does not depend on the order of the factors.
    pub proof fn lemma_mul_comm(self, rhs: GF2Vec128)
        ensures
            self.spec_mul(rhs) == rhs.spec_mul(self),
    {
        assert forall|k: nat| k < 256 implies self.spec_mul(rhs).coeff(k) == rhs.spec_mul(
            self,
        ).coeff(k) by {
            self.lemma_mul_coeff(rhs, k, 256);
            rhs.lemma_mul_coeff(self, k, 256);
            self.lemma_conv_cap(rhs, k, 256);
            rhs.lemma_conv_cap(self, k, 256);
            self.lemma_conv_reverse(rhs, k, k + 1);
        }
        self.spec_mul(rhs).lemma_equal(rhs.spec_mul(self));
    }

    /// The coefficients of the head of a product with a shifted factor.
    proof fn lemma_shl_conv(self, rhs: GF2Vec128, s: nat, k: nat, n: nat)
        requires
            k < 256,
        ensures
            self.spec_shl(s).conv(rhs, k, n) == (s <= k && self.conv(rhs, (k - s) as nat, n)),
        decreases n,
    {
        if n > 0 {
            let j = (n - 1) as nat;
            self.lemma_shl_conv(rhs, s, k, j);
            if j <= k {
                self.lemma_shl_coeff(s, (k - j) as nat);
            }
        }
    }

    /// A shift of the left factor is a shift of the product.
    pub proof fn lemma_shl_mul(self, rhs: GF2Vec128, s: nat)
        ensures
            self.spec_shl(s).spec_mul(rhs) == self.spec_mul(rhs).spec_shl(s),
    {
        let lhs = self.spec_shl(s).spec_mul(rhs);
        let other = self.spec_mul(rhs).spec_shl(s);
        assert forall|k: nat| k < 256 implies lhs.coeff(k) == other.coeff(k) by {
            self.spec_shl(s).lemma_mul_coeff(rhs, k, 256);
            self.lemma_shl_conv(rhs, s, k, 256);
            self.spec_mul(rhs).lemma_shl_coeff(s, k);
            if s <= k {
                self.lemma_mul_coeff(rhs, (k - s) as nat, 256);
            }
        }
        lhs.lemma_equal(other);
    }

    /// The product of zero with anything is zero.
    pub proof fn lemma_zero_mul(rhs: GF2Vec128)
        ensures
            Self::spec_zero().spec_mul(rhs) == Self::spec_zero(),
    {
        let z = Self::spec_zero();
        z.lemma_bit_len();
        assert forall|k: nat| k < 256 implies z.spec_mul(rhs).coeff(k) == z.coeff(k) by {
            z.lemma_mul_coeff(rhs, k, 256);
            Self::lemma_zero_conv(rhs, k, 256);
        }
        z.spec_mul(rhs).lemma_equal(z);
    }

    /// The head of the law below: the first `n` terms of the inner product.
    proof fn lemma_mul_swap_partial(self, b: GF2Vec128, c: GF2Vec128, n: nat)
        ensures
            self.mul_partial(b, n).spec_mul(c) == self.spec_mul(c).mul_partial(b, n),
        decreases n,
    {
        if n == 0 {
            Self::lemma_zero_mul(c);
        } else {
            let j = (n - 1) as nat;
            self.lemma_mul_swap_partial(b, c, j);
            if b.coeff(j) {
                self.mul_partial(b, j).lemma_mul_add(self.spec_shl(j), c);
                self.lemma_shl_mul(c, j);
            }
        }
    }

    /// Two right factors can change places.
    pub proof fn lemma_mul_swap(self, b: GF2Vec128, c: GF2Vec128)
        ensures
            self.spec_mul(b).spec_mul(c) == self.spec_mul(c).spec_mul(b),
    {
        self.lemma_mul_swap_partial(b, c, 256);
    }

    /// The product is associative.
    pub proof fn lemma_mul_assoc(self, b: GF2Vec128, c: GF2Vec128)
        ensures
            self.spec_mul(b).spec_mul(c) == self.spec_mul(b.spec_mul(c)),
    {
        self.lemma_mul_comm(b);
        b.lemma_mul_swap(self, c);
        b.spec_mul(c).lemma_mul_comm(self);
    }

    /// A product is additive in its right factor.
    pub proof fn lemma_mul_add_right(self, x: GF2Vec128, y: GF2Vec128)
        ensures
            self.spec_mul(x.spec_xor(y)) == self.spec_mul(x).spec_xor(self.spec_mul(y)),
    {
        self.lemma_mul_comm(x.spec_xor(y));
        x.lemma_mul_add(y, self);
        self.lemma_mul_comm(x);
        self.lemma_mul_comm(y);
    }
}

impl GF2Vec128 {
    /// The polynomial has no term `z^i` with `i` at or above `n`; with
    /// `n` at or below zero it is the zero polynomial.
    pub open spec fn below(self, n: int) -> bool {
        forall|i: nat| i >= n ==> !self.coeff(i)
    }

    /// A polynomial stays below its length.
    pub proof fn lemma_below_len(self)
        ensures
            self.below(self.bit_len() as int),
            forall|n: int| self.below(n) && n >= 0 ==> self.bit_len() <= n,
            self.below(0) ==> self == Self::spec_zero(),
    {
        self.lemma_bit_len();
        assert forall|n: int| self.below(n) && n >= 0 implies self.bit_len() <= n by {
            if self.bit_len() > n {
                assert(self.coeff((self.bit_len() - 1) as nat));
            }
        }
        if self.below(0) {
            if self.bit_len() > 0 {
                assert(self.coeff((self.bit_len() - 1) as nat));
            }
        }
    }

    /// A polynomial that stays below `n` is at most `n` long.
    pub proof fn lemma_below_to_len(self, n: int)
        requires
            self.below(n),
            n >= 0,
        ensures
            self.bit_len() <= n,
    {
        self.lemma_bit_len();
        if self.bit_len() > n {
            assert(self.coeff((self.bit_len() - 1) as nat));
        }
    }

    /// The sum of two polynomials stays below what both stay below.
    pub proof fn lemma_xor_below(self, rhs: GF2Vec128, n: int)
        requires
            self.below(n),
            rhs.below(n),
        ensures
            self.spec_xor(rhs).below(n),
    {
        assert forall|i: nat| i >= n implies !self.spec_xor(rhs).coeff(i) by {
            self.lemma_xor_coeff(rhs, i);
        }
    }

    /// No term reaches a coefficient above the sum of the degrees.
    proof fn lemma_conv_below(self, rhs: GF2Vec128, na: int, nb: int, k: nat, n: nat)
        requires
            self.below(na),
            rhs.below(nb),
            k + 1 >= na + nb,
        ensures
            !self.conv(rhs, k, n),
        decreases n,
    {
        if n > 0 {
            let j = (n - 1) as nat;
            self.lemma_conv_below(rhs, na, nb, k, j);
            if j <= k && rhs.coeff(j) {
                assert(j < nb);
                assert(!self.coeff((k - j) as nat));
            }
        }
    }

    /// The degree of a product is at most the sum of the degrees.
    pub proof fn lemma_mul_below(self, rhs: GF2Vec128, na: int, nb: int)
        requires
            self.below(na),
            rhs.below(nb),
        ensures
            self.spec_mul(rhs).below(na + nb - 1),
    {
        let p = self.spec_mul(rhs);
        p.lemma_bit_len();
        assert forall|k: nat| k >= na + nb - 1 implies !p.coeff(k) by {
            if k < 256 {
                self.lemma_mul_coeff(rhs, k, 256);
                self.lemma_conv_below(rhs, na, nb, k, 256);
            }
        }
    }

    /// One term only reaches the coefficient at the sum of the degrees.
    proof fn lemma_conv_top(self, rhs: GF2Vec128, n: nat)
        requires
            self.bit_len() >= 1,
            rhs.bit_len() >= 1,
        ensures
            self.conv(rhs, (self.bit_len() + rhs.bit_len() - 2) as nat, n) == (n >= rhs.bit_len()),
        decreases n,
    {
        self.lemma_bit_len();
        rhs.lemma_bit_len();
        if n > 0 {
            self.lemma_conv_top(rhs, (n - 1) as nat);
        }
    }

    /// A product of two polynomials other than zero, none of whose terms
    /// is cut off, has the product of the leading terms as its leading
    /// term.
    pub proof fn lemma_mul_top(self, rhs: GF2Vec128)
        requires
            self.bit_len() >= 1,
            rhs.bit_len() >= 1,
            self.bit_len() + rhs.bit_len() <= 257,
        ensures
            self.spec_mul(rhs).coeff((self.bit_len() + rhs.bit_len() - 2) as nat),
    {
        let k = (self.bit_len() + rhs.bit_len() - 2) as nat;
        self.lemma_mul_coeff(rhs, k, 256);
        self.lemma_conv_top(rhs, 256);
        rhs.lemma_bit_len();
    }

    /// A multiple of `m` of lower degree than `m` is zero, where none of
    /// the terms of the multiple is cut off.
    pub proof fn lemma_small_multiple(self, m: GF2Vec128)
        requires
            m != Self::spec_zero(),
            self.bit_len() + m.bit_len() <= 257,
            self.spec_mul(m).below(m.bit_len() - 1),
        ensures
            self == Self::spec_zero(),
    {
        self.lemma_bit_len();
        m.lemma_bit_len();
        if self.bit_len() >= 1 {
            self.lemma_mul_top(m);
        }
    }

    /// Adding a multiple of the modulus does not change the remainder,
    /// where none of the terms of the multiple is cut off.
    pub proof fn lemma_mod_absorb(self, y: GF2Vec128, q: GF2Vec128, m: GF2Vec128)
        requires
            m != Self::spec_zero(),
            q.bit_len() + m.bit_len() <= 257,
            self == q.spec_mul(m).spec_xor(y),
        ensures
            self.spec_mod(m) == y.spec_mod(m),
    {
        let len = m.bit_len() as int;
        m.lemma_bit_len();
        self.lemma_bit_len();
        y.lemma_bit_len();
        let qx = self.lemma_reduce_quotient(m, 256);
        let qy = y.lemma_reduce_quotient(m, 256);
        let rx = self.spec_mod(m);
        let ry = y.spec_mod(m);
        let t = q.spec_xor(qx).spec_xor(qy);
        q.lemma_below_len();
        assert(qx.below(257 - len));
        assert(qy.below(257 - len));
        q.lemma_xor_below(qx, 257 - len);
        q.spec_xor(qx).lemma_xor_below(qy, 257 - len);
        t.lemma_below_len();
        q.spec_xor(qx).lemma_mul_add(qy, m);
        q.lemma_mul_add(qx, m);
        let d = rx.spec_xor(ry);
        assert forall|k: nat| k < 256 implies t.spec_mul(m).coeff(k) == d.coeff(k) by {
            q.spec_mul(m).spec_xor(qx.spec_mul(m)).lemma_xor_coeff(qy.spec_mul(m), k);
            q.spec_mul(m).lemma_xor_coeff(qx.spec_mul(m), k);
            q.spec_mul(m).lemma_xor_coeff(y, k);
            qx.spec_mul(m).lemma_xor_coeff(rx, k);
            qy.spec_mul(m).lemma_xor_coeff(ry, k);
            rx.lemma_xor_coeff(ry, k);
        }
        t.spec_mul(m).lemma_equal(d);
        assert(rx.below(len - 1));
        assert(ry.below(len - 1));
        rx.lemma_xor_below(ry, len - 1);
        t.lemma_small_multiple(m);
        Self::lemma_zero_mul(m);
        Self::spec_zero().lemma_bit_len();
        assert forall|k: nat| k < 256 implies rx.coeff(k) == ry.coeff(k) by {
            rx.lemma_xor_coeff(ry, k);
        }
        rx.lemma_equal(ry);
    }

    /// The remainder of a product is the remainder of the product of the
    /// remainders, where no term of the product of the two polynomials is
    /// cut off.
    pub proof fn lemma_mul_mod(self, rhs: GF2Vec128, m: GF2Vec128)
        requires
            m != Self::spec_zero(),
            self.bit_len() + rhs.bit_len() <= 257,
        ensures
            self.spec_mul(rhs).spec_mod(m) == self.spec_mod(m).spec_mul(rhs.spec_mod(m)).spec_mod(
                m,
            ),
    {
        let len = m.bit_len() as int;
        let la = self.bit_len() as int;
        let lb = rhs.bit_len() as int;
        m.lemma_bit_len();
        self.lemma_bit_len();
        rhs.lemma_bit_len();
        self.lemma_reduce_skip(m, self.bit_len(), 256);
        rhs.lemma_reduce_skip(m, rhs.bit_len(), 256);
        let qa = self.lemma_reduce_quotient(m, self.bit_len());
        let qb = rhs.lemma_reduce_quotient(m, rhs.bit_len());
        let ra = self.spec_mod(m);
        let rb = rhs.spec_mod(m);
        assert(qa.below(la - len + 1));
        assert(qb.below(lb - len + 1));
        assert(ra.below(la));
        assert(rhs.below(lb));
        // the product, term by term
        qa.spec_mul(m).lemma_mul_add(ra, rhs);
        qa.lemma_mul_swap(m, rhs);
        ra.lemma_mul_add_right(qb.spec_mul(m), rb);
        ra.lemma_mul_assoc(qb, m);
        let q1 = qa.spec_mul(rhs);
        let q2 = ra.spec_mul(qb);
        let q = q1.spec_xor(q2);
        q1.lemma_mul_add(q2, m);
        let y = ra.spec_mul(rb);
        let x = self.spec_mul(rhs);
        assert forall|k: nat| k < 256 implies x.coeff(k) == q.spec_mul(m).spec_xor(y).coeff(
            k,
        ) by {
            q.spec_mul(m).lemma_xor_coeff(y, k);
            q1.spec_mul(m).lemma_xor_coeff(q2.spec_mul(m), k);
            q1.spec_mul(m).lemma_xor_coeff(ra.spec_mul(rhs), k);
            q2.spec_mul(m).lemma_xor_coeff(y, k);
        }
        x.lemma_equal(q.spec_mul(m).spec_xor(y));
        // the quotient is small enough
        qa.lemma_mul_below(rhs, la - len + 1, lb);
        ra.lemma_mul_below(qb, la, lb - len + 1);
        q1.lemma_xor_below(q2, la + lb - len);
        q.lemma_below_len();
        if la + lb - len < 0 {
            assert(q.below(0)) by {
                assert forall|i: nat| i >= 0 implies !q.coeff(i) by {
                    assert(i >= la + lb - len);
                }
            }
        }
        x.lemma_mod_absorb(y, q, m);
    }
}

impl GF2Vec128 {
    /// A remainder is of lower degree than the modulus and no longer
    /// than the polynomial.
    pub proof fn lemma_mod_below(self, m: GF2Vec128)
        requires
            m != Self::spec_zero(),
        ensures
            self.spec_mod(m).below(m.bit_len() - 1),
            self.spec_mod(m).below(self.bit_len() as int),
    {
        self.lemma_bit_len();
        self.lemma_reduce_skip(m, self.bit_len(), 256);
        let q = self.lemma_reduce_quotient(m, self.bit_len());
    }

    /// A polynomial of lower degree than the modulus is its own
    /// remainder.
    pub proof fn lemma_mod_reduced(self, m: GF2Vec128)
        requires
            m != Self::spec_zero(),
            self.below(m.bit_len() - 1),
        ensures
            self.spec_mod(m) == self,
    {
        m.lemma_bit_len();
        let lo = (m.bit_len() - 1) as nat;
        self.lemma_reduce_skip(m, lo, 256);
    }

    /// The remainder of a sum is the sum of the remainders.
    pub proof fn lemma_mod_add(self, other: GF2Vec128, m: GF2Vec128)
        requires
            m != Self::spec_zero(),
        ensures
            self.spec_xor(other).spec_mod(m) == self.spec_mod(m).spec_xor(other.spec_mod(m)),
    {
        let len = m.bit_len() as int;
        self.lemma_bit_len();
        other.lemma_bit_len();
        let qu = self.lemma_reduce_quotient(m, 256);
        let qv = other.lemma_reduce_quotient(m, 256);
        let ru = self.spec_mod(m);
        let rv = other.spec_mod(m);
        let q = qu.spec_xor(qv);
        let y = ru.spec_xor(rv);
        assert(qu.below(257 - len));
        assert(qv.below(257 - len));
        qu.lemma_xor_below(qv, 257 - len);
        m.lemma_bit_len();
        q.lemma_below_to_len(257 - len);
        qu.lemma_mul_add(qv, m);
        let x = self.spec_xor(other);
        assert forall|k: nat| k < 256 implies x.coeff(k) == q.spec_mul(m).spec_xor(y).coeff(
            k,
        ) by {
            self.lemma_xor_coeff(other, k);
            q.spec_mul(m).lemma_xor_coeff(y, k);
            qu.spec_mul(m).lemma_xor_coeff(qv.spec_mul(m), k);
            qu.spec_mul(m).lemma_xor_coeff(ru, k);
            qv.spec_mul(m).lemma_xor_coeff(rv, k);
            ru.lemma_xor_coeff(rv, k);
        }
        x.lemma_equal(q.spec_mul(m).spec_xor(y));
        x.lemma_mod_absorb(y, q, m);
        assert(ru.below(len - 1));
        assert(rv.below(len - 1));
        ru.lemma_xor_below(rv, len - 1);
        y.lemma_mod_reduced(m);
    }

    /// A product modulo `m` is additive in its right factor.
    pub proof fn lemma_mul_mod_add_right(self, y: GF2Vec128, y2: GF2Vec128, m: GF2Vec128)
        requires
            m != Self::spec_zero(),
        ensures
            self.mul_mod(y.spec_xor(y2), m) == self.mul_mod(y, m).spec_xor(self.mul_mod(y2, m)),
    {
        self.lemma_mul_add_right(y, y2);
        self.spec_mul(y).lemma_mod_add(self.spec_mul(y2), m);
    }

    /// A product modulo `m` is additive in its left factor.
    pub proof fn lemma_mul_mod_add_left(self, x2: GF2Vec128, y: GF2Vec128, m: GF2Vec128)
        requires
            m != Self::spec_zero(),
        ensures
            self.spec_xor(x2).mul_mod(y, m) == self.mul_mod(y, m).spec_xor(x2.mul_mod(y, m)),
    {
        self.lemma_mul_add(x2, y);
        self.spec_mul(y).lemma_mod_add(x2.spec_mul(y), m);
    }

    /// The left factor of a product modulo `m` may be reduced first,
    /// where no term of the product is cut off.
    pub proof fn lemma_mul_mod_left(self, v: GF2Vec128, m: GF2Vec128)
        requires
            m != Self::spec_zero(),
            self.bit_len() + v.bit_len() <= 257,
        ensures
            self.spec_mod(m).mul_mod(v, m) == self.spec_mul(v).spec_mod(m),
    {
        let r = self.spec_mod(m);
        self.lemma_mod_below(m);
        r.lemma_below_to_len(self.bit_len() as int);
        self.lemma_mul_mod(v, m);
        r.lemma_mul_mod(v, m);
        r.lemma_mod_reduced(m);
    }

    /// Two right factors of a product modulo `m` can change places,
    /// where no term of the product of all three is cut off.
    pub proof fn lemma_mul_mod_swap_exact(self, y: GF2Vec128, z: GF2Vec128, m: GF2Vec128)
        requires
            m != Self::spec_zero(),
            self.bit_len() + y.bit_len() + z.bit_len() <= 258,
        ensures
            self.mul_mod(y, m).mul_mod(z, m) == self.mul_mod(z, m).mul_mod(y, m),
    {
        self.lemma_below_len();
        y.lemma_below_len();
        z.lemma_below_len();
        self.lemma_bit_len();
        y.lemma_bit_len();
        z.lemma_bit_len();
        let lx = self.bit_len() as int;
        let ly = y.bit_len() as int;
        let lz = z.bit_len() as int;
        let xy = self.spec_mul(y);
        let xz = self.spec_mul(z);
        self.lemma_mul_below(y, lx, ly);
        self.lemma_mul_below(z, lx, lz);
        Self::spec_zero().lemma_bit_len();
        if lx == 0 {
            Self::lemma_zero_mul(y);
            Self::lemma_zero_mul(z);
        } else {
            if ly == 0 {
                self.lemma_mul_comm(y);
                Self::lemma_zero_mul(self);
            } else {
                xy.lemma_below_to_len(lx + ly - 1);
            }
            if lz == 0 {
                self.lemma_mul_comm(z);
                Self::lemma_zero_mul(self);
            } else {
                xz.lemma_below_to_len(lx + lz - 1);
            }
        }
        xy.lemma_mul_mod_left(z, m);
        xz.lemma_mul_mod_left(y, m);
        self.lemma_mul_swap(y, z);
    }

    /// A polynomial is its constant term plus `z` times the rest.
    pub proof fn lemma_split_low(self)
        ensures
            self == (if self.coeff(0) {
                Self::spec_one()
            } else {
                Self::spec_zero()
            }).spec_xor(self.spec_shr(1).spec_mul(Self::spec_z())),
            self.spec_shr(1).below(self.bit_len() - 1),
            self.spec_shr(1).below(255),
    {
        let c = if self.coeff(0) {
            Self::spec_one()
        } else {
            Self::spec_zero()
        };
        let rest = self.spec_shr(1);
        let t = Self::spec_z();
        self.lemma_bit_len();
        assert(1u128 << 1u128 == 2u128) by (bit_vector);
        assert((0u128 << 1u128) | (1u128 >> 127u128) == 0u128) by (bit_vector);
        assert(t == Self::spec_one().spec_shl(1));
        Self::lemma_monomial_mul(rest, 1);
        rest.lemma_mul_comm(t);
        assert forall|k: nat| k < 256 implies self.coeff(k) == c.spec_xor(
            rest.spec_mul(t),
        ).coeff(k) by {
            c.lemma_xor_coeff(rest.spec_mul(t), k);
            rest.lemma_shl_coeff(1, k);
            if k >= 1 {
                self.lemma_shr_coeff(1, (k - 1) as nat);
            }
            Self::lemma_one_coeff(k);
            Self::spec_zero().lemma_bit_len();
        }
        self.lemma_equal(c.spec_xor(rest.spec_mul(t)));
        assert forall|i: nat| i >= self.bit_len() - 1 || i >= 255 implies !rest.coeff(i) by {
            self.lemma_shr_coeff(1, i);
        }
    }

    /// Two right factors of a product modulo `m` can change places, for
    /// polynomials of degree below 128 and a modulus of degree at most
    /// 128.
    pub proof fn lemma_mul_mod_swap(self, y: GF2Vec128, z: GF2Vec128, m: GF2Vec128)
        requires
            m != Self::spec_zero(),
            m.bit_len() <= 129,
            self.below(128),
            y.below(128),
            z.below(128),
        ensures
            self.mul_mod(y, m).mul_mod(z, m) == self.mul_mod(z, m).mul_mod(y, m),
        decreases z.bit_len(),
    {
        let zero = Self::spec_zero();
        let one = Self::spec_one();
        let t = Self::spec_z();
        self.lemma_below_len();
        y.lemma_below_len();
        z.lemma_below_len();
        zero.lemma_bit_len();
        assert(one.bit_len() == 1) by {
            reveal_with_fuel(len128, 2);
        }
        assert(t.bit_len() == 2) by {
            reveal_with_fuel(len128, 3);
        }
        if z == zero {
            self.lemma_mul_mod_swap_exact(y, z, m);
        } else {
            let c = if z.coeff(0) {
                one
            } else {
                zero
            };
            let rest = z.spec_shr(1);
            z.lemma_split_low();
            z.lemma_bit_len();
            rest.lemma_below_len();
            assert(rest.below(127));
            let zt = rest.spec_mul(t);
            let w1 = self.mul_mod(y, m);
            let w2 = self.mul_mod(rest, m);
            self.spec_mul(y).lemma_mod_below(m);
            self.spec_mul(rest).lemma_mod_below(m);
            assert(w1.below(128));
            assert(w2.below(128));
            w1.lemma_below_to_len(128);
            w2.lemma_below_to_len(128);
            self.lemma_below_to_len(128);
            y.lemma_below_to_len(128);
            rest.lemma_below_to_len(127);
            // the left side
            w1.lemma_mul_mod_add_right(c, zt, m);
            w1.lemma_mul_assoc(rest, t);
            w1.lemma_mul_below(rest, 128, 127);
            w1.spec_mul(rest).lemma_below_to_len(254);
            w1.spec_mul(rest).lemma_mul_mod_left(t, m);
            self.lemma_mul_mod_swap(y, rest, m);
            // the right side
            self.lemma_mul_mod_add_right(c, zt, m);
            self.lemma_mul_assoc(rest, t);
            self.lemma_mul_below(rest, 128, 127);
            self.spec_mul(rest).lemma_below_to_len(254);
            self.spec_mul(rest).lemma_mul_mod_left(t, m);
            self.mul_mod(c, m).lemma_mul_mod_add_left(w2.mul_mod(t, m), y, m);
            w2.lemma_mul_mod_swap_exact(t, y, m);
            self.lemma_mul_mod_swap_exact(y, c, m);
        }
    }

    /// Multiplying the accumulator of a power by `y` multiplies the
    /// power by `y`.
    pub proof fn lemma_pow_acc_scale(self, acc: GF2Vec128, y: GF2Vec128, e: nat, m: GF2Vec128)
        requires
            m != Self::spec_zero(),
            m.bit_len() <= 129,
            self.below(128),
            acc.below(128),
            y.below(128),
        ensures
            self.pow_acc(acc.mul_mod(y, m), e, m) == self.pow_acc(acc, e, m).mul_mod(y, m),
        decreases e,
    {
        if e > 0 {
            let sq = self.mul_mod(self, m);
            self.spec_mul(self).lemma_mod_below(m);
            if e % 2 == 1 {
                acc.lemma_mul_mod_swap(y, self, m);
                acc.spec_mul(self).lemma_mod_below(m);
                sq.lemma_pow_acc_scale(acc.mul_mod(self, m), y, e / 2, m);
            } else {
                sq.lemma_pow_acc_scale(acc, y, e / 2, m);
            }
        }
    }

    /// A power with an accumulator stays of degree below 128.
    pub proof fn lemma_pow_acc_below(self, acc: GF2Vec128, e: nat, m: GF2Vec128)
        requires
            m != Self::spec_zero(),
            m.bit_len() <= 129,
            acc.below(128),
        ensures
            self.pow_acc(acc, e, m).below(128),
        decreases e,
    {
        if e > 0 {
            let sq = self.mul_mod(self, m);
            if e % 2 == 1 {
                acc.spec_mul(self).lemma_mod_below(m);
                sq.lemma_pow_acc_below(acc.mul_mod(self, m), e / 2, m);
            } else {
                sq.lemma_pow_acc_below(acc, e / 2, m);
            }
        }
    }

    /// One more in the exponent is one more factor.
    pub proof fn lemma_pow_acc_succ(self, acc: GF2Vec128, e: nat, m: GF2Vec128)
        requires
            m != Self::spec_zero(),
            m.bit_len() <= 129,
            self.below(128),
            acc.below(128),
        ensures
            self.pow_acc(acc, e + 1, m) == self.pow_acc(acc, e, m).mul_mod(self, m),
        decreases e,
    {
        let sq = self.mul_mod(self, m);
        self.spec_mul(self).lemma_mod_below(m);
        if e % 2 == 0 {
            assert((e + 1) / 2 == e / 2);
            sq.lemma_pow_acc_scale(acc, self, e / 2, m);
        } else {
            let h = e / 2;
            assert((e + 1) / 2 == h + 1);
            sq.lemma_pow_acc_succ(acc, h, m);
            sq.lemma_pow_acc_scale(acc, self, h, m);
            let x = sq.pow_acc(acc, h, m);
            sq.lemma_pow_acc_below(acc, h, m);
            // x * (b * b) = (x * b) * b
            x.lemma_mul_comm(sq);
            self.lemma_mul_mod_swap(self, x, m);
            self.lemma_mul_comm(x);
        }
    }

    /// The power with exponent `e + 1` is the power with exponent `e`
    /// times the polynomial, modulo `m`: for a polynomial of degree below
    /// 128 and a modulus of degree at most 128.
    pub proof fn lemma_modpow_succ(self, e: nat, m: GF2Vec128)
        requires
            m != Self::spec_zero(),
            m.bit_len() <= 129,
            self.bit_len() <= 128,
        ensures
            self.spec_modpow(e + 1, m) == self.spec_modpow(e, m).mul_mod(self, m),
    {
        self.lemma_below_len();
        assert(Self::spec_one().below(128)) by {
            assert forall|i: nat| i >= 128 implies !Self::spec_one().coeff(i) by {
                Self::lemma_one_coeff(i);
            }
        }
        self.lemma_pow_acc_succ(Self::spec_one(), e, m);
    }
}

impl GF2Vec128 {
    /// A modulus of degree between 1 and 128: the remainders fit in the
    /// low register, and the product of two of them in the pair.
    pub open spec fn narrow(self) -> bool {
        self != Self::spec_zero() && 2 <= self.bit_len() <= 129
    }

    /// A polynomial of degree below 128 lies in the low register.
    pub proof fn lemma_below_high(self)
        requires
            self.below(128),
        ensures
            self.state_high == 0,
    {
        assert forall|i: nat| i < 128 implies bit_at(self.state_high, i) == bit_at(0u128, i) by {
            assert(!self.coeff(i + 128));
            lemma_len128(0);
        }
        lemma_bits_equal(self.state_high, 0);
    }

    /// A product modulo a narrow modulus is reduced and of degree below
    /// 128.
    pub proof fn lemma_mul_mod_small(self, y: GF2Vec128, m: GF2Vec128)
        requires
            m.narrow(),
        ensures
            self.mul_mod(y, m).below(m.bit_len() - 1),
            self.mul_mod(y, m).below(128),
    {
        self.spec_mul(y).lemma_mod_below(m);
    }

    /// The polynomial 1 is neutral on the right of a product modulo `m`,
    /// for a reduced polynomial.
    pub proof fn lemma_mul_mod_one(self, m: GF2Vec128)
        requires
            m.narrow(),
            self.below(m.bit_len() - 1),
        ensures
            self.mul_mod(Self::spec_one(), m) == self,
    {
        self.lemma_mul_comm(Self::spec_one());
        self.lemma_one_mul();
        self.lemma_mod_reduced(m);
    }

    /// The product modulo a narrow modulus is associative on polynomials
    /// of degree below 128.
    pub proof fn lemma_mul_mod_assoc(self, y: GF2Vec128, z: GF2Vec128, m: GF2Vec128)
        requires
            m.narrow(),
            self.below(128),
            y.below(128),
            z.below(128),
        ensures
            self.mul_mod(y.mul_mod(z, m), m) == self.mul_mod(y, m).mul_mod(z, m),
    {
        self.lemma_mul_comm(y.mul_mod(z, m));
        y.lemma_mul_mod_swap(z, self, m);
        y.lemma_mul_comm(self);
    }

    /// The inner factors of a product of two products can change places.
    pub proof fn lemma_mul_mod_shuffle(
        self,
        b: GF2Vec128,
        c: GF2Vec128,
        d: GF2Vec128,
        m: GF2Vec128,
    )
        requires
            m.narrow(),
            self.below(128),
            b.below(128),
            c.below(128),
            d.below(128),
        ensures
            self.mul_mod(b, m).mul_mod(c.mul_mod(d, m), m) == self.mul_mod(c, m).mul_mod(
                b.mul_mod(d, m),
                m,
            ),
    {
        self.lemma_mul_mod_small(b, m);
        self.lemma_mul_mod_small(c, m);
        self.mul_mod(b, m).lemma_mul_mod_assoc(c, d, m);
        self.lemma_mul_mod_swap(b, c, m);
        self.mul_mod(c, m).lemma_mul_mod_assoc(b, d, m);
    }

    /// A power with a reduced accumulator is reduced.
    pub proof fn lemma_pow_acc_reduced(self, acc: GF2Vec128, e: nat, m: GF2Vec128)
        requires
            m.narrow(),
            acc.below(m.bit_len() - 1),
        ensures
            self.pow_acc(acc, e, m).below(m.bit_len() - 1),
            self.pow_acc(acc, e, m).below(128),
        decreases e,
    {
        if e > 0 {
            let sq = self.mul_mod(self, m);
            if e % 2 == 1 {
                acc.lemma_mul_mod_small(self, m);
                sq.lemma_pow_acc_reduced(acc.mul_mod(self, m), e / 2, m);
            } else {
                sq.lemma_pow_acc_reduced(acc, e / 2, m);
            }
        }
    }

    /// A power modulo a narrow modulus is reduced.
    pub proof fn lemma_modpow_reduced(self, e: nat, m: GF2Vec128)
        requires
            m.narrow(),
        ensures
            self.spec_modpow(e, m).below(m.bit_len() - 1),
            self.spec_modpow(e, m).below(128),
    {
        assert(Self::spec_one().below(m.bit_len() - 1)) by {
            assert forall|i: nat| i >= m.bit_len() - 1 implies !Self::spec_one().coeff(i) by {
                Self::lemma_one_coeff(i);
            }
        }
        self.lemma_pow_acc_reduced(Self::spec_one(), e, m);
    }

    /// The power with a sum as exponent is the product of the powers.
    pub proof fn lemma_modpow_add(self, u: nat, v: nat, m: GF2Vec128)
        requires
            m.narrow(),
            self.below(128),
        ensures
            self.spec_modpow(u + v, m) == self.spec_modpow(u, m).mul_mod(self.spec_modpow(v, m), m),
        decreases v,
    {
        self.lemma_modpow_reduced(u, m);
        if v == 0 {
            self.spec_modpow(u, m).lemma_mul_mod_one(m);
        } else {
            let w = (v - 1) as nat;
            self.lemma_modpow_add(u, w, m);
            self.lemma_below_to_len(128);
            self.lemma_modpow_succ(u + w, m);
            self.lemma_modpow_succ(w, m);
            self.lemma_modpow_reduced(w, m);
            self.spec_modpow(u, m).lemma_mul_mod_assoc(self.spec_modpow(w, m), self, m);
        }
    }

    /// Every power of 1 is 1.
    pub proof fn lemma_modpow_of_one(e: nat, m: GF2Vec128)
        requires
            m.narrow(),
        ensures
            Self::spec_one().spec_modpow(e, m) == Self::spec_one(),
        decreases e,
    {
        let one = Self::spec_one();
        if e > 0 {
            Self::lemma_modpow_of_one((e - 1) as nat, m);
            one.lemma_modpow_reduced(0, m);
            one.lemma_below_to_len(128);
            one.lemma_modpow_succ((e - 1) as nat, m);
            one.lemma_mul_mod_one(m);
        }
    }

    /// The power of a product is the product of the powers.
    pub proof fn lemma_modpow_product(self, b: GF2Vec128, e: nat, m: GF2Vec128)
        requires
            m.narrow(),
            self.below(128),
            b.below(128),
        ensures
            self.mul_mod(b, m).spec_modpow(e, m) == self.spec_modpow(e, m).mul_mod(
                b.spec_modpow(e, m),
                m,
            ),
        decreases e,
    {
        let one = Self::spec_one();
        let ab = self.mul_mod(b, m);
        if e == 0 {
            one.lemma_modpow_reduced(0, m);
            one.lemma_mul_mod_one(m);
        } else {
            let w = (e - 1) as nat;
            self.lemma_modpow_product(b, w, m);
            self.lemma_mul_mod_small(b, m);
            ab.lemma_below_to_len(128);
            self.lemma_below_to_len(128);
            b.lemma_below_to_len(128);
            ab.lemma_modpow_succ(w, m);
            self.lemma_modpow_succ(w, m);
            b.lemma_modpow_succ(w, m);
            self.lemma_modpow_reduced(w, m);
            b.lemma_modpow_reduced(w, m);
            self.spec_modpow(w, m).lemma_mul_mod_shuffle(b.spec_modpow(w, m), self, b, m);
        }
    }
}

/// `z^power` modulo `modulus`.
pub fn base_z_modpow(power: u128, modulus: GF2Vec128) -> (r: GF2Vec128)
    requires
        power == 0 || modulus != GF2Vec128::spec_zero(),
    ensures
        r == GF2Vec128::spec_z().spec_modpow(power as nat, modulus),
{
    let base = GF2Vec128 { state_low: 2, state_high: 0 };
    base.modpow(power, modulus)
}

/// The polynomial that stands for `jmp` steps of a generator whose
/// characteristic polynomial is `char_poly`: `z^jmp` modulo `char_poly`.
pub fn compute_jump_poly(jmp: u128, char_poly: GF2Vec128) -> (r: GF2Vec128)
    requires
        jmp == 0 || char_poly != GF2Vec128::spec_zero(),
    ensures
        r == GF2Vec128::spec_z().spec_modpow(jmp as nat, char_poly),
{
    base_z_modpow(jmp, char_poly)
}

} // verus!
