//! The xoroshiro128+ generator, its transition matrix, and jumps and
//! distances on its orbit.

use crate::berkowitz::{charpoly, lemma_berkowitz_monic, CharPoly};
use crate::error::Error;
use crate::gf2int::GF2Int;
use crate::gf2vec::{
    bit_at, compute_jump_poly, lemma_bit_xor, lemma_bits_equal, lemma_len128, GF2Vec128,
};
use crate::mat_builder::{
    injection, lemma_unit_dot, rotl_matrix, shl_matrix, MatBuilder, MatInverse,
};
use crate::matrix::{
    beside, canonical, dot_column, identity, dot_prefix, lemma_dot_add, lemma_dot_as_column, lemma_dot_column_add,
    lemma_dot_column_single, lemma_dot_identity, lemma_row_assoc, mat_add, mat_mul, row_add,
    row_bits, row_times, GF2Matrix,
};
use crate::pohlig_hellman::{
    bsgs_exhausted, bsgs_result, every_search_succeeds, gcd, lemma_bsgs_of_one,
    lemma_coprime_from_bezout, pohlig_hellman, pohlig_outcome, pohlig_returns, pohlig_trace,
    product, reproduces, solves, usable_moduli,
};
use crate::rng::RNG;
use vstd::prelude::*;

verus! {

/// The state of a xoroshiro128+ generator: two 64-bit words.
#[derive(Copy, Clone, Debug, PartialEq, Eq, Structural)]
pub struct Xoroshiro128Plus {
    pub seed_0: u64,
    pub seed_1: u64,
}

/// `x` rotated up by `k` places, for `0 < k < 64`.
pub open spec fn rotl64(x: u64, k: u64) -> u64 {
    (x << k) | (x >> ((64 - k) as u64))
}

/// The order of the multiplicative group in which the distances are
/// found: 2^128 - 1.
pub const GROUP_ORDER: u128 = 0xFFFF_FFFF_FFFF_FFFF_FFFF_FFFF_FFFF_FFFF;

/// The first half of the transition matrix after the first step of the
/// recurrence: the second word with the first added to it.
pub open spec fn mixed_block() -> Seq<Seq<bool>> {
    mat_add(injection(64, 64, 128), injection(0, 64, 128))
}

/// The transition matrix of the generator, put together from the
/// recurrence: the new first word beside the new second word.
pub open spec fn transition_matrix() -> Seq<Seq<bool>> {
    beside(
        mat_add(
            mat_add(mat_mul(injection(0, 64, 128), rotl_matrix(24), 64), mixed_block()),
            mat_mul(mixed_block(), shl_matrix(16), 64),
        ),
        mat_mul(mixed_block(), rotl_matrix(37), 64),
        64,
        64,
    )
}

/// Bit `i` of a 64-bit word; `false` beyond the word.
pub open spec fn bit64(x: u64, i: int) -> bool {
    0 <= i < 64 && (x >> (i as u64)) & 1 == 1
}

/// The entry of the transition matrix in row `i` and column `j`, read
/// off the recurrence: whether bit `i` of the state goes into bit `j`
/// of the next state.
pub open spec fn transition_entry(i: int, j: int) -> bool {
    if j < 64 {
        ((i < 64 && j == (i + 24) % 64) != ((i == 64 + j) != (i == j))) != ((64 <= i && j == i
            - 48) != (i < 64 && j == i + 16))
    } else {
        (64 <= i && j - 64 == (i - 64 + 37) % 64) != (i < 64 && j - 64 == (i + 37) % 64)
    }
}

/// The entries of the transition matrix are those of the recurrence.
pub proof fn lemma_transition_entries(i: int, j: int)
    requires
        0 <= i < 128,
        0 <= j < 128,
    ensures
        transition_matrix().len() == 128,
        transition_matrix()[i][j] == transition_entry(i, j),
{
    let inj0 = injection(0, 64, 128);
    let inj64 = injection(64, 64, 128);
    let x = mixed_block();
    assert(x[i] =~= row_add(inj64[i], inj0[i]));
    if j < 64 {
        lemma_unit_dot(inj0[i], rotl_matrix(24), i, j, 64);
        lemma_dot_add(inj64[i], inj0[i], shl_matrix(16), j, 64);
        lemma_unit_dot(inj64[i], shl_matrix(16), i - 64, j, 64);
        lemma_unit_dot(inj0[i], shl_matrix(16), i, j, 64);
    } else {
        let jj = j - 64;
        lemma_dot_add(inj64[i], inj0[i], rotl_matrix(37), jj, 64);
        lemma_unit_dot(inj64[i], rotl_matrix(37), i - 64, jj, 64);
        lemma_unit_dot(inj0[i], rotl_matrix(37), i, jj, 64);
    }
}

/// The bits of a state, lowest first, as a row.
pub open spec fn state_bits(s: Xoroshiro128Plus) -> Seq<bool> {
    Seq::new(128, |i: int| bit_at(s.spec_state(), i as nat))
}

/// The bits of the state as one number are the bits of the first word,
/// then those of the second.
pub proof fn lemma_state_bits(s: Xoroshiro128Plus, c: int)
    requires
        0 <= c < 128,
    ensures
        bit_at(s.spec_state(), c as nat) == (if c < 64 {
            bit64(s.seed_0, c)
        } else {
            bit64(s.seed_1, c - 64)
        }),
{
    let a0 = s.seed_0;
    let a1 = s.seed_1;
    let w = c as u128;
    if c < 64 {
        let k = c as u64;
        assert(((((a0 as u128) | ((a1 as u128) << 64u128)) >> w) & 1 == 1) == ((a0 >> k) & 1
            == 1)) by (bit_vector)
            requires
                w < 64,
                w == k as u128,
        ;
    } else {
        let k = (c - 64) as u64;
        assert(((((a0 as u128) | ((a1 as u128) << 64u128)) >> w) & 1 == 1) == ((a1 >> k) & 1
            == 1)) by (bit_vector)
            requires
                64 <= w < 128,
                w == (k as u128) + 64,
        ;
    }
}

/// The bits of the words of the next state, in terms of the bits of the
/// words of the state.
pub proof fn lemma_next_bits(s: Xoroshiro128Plus, c: int)
    requires
        0 <= c < 64,
    ensures
        bit64(s.spec_next().seed_0, c) == ((bit64(s.seed_0, (c + 40) % 64) != (bit64(s.seed_1, c)
            != bit64(s.seed_0, c))) != (c >= 16 && (bit64(s.seed_1, c - 16) != bit64(
            s.seed_0,
            c - 16,
        )))),
        bit64(s.spec_next().seed_1, c) == (bit64(s.seed_1, (c + 27) % 64) != bit64(
            s.seed_0,
            (c + 27) % 64,
        )),
{
    let a = s.seed_0;
    let b = s.seed_1;
    let k = c as u64;
    let r24 = ((c + 40) % 64) as u64;
    let r37 = ((c + 27) % 64) as u64;
    assert((((((a << 24u64) | (a >> 40u64)) ^ (b ^ a) ^ ((b ^ a) << 16u64)) >> k) & 1 == 1) == ((((
    a >> r24) & 1 == 1) != (((b >> k) & 1 == 1) != ((a >> k) & 1 == 1))) != (k >= 16 && (((b >> (
    (k - 16) as u64)) & 1 == 1) != ((a >> ((k - 16) as u64)) & 1 == 1))))) by (bit_vector)
        requires
            k < 64,
            r24 == (k + 40) % 64,
    ;
    assert((((((b ^ a) << 37u64) | ((b ^ a) >> 27u64)) >> k) & 1 == 1) == (((b >> r37) & 1 == 1)
        != ((a >> r37) & 1 == 1))) by (bit_vector)
        requires
            k < 64,
            r37 == (k + 27) % 64,
    ;
}

/// The product of the row of bits of a state with one of the first 64
/// columns of the transition matrix is a bit of the first word of the
/// next state.
proof fn lemma_matrix_first_word(s: Xoroshiro128Plus, c: int)
    requires
        0 <= c < 64,
    ensures
        dot_prefix(state_bits(s), transition_matrix(), c, 128) == bit64(s.spec_next().seed_0, c),
{
    let v = state_bits(s);
    let t = transition_matrix();
    let f = |i: int| transition_entry(i, c);
    assert forall|i: int| 0 <= i < 128 implies #[trigger] f(i) == t[i][c] by {
        lemma_transition_entries(i, c);
    }
    lemma_dot_as_column(v, t, c, f, 128);
    let a1 = (c + 40) % 64;
    let a4 = if c >= 16 {
        c + 48
    } else {
        -1
    };
    let a5 = c - 16;
    let f1 = |i: int| i == a1;
    let f2 = |i: int| i == 64 + c;
    let f3 = |i: int| i == c;
    let f4 = |i: int| i == a4;
    let f5 = |i: int| i == a5;
    let f23 = |i: int| (i == 64 + c) != (i == c);
    let f45 = |i: int| (i == a4) != (i == a5);
    let f123 = |i: int| (i == a1) != ((i == 64 + c) != (i == c));
    lemma_dot_column_single(v, f1, a1, 128);
    lemma_dot_column_single(v, f2, 64 + c, 128);
    lemma_dot_column_single(v, f3, c, 128);
    lemma_dot_column_single(v, f4, a4, 128);
    lemma_dot_column_single(v, f5, a5, 128);
    lemma_dot_column_add(v, f23, f2, f3, 128);
    lemma_dot_column_add(v, f45, f4, f5, 128);
    lemma_dot_column_add(v, f123, f1, f23, 128);
    lemma_dot_column_add(v, f, f123, f45, 128);
    assert(dot_column(v, f, 128) == ((v[a1] != (v[64 + c] != v[c])) != ((c >= 16 && v[c + 48]) != (
    c >= 16 && v[c - 16]))));
    lemma_next_bits(s, c);
    lemma_state_bits(s, a1);
    lemma_state_bits(s, 64 + c);
    lemma_state_bits(s, c);
    if c >= 16 {
        lemma_state_bits(s, c + 48);
        lemma_state_bits(s, c - 16);
    }
}

/// The product of the row of bits of a state with one of the last 64
/// columns of the transition matrix is a bit of the second word of the
/// next state.
proof fn lemma_matrix_second_word(s: Xoroshiro128Plus, c: int)
    requires
        0 <= c < 64,
    ensures
        dot_prefix(state_bits(s), transition_matrix(), 64 + c, 128) == bit64(
            s.spec_next().seed_1,
            c,
        ),
{
    let v = state_bits(s);
    let t = transition_matrix();
    let f = |i: int| transition_entry(i, 64 + c);
    assert forall|i: int| 0 <= i < 128 implies #[trigger] f(i) == t[i][64 + c] by {
        lemma_transition_entries(i, 64 + c);
    }
    lemma_dot_as_column(v, t, 64 + c, f, 128);
    let a = (c + 27) % 64;
    let f1 = |i: int| i == 64 + a;
    let f2 = |i: int| i == a;
    lemma_dot_column_single(v, f1, 64 + a, 128);
    lemma_dot_column_single(v, f2, a, 128);
    lemma_dot_column_add(v, f, f1, f2, 128);
    lemma_next_bits(s, c);
    lemma_state_bits(s, 64 + a);
    lemma_state_bits(s, a);
}

/// A state, as a row of bits, times the transition matrix is the next
/// state: bit `c` of the next state is the product of the row with
/// column `c` of the matrix.
pub proof fn lemma_matrix_is_next(s: Xoroshiro128Plus, c: int)
    requires
        0 <= c < 128,
    ensures
        dot_prefix(state_bits(s), transition_matrix(), c, 128) == bit_at(
            s.spec_next().spec_state(),
            c as nat,
        ),
{
    lemma_state_bits(s.spec_next(), c);
    if c < 64 {
        lemma_matrix_first_word(s, c);
    } else {
        lemma_matrix_second_word(s, c - 64);
    }
}

/// `p` holds the characteristic polynomial of the transition matrix,
/// lowest degree first.
pub open spec fn is_char_poly(p: GF2Vec128) -> bool {
    forall|i: nat|
        #![trigger p.coeff(i)]
        p.coeff(i) == (i <= 128 && charpoly(transition_matrix())[128 - i])
}

/// The characteristic polynomial of the transition matrix.
pub open spec fn spec_char_poly() -> GF2Vec128 {
    choose|p: GF2Vec128| is_char_poly(p)
}

/// The prime factors of 2^128 - 1.
pub open spec fn order_factors() -> Seq<u128> {
    seq![3u128, 5u128, 17u128, 257u128, 641u128, 65537u128, 274177u128, 6700417u128, 67280421310721u128]
}

/// The matrix whose row `i` holds the bits of the state after `i` steps,
/// for `i` below 128.
pub open spec fn spec_orbit(s: Xoroshiro128Plus) -> Seq<Seq<bool>> {
    Seq::new(
        128,
        |i: int| Seq::new(128, |j: int| bit_at(s.iterate(i as nat).spec_state(), j as nat)),
    )
}

/// `inv` is an inverse of the orbit matrix of `s`, on both sides.
pub open spec fn is_orbit_inverse(inv: GF2Matrix, s: Xoroshiro128Plus) -> bool {
    &&& inv.wf()
    &&& inv.height == 128
    &&& inv.width == 128
    &&& mat_mul(inv@, spec_orbit(s), 128) == identity(128)
    &&& mat_mul(spec_orbit(s), inv@, 128) == identity(128)
}

/// The first 128 states of the orbit of `s` are linearly independent:
/// the orbit matrix has an inverse.
pub open spec fn orbit_invertible(s: Xoroshiro128Plus) -> bool {
    exists|inv: GF2Matrix| is_orbit_inverse(inv, s)
}

/// The polynomial `h`, of degree below 128, applied to the state `s`
/// gives the state `t`.
pub open spec fn takes(s: Xoroshiro128Plus, h: GF2Vec128, t: Xoroshiro128Plus) -> bool {
    h.state_high == 0 && s.xor_orbit(h.state_low, 128) == t
}

/// A jump by `k` steps takes the state `s` to the state `t`: the
/// polynomial `z^k` modulo the characteristic polynomial, applied to
/// `s`, gives `t`.
pub open spec fn jump_reaches(s: Xoroshiro128Plus, k: u128, t: Xoroshiro128Plus) -> bool {
    s.xor_orbit(GF2Vec128::spec_z().spec_modpow(k as nat, spec_char_poly()).state_low, 128) == t
}

/// The logarithm of the polynomial `h` that `distance` looks for gives
/// `k`.
pub open spec fn log_returns(h: GF2Vec128, k: nat) -> bool {
    let chi = spec_char_poly();
    let z = GF2Vec128::spec_z();
    pohlig_returns(
        z,
        z.spec_modpow((GROUP_ORDER - 1) as nat, chi),
        h,
        chi,
        GROUP_ORDER,
        order_factors(),
        k,
    )
}

/// What `distance` returns: `k` comes from the logarithm of a polynomial
/// `h` that takes the state `s` to the state `t`, and `z^k` is that
/// polynomial, so that a jump by `k` steps takes `s` to `t`.
pub open spec fn distance_outcome(s: Xoroshiro128Plus, t: Xoroshiro128Plus, k: u128) -> bool {
    &&& jump_reaches(s, k, t)
    &&& exists|h: GF2Vec128| #[trigger]
        takes(s, h, t) && log_returns(h, k as nat) && reproduces(k as nat, h, spec_char_poly())
}

/// The search from `s` to `t` comes to an end: for the polynomial that
/// takes `s` to `t`, the search in every subgroup finds a logarithm, and
/// what the logarithms give reproduces the polynomial.
pub open spec fn search_succeeds(s: Xoroshiro128Plus, t: Xoroshiro128Plus) -> bool {
    let chi = spec_char_poly();
    let z = GF2Vec128::spec_z();
    forall|h: GF2Vec128| #[trigger]
        takes(s, h, t) ==> every_search_succeeds(
            z,
            z.spec_modpow((GROUP_ORDER - 1) as nat, chi),
            h,
            chi,
            GROUP_ORDER,
            order_factors(),
        ) && (forall|k: nat| #[trigger] log_returns(h, k) ==> reproduces(k, h, chi))
}

/// The prime factors of 2^128 - 1 are a usable list of moduli: none is
/// zero, their product is 2^128 - 1, and no two share a factor, as the
/// combinations below show.
pub proof fn lemma_order_factors_usable()
    ensures
        usable_moduli(order_factors()),
        product(order_factors(), 9) == GROUP_ORDER,
{
    let f = order_factors();
    assert(f[0] == 3u128);
    assert(f[1] == 5u128);
    assert(f[2] == 17u128);
    assert(f[3] == 257u128);
    assert(f[4] == 641u128);
    assert(f[5] == 65537u128);
    assert(f[6] == 274177u128);
    assert(f[7] == 6700417u128);
    assert(f[8] == 67280421310721u128);
    reveal_with_fuel(product, 10);
    assert(product(f, 1) == 3nat);
    assert(product(f, 2) == 15nat);
    assert(product(f, 3) == 255nat);
    assert(product(f, 4) == 65535nat);
    assert(product(f, 5) == 42007935nat);
    assert(product(f, 6) == 2753074036095nat);
    assert(product(f, 7) == 754829579994418815nat);
    assert(product(f, 8) == 5057672949897463733145855nat);
    assert(product(f, 9) == 340282366920938463463374607431768211455nat);
    assert forall|i: int, j: int| 0 <= i < f.len() && 0 <= j < f.len() && i != j implies gcd(
        #[trigger] f[j] as nat,
        #[trigger] f[i] as nat,
    ) == 1 by {
        if j == 0 && i == 1 {
            lemma_coprime_from_bezout(3, 5, 2, -1);
        } else if j == 0 && i == 2 {
            lemma_coprime_from_bezout(3, 17, 6, -1);
        } else if j == 0 && i == 3 {
            lemma_coprime_from_bezout(3, 257, 86, -1);
        } else if j == 0 && i == 4 {
            lemma_coprime_from_bezout(3, 641, 214, -1);
        } else if j == 0 && i == 5 {
            lemma_coprime_from_bezout(3, 65537, 21846, -1);
        } else if j == 0 && i == 6 {
            lemma_coprime_from_bezout(3, 274177, -91392, 1);
        } else if j == 0 && i == 7 {
            lemma_coprime_from_bezout(3, 6700417, -2233472, 1);
        } else if j == 0 && i == 8 {
            lemma_coprime_from_bezout(3, 67280421310721, 22426807103574, -1);
        } else if j == 1 && i == 0 {
            lemma_coprime_from_bezout(5, 3, -1, 2);
        } else if j == 1 && i == 2 {
            lemma_coprime_from_bezout(5, 17, 7, -2);
        } else if j == 1 && i == 3 {
            lemma_coprime_from_bezout(5, 257, 103, -2);
        } else if j == 1 && i == 4 {
            lemma_coprime_from_bezout(5, 641, -128, 1);
        } else if j == 1 && i == 5 {
            lemma_coprime_from_bezout(5, 65537, 26215, -2);
        } else if j == 1 && i == 6 {
            lemma_coprime_from_bezout(5, 274177, 109671, -2);
        } else if j == 1 && i == 7 {
            lemma_coprime_from_bezout(5, 6700417, 2680167, -2);
        } else if j == 1 && i == 8 {
            lemma_coprime_from_bezout(5, 67280421310721, -13456084262144, 1);
        } else if j == 2 && i == 0 {
            lemma_coprime_from_bezout(17, 3, -1, 6);
        } else if j == 2 && i == 1 {
            lemma_coprime_from_bezout(17, 5, -2, 7);
        } else if j == 2 && i == 3 {
            lemma_coprime_from_bezout(17, 257, 121, -8);
        } else if j == 2 && i == 4 {
            lemma_coprime_from_bezout(17, 641, 264, -7);
        } else if j == 2 && i == 5 {
            lemma_coprime_from_bezout(17, 65537, 30841, -8);
        } else if j == 2 && i == 6 {
            lemma_coprime_from_bezout(17, 274177, -16128, 1);
        } else if j == 2 && i == 7 {
            lemma_coprime_from_bezout(17, 6700417, -2364853, 6);
        } else if j == 2 && i == 8 {
            lemma_coprime_from_bezout(17, 67280421310721, 31661374734457, -8);
        } else if j == 3 && i == 0 {
            lemma_coprime_from_bezout(257, 3, -1, 86);
        } else if j == 3 && i == 1 {
            lemma_coprime_from_bezout(257, 5, -2, 103);
        } else if j == 3 && i == 2 {
            lemma_coprime_from_bezout(257, 17, -8, 121);
        } else if j == 3 && i == 4 {
            lemma_coprime_from_bezout(257, 641, -212, 85);
        } else if j == 3 && i == 5 {
            lemma_coprime_from_bezout(257, 65537, 32641, -128);
        } else if j == 3 && i == 6 {
            lemma_coprime_from_bezout(257, 274177, -110951, 104);
        } else if j == 3 && i == 7 {
            lemma_coprime_from_bezout(257, 6700417, 1694658, -65);
        } else if j == 3 && i == 8 {
            lemma_coprime_from_bezout(257, 67280421310721, 5497621974806, -21);
        } else if j == 4 && i == 0 {
            lemma_coprime_from_bezout(641, 3, -1, 214);
        } else if j == 4 && i == 1 {
            lemma_coprime_from_bezout(641, 5, 1, -128);
        } else if j == 4 && i == 2 {
            lemma_coprime_from_bezout(641, 17, -7, 264);
        } else if j == 4 && i == 3 {
            lemma_coprime_from_bezout(641, 257, 85, -212);
        } else if j == 4 && i == 5 {
            lemma_coprime_from_bezout(641, 65537, -24947, 244);
        } else if j == 4 && i == 6 {
            lemma_coprime_from_bezout(641, 274177, 6416, -15);
        } else if j == 4 && i == 7 {
            lemma_coprime_from_bezout(641, 6700417, -1066213, 102);
        } else if j == 4 && i == 8 {
            lemma_coprime_from_bezout(641, 67280421310721, -24665989092074, 235);
        } else if j == 5 && i == 0 {
            lemma_coprime_from_bezout(65537, 3, -1, 21846);
        } else if j == 5 && i == 1 {
            lemma_coprime_from_bezout(65537, 5, -2, 26215);
        } else if j == 5 && i == 2 {
            lemma_coprime_from_bezout(65537, 17, -8, 30841);
        } else if j == 5 && i == 3 {
            lemma_coprime_from_bezout(65537, 257, -128, 32641);
        } else if j == 5 && i == 4 {
            lemma_coprime_from_bezout(65537, 641, 244, -24947);
        } else if j == 5 && i == 6 {
            lemma_coprime_from_bezout(65537, 274177, 121783, -29110);
        } else if j == 5 && i == 7 {
            lemma_coprime_from_bezout(65537, 6700417, 3317441, -32448);
        } else if j == 5 && i == 8 {
            lemma_coprime_from_bezout(65537, 67280421310721, 27465712372355, -26754);
        } else if j == 6 && i == 0 {
            lemma_coprime_from_bezout(274177, 3, 1, -91392);
        } else if j == 6 && i == 1 {
            lemma_coprime_from_bezout(274177, 5, -2, 109671);
        } else if j == 6 && i == 2 {
            lemma_coprime_from_bezout(274177, 17, 1, -16128);
        } else if j == 6 && i == 3 {
            lemma_coprime_from_bezout(274177, 257, 104, -110951);
        } else if j == 6 && i == 4 {
            lemma_coprime_from_bezout(274177, 641, -15, 6416);
        } else if j == 6 && i == 5 {
            lemma_coprime_from_bezout(274177, 65537, -29110, 121783);
        } else if j == 6 && i == 7 {
            lemma_coprime_from_bezout(274177, 6700417, -90886, 3719);
        } else if j == 6 && i == 8 {
            lemma_coprime_from_bezout(274177, 67280421310721, -10745648428557, 43790);
        } else if j == 7 && i == 0 {
            lemma_coprime_from_bezout(6700417, 3, 1, -2233472);
        } else if j == 7 && i == 1 {
            lemma_coprime_from_bezout(6700417, 5, -2, 2680167);
        } else if j == 7 && i == 2 {
            lemma_coprime_from_bezout(6700417, 17, 6, -2364853);
        } else if j == 7 && i == 3 {
            lemma_coprime_from_bezout(6700417, 257, -65, 1694658);
        } else if j == 7 && i == 4 {
            lemma_coprime_from_bezout(6700417, 641, 102, -1066213);
        } else if j == 7 && i == 5 {
            lemma_coprime_from_bezout(6700417, 65537, -32448, 3317441);
        } else if j == 7 && i == 6 {
            lemma_coprime_from_bezout(6700417, 274177, 3719, -90886);
        } else if j == 7 && i == 8 {
            lemma_coprime_from_bezout(6700417, 67280421310721, 32263673637313, -3213120);
        } else if j == 8 && i == 0 {
            lemma_coprime_from_bezout(67280421310721, 3, -1, 22426807103574);
        } else if j == 8 && i == 1 {
            lemma_coprime_from_bezout(67280421310721, 5, 1, -13456084262144);
        } else if j == 8 && i == 2 {
            lemma_coprime_from_bezout(67280421310721, 17, -8, 31661374734457);
        } else if j == 8 && i == 3 {
            lemma_coprime_from_bezout(67280421310721, 257, -21, 5497621974806);
        } else if j == 8 && i == 4 {
            lemma_coprime_from_bezout(67280421310721, 641, 235, -24665989092074);
        } else if j == 8 && i == 5 {
            lemma_coprime_from_bezout(67280421310721, 65537, -26754, 27465712372355);
        } else if j == 8 && i == 6 {
            lemma_coprime_from_bezout(67280421310721, 274177, 43790, -10745648428557);
        } else if j == 8 && i == 7 {
            lemma_coprime_from_bezout(67280421310721, 6700417, -3213120, 32263673637313);
        }
    }
}

/// Where the first 128 states of the orbit of `s` are independent, one
/// polynomial only takes `s` to `t`.
pub proof fn lemma_takes_unique(
    s: Xoroshiro128Plus,
    h1: GF2Vec128,
    h2: GF2Vec128,
    t: Xoroshiro128Plus,
)
    requires
        orbit_invertible(s),
        takes(s, h1, t),
        takes(s, h2, t),
    ensures
        h1 == h2,
{
    let x = choose|inv: GF2Matrix| is_orbit_inverse(inv, s);
    let b = spec_orbit(s);
    let r1 = Seq::new(128, |l: int| bit_at(h1.state_low, l as nat));
    let r2 = Seq::new(128, |l: int| bit_at(h2.state_low, l as nat));
    assert forall|c: int| 0 <= c < 128 implies r1[c] == r2[c] by {
        assert forall|d: int| 0 <= d < 128 implies row_times(r1, b, 128)[d] == row_times(
            r2,
            b,
            128,
        )[d] by {
            s.lemma_orbit_bits(h1.state_low, r1, b, d as nat, 128);
            s.lemma_orbit_bits(h2.state_low, r2, b, d as nat, 128);
        }
        assert(row_times(r1, b, 128) =~= row_times(r2, b, 128));
        lemma_row_assoc(r1, b, x@, 128, c);
        lemma_row_assoc(r2, b, x@, 128, c);
        lemma_dot_identity(r1, 128, c, 128);
        lemma_dot_identity(r2, 128, c, 128);
    }
    assert forall|i: nat| i < 128 implies bit_at(h1.state_low, i) == bit_at(h2.state_low, i) by {
        assert(r1[i as int] == r2[i as int]);
    }
    lemma_bits_equal(h1.state_low, h2.state_low);
}

/// The logarithm of the polynomial 1 is found in every subgroup, and
/// what comes of it is 0.
pub proof fn lemma_log_of_one(chi: GF2Vec128, k: nat)
    requires
        is_char_poly(chi),
    ensures
        every_search_succeeds(
            GF2Vec128::spec_z(),
            GF2Vec128::spec_z().spec_modpow((GROUP_ORDER - 1) as nat, spec_char_poly()),
            GF2Vec128::spec_one(),
            spec_char_poly(),
            GROUP_ORDER,
            order_factors(),
        ),
        log_returns(GF2Vec128::spec_one(), k) ==> k == 0,
{
    let z = GF2Vec128::spec_z();
    let one = GF2Vec128::spec_one();
    Xoroshiro128Plus::lemma_char_poly_unique(chi, spec_char_poly());
    lemma_berkowitz_monic(transition_matrix());
    assert(chi.coeff(128));
    chi.lemma_bit_len();
    assert(chi.bit_len() == 129) by {
        if chi.bit_len() > 129 {
            assert(chi.coeff((chi.bit_len() - 1) as nat));
        }
    }
    assert(chi.narrow()) by {
        GF2Vec128::spec_zero().lemma_bit_len();
    }
    let back = z.spec_modpow((GROUP_ORDER - 1) as nat, chi);
    let f = order_factors();
    lemma_order_factors_usable();
    assert(f[0] == 3u128);
    assert(f[1] == 5u128);
    assert(f[2] == 17u128);
    assert(f[3] == 257u128);
    assert(f[4] == 641u128);
    assert(f[5] == 65537u128);
    assert(f[6] == 274177u128);
    assert(f[7] == 6700417u128);
    assert(f[8] == 67280421310721u128);
    assert forall|i: int| 0 <= i < f.len() && f[i] > 0 implies !bsgs_exhausted(
        z.spec_modpow((GROUP_ORDER / #[trigger] f[i]) as nat, chi),
        one.spec_modpow((GROUP_ORDER / f[i]) as nat, chi),
        back.spec_modpow((GROUP_ORDER / f[i]) as nat, chi),
        chi,
        f[i],
    ) by {
        let e = (GROUP_ORDER / f[i]) as nat;
        let g = z.spec_modpow(e, chi);
        let b = back.spec_modpow(e, chi);
        GF2Vec128::lemma_modpow_of_one(e, chi);
            if i == 0 {
                lemma_bsgs_of_one(g, b, chi, 3u128, 2);
            } else if i == 1 {
                lemma_bsgs_of_one(g, b, chi, 5u128, 3);
            } else if i == 2 {
                lemma_bsgs_of_one(g, b, chi, 17u128, 5);
            } else if i == 3 {
                lemma_bsgs_of_one(g, b, chi, 257u128, 17);
            } else if i == 4 {
                lemma_bsgs_of_one(g, b, chi, 641u128, 26);
            } else if i == 5 {
                lemma_bsgs_of_one(g, b, chi, 65537u128, 257);
            } else if i == 6 {
                lemma_bsgs_of_one(g, b, chi, 274177u128, 524);
            } else if i == 7 {
                lemma_bsgs_of_one(g, b, chi, 6700417u128, 2589);
            } else if i == 8 {
                lemma_bsgs_of_one(g, b, chi, 67280421310721u128, 8202465);
            }
    }
    if log_returns(one, k) {
        let (rems, cands, n) = choose|rems: Seq<u128>, cands: Seq<u128>, n: nat|
            #![trigger pohlig_trace(one, chi, f, rems, cands, n, k)]
            pohlig_outcome(z, back, one, chi, GROUP_ORDER, f, rems, n, k) && pohlig_trace(
                one,
                chi,
                f,
                rems,
                cands,
                n,
                k,
            );
        reveal_with_fuel(product, 3);
        if n > 0 {
            let e = (GROUP_ORDER / f[0]) as nat;
            GF2Vec128::lemma_modpow_of_one(e, chi);
            lemma_bsgs_of_one(z.spec_modpow(e, chi), back.spec_modpow(e, chi), chi, 3u128, 2);
            assert(bsgs_result(
                z.spec_modpow(e, chi),
                one,
                back.spec_modpow(e, chi),
                chi,
                3u128,
                rems[0] as nat,
            ));
            assert(rems[0] == 0);
            assert(solves(f, rems, 1, cands[0] as nat));
            assert(product(f, 1) == 3);
            assert((cands[0] as nat) % (f[0] as nat) == (rems[0] as nat) % (f[0] as nat));
            assert(cands[0] == 0);
            z.lemma_modpow_zero(chi);
            assert(reproduces(0, one, chi));
        }
    }
}

/// The distance from a state to itself is 0: where the first 128 states
/// of the orbit of `s` are independent, the search from `s` to `s` comes
/// to an end, and 0 is all that it can give.
pub proof fn lemma_distance_to_itself(s: Xoroshiro128Plus, chi: GF2Vec128)
    requires
        is_char_poly(chi),
        orbit_invertible(s),
    ensures
        search_succeeds(s, s),
        forall|k: u128| #[trigger] distance_outcome(s, s, k) ==> k == 0,
{
    let one = GF2Vec128::spec_one();
    assert(1u128 << 0u128 == 1u128) by (bit_vector);
    s.lemma_orbit_single(0, 128);
    assert(takes(s, one, s));
    Xoroshiro128Plus::lemma_char_poly_unique(chi, spec_char_poly());
    lemma_log_of_one(chi, 0);
    assert forall|h: GF2Vec128| #[trigger] takes(s, h, s) implies every_search_succeeds(
        GF2Vec128::spec_z(),
        GF2Vec128::spec_z().spec_modpow((GROUP_ORDER - 1) as nat, spec_char_poly()),
        h,
        spec_char_poly(),
        GROUP_ORDER,
        order_factors(),
    ) && (forall|k: nat| #[trigger] log_returns(h, k) ==> reproduces(k, h, spec_char_poly())) by {
        lemma_takes_unique(s, h, one, s);
        assert forall|k: nat| #[trigger] log_returns(h, k) implies reproduces(
            k,
            h,
            spec_char_poly(),
        ) by {
            lemma_log_of_one(chi, k);
            GF2Vec128::spec_z().lemma_modpow_zero(chi);
        }
    }
    assert forall|k: u128| #[trigger] distance_outcome(s, s, k) implies k == 0 by {
        let h = choose|h: GF2Vec128| #[trigger]
            takes(s, h, s) && log_returns(h, k as nat) && reproduces(
                k as nat,
                h,
                spec_char_poly(),
            );
        lemma_takes_unique(s, h, one, s);
        lemma_log_of_one(chi, k as nat);
    }
}

impl Xoroshiro128Plus {
    /// The state after one step.
    pub open spec fn spec_next(self) -> Xoroshiro128Plus {
        let s1 = self.seed_1 ^ self.seed_0;
        Xoroshiro128Plus {
            seed_0: rotl64(self.seed_0, 24) ^ s1 ^ (s1 << 16u64),
            seed_1: rotl64(s1, 37),
        }
    }

    /// The state after `n` steps.
    pub open spec fn iterate(self, n: nat) -> Xoroshiro128Plus
        decreases n,
    {
        if n == 0 {
            self
        } else {
            self.iterate((n - 1) as nat).spec_next()
        }
    }

    /// The sum of two states, word by word.
    pub open spec fn spec_xor(self, rhs: Xoroshiro128Plus) -> Xoroshiro128Plus {
        Xoroshiro128Plus { seed_0: self.seed_0 ^ rhs.seed_0, seed_1: self.seed_1 ^ rhs.seed_1 }
    }

    /// The state as one number: the first word below the second.
    pub open spec fn spec_state(self) -> u128 {
        (self.seed_0 as u128) | ((self.seed_1 as u128) << 64u128)
    }

    /// The sum of the states after `i` steps, over the `i < n` at which
    /// bit `i` of `p` is set: the polynomial `p` applied to the state.
    pub open spec fn xor_orbit(self, p: u128, n: nat) -> Xoroshiro128Plus
        decreases n,
    {
        if n == 0 {
            Xoroshiro128Plus { seed_0: 0, seed_1: 0 }
        } else {
            let acc = self.xor_orbit(p, (n - 1) as nat);
            if bit_at(p, (n - 1) as nat) {
                acc.spec_xor(self.iterate((n - 1) as nat))
            } else {
                acc
            }
        }
    }

    /// A generator seeded with `seed_0`; the second word is fixed.
    pub fn new(seed_0: u64) -> (r: Xoroshiro128Plus)
        ensures
            r.seed_0 == seed_0,
            r.seed_1 == 0x82A2B175229D6A5Bu64,
    {
        Xoroshiro128Plus { seed_0, seed_1: 0x82A2B175229D6A5B }
    }

    /// Adds `rhs` to the state, word by word.
    pub fn bitxor_assign(&mut self, rhs: Xoroshiro128Plus)
        ensures
            *final(self) == old(self).spec_xor(rhs),
    {
        self.seed_0 = self.seed_0 ^ rhs.seed_0;
        self.seed_1 = self.seed_1 ^ rhs.seed_1;
    }

    /// The characteristic polynomial of the transition matrix, lowest
    /// degree first.
    pub fn char_poly() -> (r: GF2Vec128)
        ensures
            is_char_poly(r),
            r == spec_char_poly(),
            r != GF2Vec128::spec_zero(),
            r.coeff(128),
    {
        let mut matrix = Self::matrix();
        let coeffs = matrix.compute_charpoly_coeffs();
        let mut reversed: Vec<GF2Int> = Vec::new();
        let mut i: usize = 0;
        while i < 129
            invariant
                coeffs.len() == 129,
                i <= 129,
                reversed.len() == i,
                forall|k: int| 0 <= k < i ==> reversed[k] == coeffs[128 - k],
            decreases 129 - i,
        {
            reversed.push(coeffs[128 - i]);
            i = i + 1;
        }
        let r = GF2Vec128::new(reversed);
        proof {
            lemma_berkowitz_monic(transition_matrix());
            assert forall|i: nat| #![trigger r.coeff(i)] r.coeff(i) == (i <= 128 && charpoly(
                transition_matrix(),
            )[128 - i]) by {
                if i <= 128 {
                    assert(row_bits(coeffs@)[128 - i] == coeffs[128 - i].bit());
                }
            }
            assert(r.coeff(128));
            Self::lemma_char_poly_unique(r, spec_char_poly());
            GF2Vec128::spec_zero().lemma_bit_len();
        }
        r
    }

    /// The coefficients fix the characteristic polynomial.
    pub proof fn lemma_char_poly_unique(p: GF2Vec128, q: GF2Vec128)
        requires
            is_char_poly(p),
        ensures
            is_char_poly(spec_char_poly()),
            is_char_poly(q) ==> p == q,
    {
        if is_char_poly(q) {
            assert forall|i: nat| i < 256 implies p.coeff(i) == q.coeff(i) by {}
            p.lemma_equal(q);
        }
    }

    /// Adding the zero state changes nothing.
    pub proof fn lemma_xor_zero(self)
        ensures
            (Xoroshiro128Plus { seed_0: 0, seed_1: 0 }).spec_xor(self) == self,
    {
        let a = self.seed_0;
        let b = self.seed_1;
        assert(0u64 ^ a == a) by (bit_vector);
        assert(0u64 ^ b == b) by (bit_vector);
    }

    /// The polynomial `z^k` applied to a state is the state after `k`
    /// steps.
    pub proof fn lemma_orbit_single(self, k: nat, n: nat)
        requires
            k < 128,
        ensures
            self.xor_orbit(1u128 << (k as u128), n) == (if k < n {
                self.iterate(k)
            } else {
                Xoroshiro128Plus { seed_0: 0, seed_1: 0 }
            }),
        decreases n,
    {
        if n > 0 {
            self.lemma_orbit_single(k, (n - 1) as nat);
            crate::gf2vec::lemma_bit_single(k, (n - 1) as nat);
            self.iterate(k).lemma_xor_zero();
        }
    }

    /// A jump by no step leaves the state as it is.
    pub proof fn lemma_jump_zero(self, chi: GF2Vec128)
        ensures
            self.xor_orbit(GF2Vec128::spec_z().spec_modpow(0, chi).state_low, 128) == self,
    {
        GF2Vec128::spec_z().lemma_modpow_zero(chi);
        assert(1u128 << 0u128 == 1u128) by (bit_vector);
        self.lemma_orbit_single(0, 128);
    }

    /// A jump by one step is one step of the generator, for every
    /// modulus of degree two or more.
    pub proof fn lemma_jump_one(self, chi: GF2Vec128)
        requires
            chi.bit_len() > 2,
        ensures
            self.xor_orbit(GF2Vec128::spec_z().spec_modpow(1, chi).state_low, 128)
                == self.spec_next(),
    {
        let z = GF2Vec128::spec_z();
        z.lemma_modpow_one(chi);
        assert(z.bit_len() == 2) by {
            reveal_with_fuel(crate::gf2vec::len128, 3);
        }
        z.lemma_bit_len();
        z.lemma_reduce_skip(chi, 2, 256);
        assert(z.reduce_from(chi, 2) == z);
        assert(1u128 << 1u128 == 2u128) by (bit_vector);
        self.lemma_orbit_single(1, 128);
        assert(self.iterate(1) == self.iterate(0).spec_next());
    }

    /// With the characteristic polynomial of the transition matrix as
    /// the modulus, a jump by no step is the identity and a jump by one
    /// step is one step of the generator.
    pub proof fn lemma_jump_boundaries(self, chi: GF2Vec128)
        requires
            is_char_poly(chi),
        ensures
            chi == spec_char_poly(),
            self.xor_orbit(GF2Vec128::spec_z().spec_modpow(0, spec_char_poly()).state_low, 128)
                == self,
            self.xor_orbit(GF2Vec128::spec_z().spec_modpow(1, spec_char_poly()).state_low, 128)
                == self.spec_next(),
    {
        Self::lemma_char_poly_unique(chi, spec_char_poly());
        lemma_berkowitz_monic(transition_matrix());
        assert(chi.coeff(128));
        chi.lemma_bit_len();
        self.lemma_jump_zero(chi);
        self.lemma_jump_one(chi);
    }

    /// Applies a polynomial in the state transition to the state: the
    /// states after `i` steps are added up over the coefficients of
    /// `z^i` in `jump_poly`, for `i` below 128.
    pub fn apply_jump_poly(&mut self, jump_poly: GF2Vec128)
        ensures
            *final(self) == old(self).xor_orbit(jump_poly.state_low, 128),
    {
        let mut final_state = Xoroshiro128Plus { seed_0: 0, seed_1: 0 };
        let mut bit: u32 = 0;
        while bit < 128
            invariant
                bit <= 128,
                *self == old(self).iterate(bit as nat),
                final_state == old(self).xor_orbit(jump_poly.state_low, bit as nat),
            decreases 128 - bit,
        {
            if ((jump_poly.state_low >> (bit as u128)) & 1) != 0 {
                final_state.bitxor_assign(*self);
            }
            proof {
                let x = jump_poly.state_low;
                let b = bit as u128;
                assert((((x >> b) & 1) != 0) == ((x >> b) & 1 == 1)) by (bit_vector);
            }
            self.next_state();
            bit = bit + 1;
        }
        self.seed_0 = final_state.seed_0;
        self.seed_1 = final_state.seed_1;
    }

    /// The matrix whose row `i` holds the bits of the state after `i`
    /// steps, for `i` below 128.
    pub fn orbit_matrix(&self) -> (r: GF2Matrix)
        ensures
            r.wf(),
            r.height == 128,
            r.width == 128,
            r@ == spec_orbit(*self),
            forall|i: int, j: int|
                0 <= i < 128 && 0 <= j < 128 ==> #[trigger] r@[i][j] == bit_at(
                    self.iterate(i as nat).spec_state(),
                    j as nat,
                ),
    {
        let mut start = *self;
        let mut data: Vec<Vec<GF2Int>> = Vec::new();
        let mut i: usize = 0;
        while i < 128
            invariant
                i <= 128,
                start == self.iterate(i as nat),
                data.len() == i,
                forall|a: int| 0 <= a < i ==> (#[trigger] data[a]).len() == 128 && canonical(data[a]@),
                forall|a: int, b: int|
                    0 <= a < i && 0 <= b < 128 ==> (#[trigger] data[a][b]).bit() == bit_at(
                        self.iterate(a as nat).spec_state(),
                        b as nat,
                    ),
            decreases 128 - i,
        {
            let state = start.state();
            let row = state_row(state);
            data.push(row);
            start.next_state();
            i = i + 1;
        }
        let r = GF2Matrix { height: 128, width: 128, data };
        assert forall|i: int, j: int| 0 <= i < 128 && 0 <= j < 128 implies #[trigger] r@[i][j]
            == bit_at(self.iterate(i as nat).spec_state(), j as nat) by {
            assert(r@[i] == row_bits(r.data[i]@));
        }
        assert(r@ =~~= spec_orbit(*self));
        r
    }

    /// The polynomial that takes this state to `other`: its coefficients
    /// are the row of bits of `other` times the inverse of the orbit
    /// matrix of this state.
    pub fn jump_poly_to(&self, other: Xoroshiro128Plus) -> (r: Result<GF2Vec128, Error>)
        ensures
            r matches Ok(p) ==> takes(*self, p, other),
            r matches Err(e) ==> e == Error::SingularMatrix,
            r is Ok <==> orbit_invertible(*self),
    {
        let jump_application_mat = self.orbit_matrix();
        let ghost orbit = jump_application_mat;
        let jump_application_mat_inv = match jump_application_mat.inverse() {
            Ok(inv) => inv,
            Err(e) => {
                proof {
                    if orbit_invertible(*self) {
                        let w = choose|inv: GF2Matrix| is_orbit_inverse(inv, *self);
                        assert(w.inverse_of(&orbit));
                    }
                }
                return Err(e);
            },
        };
        proof {
            assert(jump_application_mat_inv.inverse_of(&orbit));
            assert(is_orbit_inverse(jump_application_mat_inv, *self));
        }
        let mut end = other;
        let end_state = end.state();
        let mut rows: Vec<Vec<GF2Int>> = Vec::new();
        rows.push(state_row(end_state));
        let jump_poly_mat = GF2Matrix { height: 1, width: 128, data: rows };
        let product = jump_poly_mat.dot(&jump_application_mat_inv);
        let jump_poly = copy_first_row(&product);
        let p = GF2Vec128::new(jump_poly);
        proof {
            let b = orbit@;
            let inv = jump_application_mat_inv@;
            let w = row_bits(jump_poly_mat.data[0]@);
            let h = row_bits(jump_poly@);
            assert(jump_poly_mat@[0] == w);
            assert(product@[0] == h);
            assert(h == row_times(w, inv, 128));
            assert forall|l: int| 0 <= l < 128 implies h[l] == bit_at(p.state_low, l as nat) by {
                assert(p.coeff(l as nat) == jump_poly[l].bit());
            }
            assert forall|c: nat| c < 128 implies bit_at(
                self.xor_orbit(p.state_low, 128).spec_state(),
                c,
            ) == bit_at(other.spec_state(), c) by {
                lemma_row_assoc(w, inv, b, 128, c as int);
                lemma_dot_identity(w, 128, c as int, 128);
                self.lemma_orbit_bits(p.state_low, h, b, c, 128);
            }
            lemma_bits_equal(self.xor_orbit(p.state_low, 128).spec_state(), other.spec_state());
            self.xor_orbit(p.state_low, 128).lemma_state_injective(other);
            assert forall|i: nat| i < 128 implies bit_at(p.state_high, i) == bit_at(0u128, i) by {
                assert(!p.coeff(i + 128));
                lemma_len128(0);
            }
            lemma_bits_equal(p.state_high, 0);
        }
        Ok(p)
    }

    /// The state as one number is the sum of the numbers of the summands.
    pub proof fn lemma_state_xor(self, rhs: Xoroshiro128Plus)
        ensures
            self.spec_xor(rhs).spec_state() == self.spec_state() ^ rhs.spec_state(),
    {
        let a0 = self.seed_0;
        let a1 = self.seed_1;
        let b0 = rhs.seed_0;
        let b1 = rhs.seed_1;
        assert((((a0 ^ b0) as u128) | (((a1 ^ b1) as u128) << 64u128)) == ((a0 as u128) | ((
        a1 as u128) << 64u128)) ^ ((b0 as u128) | ((b1 as u128) << 64u128))) by (bit_vector);
    }

    /// Two states with the same number are the same state.
    pub proof fn lemma_state_injective(self, rhs: Xoroshiro128Plus)
        requires
            self.spec_state() == rhs.spec_state(),
        ensures
            self == rhs,
    {
        let a0 = self.seed_0;
        let a1 = self.seed_1;
        let b0 = rhs.seed_0;
        let b1 = rhs.seed_1;
        assert(((a0 as u128) | ((a1 as u128) << 64u128)) == ((b0 as u128) | ((b1 as u128)
            << 64u128)) ==> a0 == b0 && a1 == b1) by (bit_vector);
    }

    /// Bit `c` of a polynomial applied to the state is the product of
    /// the coefficients with column `c` of the orbit matrix.
    pub proof fn lemma_orbit_bits(self, p: u128, h: Seq<bool>, b: Seq<Seq<bool>>, c: nat, n: nat)
        requires
            n <= 128,
            c < 128,
            h.len() == 128,
            forall|l: int| 0 <= l < 128 ==> h[l] == bit_at(p, l as nat),
            forall|i: int|
                0 <= i < 128 ==> #[trigger] b[i][c as int] == bit_at(
                    self.iterate(i as nat).spec_state(),
                    c,
                ),
        ensures
            bit_at(self.xor_orbit(p, n).spec_state(), c) == dot_prefix(h, b, c as int, n),
        decreases n,
    {
        if n == 0 {
            lemma_len128(0);
            assert((0u64 as u128) | ((0u64 as u128) << 64u128) == 0u128) by (bit_vector);
        } else {
            let k = (n - 1) as nat;
            self.lemma_orbit_bits(p, h, b, c, k);
            let acc = self.xor_orbit(p, k);
            acc.lemma_state_xor(self.iterate(k));
            lemma_bit_xor(acc.spec_state(), self.iterate(k).spec_state(), c);
            assert(b[k as int][c as int] == bit_at(self.iterate(k).spec_state(), c));
        }
    }
}

/// The first row of a matrix.
fn copy_first_row(m: &GF2Matrix) -> (r: Vec<GF2Int>)
    requires
        m.wf(),
        m.height >= 1,
    ensures
        r@ == m.data[0]@,
{
    crate::matrix::copy_row(&m.data[0])
}

/// The 128 bits of a state as a row of field elements, lowest first.
pub fn state_row(state: u128) -> (r: Vec<GF2Int>)
    ensures
        r.len() == 128,
        canonical(r@),
        forall|j: int| 0 <= j < 128 ==> (#[trigger] r[j]).bit() == bit_at(state, j as nat),
{
    let mut row: Vec<GF2Int> = Vec::new();
    let mut j: u32 = 0;
    while j < 128
        invariant
            j <= 128,
            row.len() == j,
            canonical(row@),
            forall|b: int| 0 <= b < j ==> (#[trigger] row[b]).bit() == bit_at(state, b as nat),
        decreases 128 - j,
    {
        let bit: u128 = (state >> (j as u128)) & 1;
        row.push(GF2Int::from_bool(bit == 1));
        j = j + 1;
    }
    row
}

impl RNG for Xoroshiro128Plus {
    type AdvanceInt = u128;

    type MatrixInt = GF2Int;

    fn next_state(&mut self)
        ensures
            *final(self) == old(self).spec_next(),
    {
        let s0: u64 = self.seed_0;
        let mut s1: u64 = self.seed_1;
        s1 = s1 ^ s0;
        self.seed_0 = ((s0 << 24u64) | (s0 >> 40u64)) ^ s1 ^ (s1 << 16u64);
        self.seed_1 = (s1 << 37u64) | (s1 >> 27u64);
    }

    fn matrix() -> (r: GF2Matrix)
        ensures
            r.wf(),
            r.height == 128,
            r.width == 128,
            r@ == transition_matrix(),
            forall|s: Xoroshiro128Plus, c: int|
                0 <= c < 128 ==> #[trigger] dot_prefix(state_bits(s), r@, c, 128) == bit_at(
                    s.spec_next().spec_state(),
                    c as nat,
                ),
    {

        let s0_mat = MatBuilder::new(0, 64, 128);
        let mut s1_mat = MatBuilder::new(64, 64, 128);
        s1_mat.bitxor_assign(s0_mat.to_owned());
        let s0_new = s0_mat.rotate_left(24).bitxor(s1_mat.to_owned()).bitxor(
            s1_mat.to_owned().shl(16),
        );
        s1_mat.rotate_left_assign(37);
        let r = s0_new.inner_matrix.concat_columns(&s1_mat.inner_matrix);
        proof {
            assert forall|s: Xoroshiro128Plus, c: int| 0 <= c < 128 implies #[trigger] dot_prefix(
                state_bits(s),
                r@,
                c,
                128,
            ) == bit_at(s.spec_next().spec_state(), c as nat) by {
                lemma_matrix_is_next(s, c);
            }
        }
        r
    }

    fn advance(&mut self, adv: u128)
        ensures
            *final(self) == old(self).iterate(adv as nat),
    {
        let mut done: u128 = 0;
        while done < adv
            invariant
                done <= adv,
                *self == old(self).iterate(done as nat),
            decreases adv - done,
        {
            self.next_state();
            done = done + 1;
        }
    }

    fn jump(&mut self, jmp: u128)
        ensures
            *final(self) == old(self).xor_orbit(
                GF2Vec128::spec_z().spec_modpow(jmp as nat, spec_char_poly()).state_low,
                128,
            ),
    {
        let char_poly = Self::char_poly();
        let jump_poly = compute_jump_poly(jmp, char_poly);
        self.apply_jump_poly(jump_poly);
    }

    fn distance(&mut self, other: Self) -> (r: Result<u128, Error>)
        ensures
            *final(self) == *old(self),
            r matches Ok(k) ==> distance_outcome(*old(self), other, k),
            r == Err::<u128, Error>(Error::SingularMatrix) <==> !orbit_invertible(*old(self)),
            r matches Err(e) ==> e == Error::SingularMatrix || e == Error::RemainderNotFound,
            orbit_invertible(*old(self)) && search_succeeds(*old(self), other) ==> r is Ok,
    {
        let char_poly = Self::char_poly();
        let jump_poly = match self.jump_poly_to(other) {
            Ok(p) => p,
            Err(e) => {
                return Err(e);
            },
        };
        let primes: Vec<u128> = vec![
            3u128,
            5u128,
            17u128,
            257u128,
            641u128,
            65537u128,
            274177u128,
            6700417u128,
            67280421310721u128,
        ];
        assert(primes@ =~= order_factors());
        proof {
            lemma_order_factors_usable();
        }
        let found = pohlig_hellman(
            GF2Vec128 { state_low: 2, state_high: 0 },
            compute_jump_poly(0xFFFF_FFFF_FFFF_FFFF_FFFF_FFFF_FFFF_FFFE, char_poly),
            jump_poly,
            char_poly,
            GROUP_ORDER,
            primes,
        );
        let k: u128 = match found {
            Ok(k) => k,
            Err(e) => {
                return Err(e);
            },
        };
        proof {
            assert(log_returns(jump_poly, k as nat));
        }
        let test_jump = compute_jump_poly(k, char_poly);
        if test_jump.state_low != jump_poly.state_low {
            return Err(Error::RemainderNotFound);
        }
        proof {
            assert(takes(*self, jump_poly, other));
            assert(reproduces(k as nat, jump_poly, spec_char_poly()));
        }
        Ok(k)
    }

    fn state(&mut self) -> (r: u128)
        ensures
            r == old(self).spec_state(),
            *final(self) == *old(self),
    {
        (self.seed_0 as u128) | ((self.seed_1 as u128) << 64u128)
    }
}

} // verus!
