use xoroshiro_distance::error::Error;
use xoroshiro_distance::gf2vec::{compute_jump_poly, GF2Vec128};
use xoroshiro_distance::rng::RNG;
use xoroshiro_distance::xoroshiro::{state_row, Xoroshiro128Plus, GROUP_ORDER};

const SEED: u64 = 0x1234567887654321;

#[test]
fn new_fixes_the_second_word() {
    let mut g = Xoroshiro128Plus::new(SEED);
    assert_eq!(g.seed_0, SEED);
    assert_eq!(g.seed_1, 0x82A2B175229D6A5B);
    assert_eq!(g.state(), (SEED as u128) | (0x82A2B175229D6A5Bu128 << 64));
}

#[test]
fn next_state_follows_the_recurrence() {
    let mut g = Xoroshiro128Plus { seed_0: 1, seed_1: 0 };
    g.next_state();
    assert_eq!(g.seed_0, (1u64 << 24) ^ 1 ^ (1 << 16));
    assert_eq!(g.seed_1, 1u64 << 37);
    let mut h = Xoroshiro128Plus::new(SEED);
    let s0 = h.seed_0;
    let s1 = h.seed_1 ^ s0;
    h.next_state();
    assert_eq!(h.seed_0, s0.rotate_left(24) ^ s1 ^ (s1 << 16));
    assert_eq!(h.seed_1, s1.rotate_left(37));
}

#[test]
fn matrix_times_state_is_the_next_state() {
    let m = Xoroshiro128Plus::matrix();
    let mut g = Xoroshiro128Plus::new(SEED);
    let before = state_row(g.state());
    g.next_state();
    let after = state_row(g.state());
    for j in 0..128usize {
        let mut acc = 0u8;
        for i in 0..128usize {
            acc ^= before[i].val & m.get(i, j).val;
        }
        assert_eq!(acc, after[j].val);
    }
}

#[test]
fn characteristic_polynomial_reduces_to_zero_modulo_itself() {
    let chi = Xoroshiro128Plus::char_poly();
    assert_eq!(chi.state_high, 1);
    assert_eq!(chi.last_bit_pos(), 129);
    assert_eq!(chi.modulo(chi), GF2Vec128 { state_low: 0, state_high: 0 });
    assert_eq!(compute_jump_poly(GROUP_ORDER, chi), GF2Vec128 { state_low: 1, state_high: 0 });
}

#[test]
fn jump_by_zero_and_by_one() {
    let start = Xoroshiro128Plus::new(SEED);
    let mut g = start;
    g.jump(0);
    assert_eq!(g, start);
    g.jump(1);
    let mut h = start;
    h.next_state();
    assert_eq!(g, h);
}

#[test]
fn jump_agrees_with_advance() {
    let start = Xoroshiro128Plus::new(SEED);
    let mut g = start;
    g.jump(1000);
    let mut h = start;
    h.advance(1000);
    assert_eq!(g, h);
    h.advance(0);
    assert_eq!(g, h);
}

#[test]
fn jumps_add_up() {
    let start = Xoroshiro128Plus::new(SEED);
    let a: u128 = 0x0123_4567_89ab_cdef_0011_2233_4455_6677;
    let b: u128 = 0xfedc_ba98_7654_3210_8899_aabb_ccdd_eeff;
    let mut g = start;
    g.jump(a);
    g.jump(b);
    let mut h = start;
    h.jump((a + b) % GROUP_ORDER);
    assert_eq!(g, h);
}

#[test]
fn jump_by_the_group_order_is_the_identity() {
    let start = Xoroshiro128Plus::new(SEED);
    let mut g = start;
    g.jump(GROUP_ORDER);
    assert_eq!(g, start);
}

#[test]
fn jump_back_is_one_step_back() {
    let start = Xoroshiro128Plus::new(SEED);
    let mut g = start;
    g.jump(GROUP_ORDER - 1);
    g.next_state();
    assert_eq!(g, start);
    let chi = Xoroshiro128Plus::char_poly();
    let back = compute_jump_poly(GROUP_ORDER - 1, chi);
    let z = GF2Vec128 { state_low: 2, state_high: 0 };
    assert_eq!(back.mul(z).modulo(chi), GF2Vec128 { state_low: 1, state_high: 0 });
    let mut h = start;
    h.apply_jump_poly(back);
    h.next_state();
    assert_eq!(h, start);
}

#[test]
fn jump_and_complementary_jump_return() {
    let start = Xoroshiro128Plus::new(SEED);
    let k: u128 = 0x0f0f_1234_5678_9abc_def0_0fed_cba9_8765;
    let mut g = start;
    g.jump(k);
    g.jump(GROUP_ORDER - k);
    assert_eq!(g, start);
}

#[test]
fn distance_to_itself_is_zero() {
    let mut g = Xoroshiro128Plus::new(SEED);
    let h = g;
    assert_eq!(g.distance(h), Ok(0));
}

#[test]
fn distance_after_one_step() {
    let mut g = Xoroshiro128Plus::new(SEED);
    let mut h = g;
    h.next_state();
    assert_eq!(g.distance(h), Ok(1));
}

#[test]
fn distance_after_a_thousand_steps() {
    let mut g = Xoroshiro128Plus::new(SEED);
    let mut h = g;
    h.advance(1000);
    assert_eq!(g.distance(h), Ok(1000));
}

#[test]
fn distance_recovers_jumps_of_growing_width() {
    let mut g = Xoroshiro128Plus::new(SEED);
    let mut source = Xoroshiro128Plus::new(7);
    for w in [1u32, 2, 3, 8, 17, 33, 48] {
        source.next_state();
        let raw = source.state();
        let k = (1u128 << (w - 1)) | (raw & ((1u128 << (w - 1)) - 1));
        let mut h = g;
        h.jump(k);
        assert_eq!(g.distance(h), Ok(k));
    }
}

#[test]
fn distance_from_the_zero_state_fails() {
    let mut g = Xoroshiro128Plus { seed_0: 0, seed_1: 0 };
    let h = Xoroshiro128Plus::new(SEED);
    assert_eq!(g.distance(h), Err(Error::SingularMatrix));
}

#[test]
fn jump_poly_to_gives_the_polynomial_of_the_jump() {
    let g = Xoroshiro128Plus::new(SEED);
    let chi = Xoroshiro128Plus::char_poly();
    let k: u128 = 123_456_789;
    let mut h = g;
    h.jump(k);
    let p = g.jump_poly_to(h).unwrap();
    assert_eq!(p, compute_jump_poly(k, chi));
    let mut again = g;
    again.apply_jump_poly(p);
    assert_eq!(again, h);
}

#[test]
fn distance_recovers_wide_jumps() {
    let mut g = Xoroshiro128Plus::new(SEED);
    let mut source = Xoroshiro128Plus::new(11);
    for w in [56u32, 64, 72, 80] {
        source.next_state();
        let raw = source.state();
        let k = (1u128 << (w - 1)) | (raw & ((1u128 << (w - 1)) - 1));
        let mut h = g;
        h.jump(k);
        assert_eq!(g.distance(h), Ok(k));
    }
}

#[test]
fn xor_of_states_is_word_by_word() {
    let mut g = Xoroshiro128Plus { seed_0: 0b1100, seed_1: 0b1010 };
    g.bitxor_assign(Xoroshiro128Plus { seed_0: 0b1010, seed_1: 0b1010 });
    assert_eq!(g, Xoroshiro128Plus { seed_0: 0b0110, seed_1: 0 });
}

#[test]
fn orbit_matrix_holds_the_first_states() {
    let g = Xoroshiro128Plus::new(SEED);
    let m = g.orbit_matrix();
    let mut h = g;
    for i in 0..128usize {
        let row = state_row(h.state());
        for j in 0..128usize {
            assert_eq!(m.get(i, j).val, row[j].val);
        }
        h.next_state();
    }
}

#[test]
fn transition_matrix_holds_bits_only() {
    let m = Xoroshiro128Plus::matrix();
    assert_eq!(m.height, 128);
    assert_eq!(m.width, 128);
    for row in m.data.iter() {
        assert_eq!(row.len(), 128);
        for entry in row.iter() {
            assert!(entry.val <= 1);
        }
    }
}
