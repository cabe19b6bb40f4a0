use xoroshiro_distance::berkowitz::{berkowitz_toeplitz_matrix, berkowitz_vector, CharPoly};
use xoroshiro_distance::error::Error;
use xoroshiro_distance::gf2int::GF2Int;
use xoroshiro_distance::gf2vec::{base_z_modpow, compute_jump_poly, GF2Vec128};
use xoroshiro_distance::mat_builder::{mat_rotl, mat_shl, MatBuilder, MatInverse};
use xoroshiro_distance::matrix::GF2Matrix;
use xoroshiro_distance::pohlig_hellman::{
    baby_step_giant_step, baby_steps_chunk, ceil_sqrt, chinese_remainder_theorem, first_positions,
    giant_steps_chunk, modular_inverse, pohlig_hellman, search_runs,
};

fn poly(low: u128, high: u128) -> GF2Vec128 {
    GF2Vec128 { state_low: low, state_high: high }
}

fn matrix_of(rows: &[&[u8]]) -> GF2Matrix {
    let data: Vec<Vec<GF2Int>> =
        rows.iter().map(|r| r.iter().map(|v| GF2Int::new(*v)).collect()).collect();
    GF2Matrix { height: rows.len(), width: if rows.is_empty() { 0 } else { rows[0].len() }, data }
}

fn bits_of(m: &GF2Matrix) -> Vec<Vec<u8>> {
    m.data.iter().map(|r| r.iter().map(|v| v.val).collect()).collect()
}

#[test]
fn scalar_sum_difference_and_product() {
    for a in 0..2u8 {
        for b in 0..2u8 {
            let x = GF2Int::new(a);
            let y = GF2Int::new(b);
            assert_eq!(x.add(y).val, a ^ b);
            assert_eq!(x.sub(y).val, a ^ b);
            assert_eq!(x.mul(y).val, a & b);
        }
    }
}

#[test]
fn scalar_new_keeps_the_low_bit() {
    assert_eq!(GF2Int::new(0).val, 0);
    assert_eq!(GF2Int::new(1).val, 1);
    assert_eq!(GF2Int::new(2).val, 0);
    assert_eq!(GF2Int::new(255).val, 1);
    assert!(GF2Int::zero().is_zero());
    assert!(GF2Int::one().is_one());
    assert!(!GF2Int::one().is_zero());
    assert!(GF2Int::from_bool(true).is_set());
}

#[test]
fn scalar_division_is_refused() {
    assert_eq!(GF2Int::one().div(GF2Int::one()), Err(Error::DivisionUndefined));
    assert_eq!(GF2Int::zero().div(GF2Int::one()), Err(Error::DivisionUndefined));
}

#[test]
fn polynomial_from_coefficients() {
    let mut coeffs = vec![GF2Int::new(0); 130];
    coeffs[0] = GF2Int::new(1);
    coeffs[5] = GF2Int::new(1);
    coeffs[128] = GF2Int::new(1);
    coeffs[129] = GF2Int::new(1);
    let p = GF2Vec128::new(coeffs);
    assert_eq!(p, poly(0b100001, 0b11));
    assert_eq!(GF2Vec128::new(vec![]), poly(0, 0));
    let long = vec![GF2Int::new(1); 300];
    assert_eq!(GF2Vec128::new(long), poly(u128::MAX, u128::MAX));
}

#[test]
fn polynomial_shifts_cross_the_register_boundary() {
    let p = poly(1 << 127, 0);
    assert_eq!(p.shl(1), poly(0, 1));
    assert_eq!(p.shl(0), p);
    assert_eq!(poly(0, 1).shr(1), poly(1 << 127, 0));
    assert_eq!(poly(0b1011, 0).shl(128), poly(0, 0b1011));
    assert_eq!(poly(0b1011, 0).shl(130), poly(0, 0b101100));
    assert_eq!(poly(0, 0b1011).shr(128), poly(0b1011, 0));
    assert_eq!(poly(0, 0b1011).shr(129), poly(0b101, 0));
    assert_eq!(poly(3, 5).shl(256), poly(0, 0));
    assert_eq!(poly(3, 5).shr(256), poly(0, 0));
    assert_eq!(poly(3, 5).shl(1000), poly(0, 0));
    assert_eq!(poly(0, 1 << 127).shl(1), poly(0, 0));
    assert_eq!(poly(0x8000_0000_0000_0000_0000_0000_0000_0001, 1).shl(4), poly(0x10, 0x18));
    assert_eq!(poly(0x10, 0x18).shr(4), poly(0x8000_0000_0000_0000_0000_0000_0000_0001, 1));
}

#[test]
fn polynomial_xor_and_tests() {
    assert_eq!(poly(0b1100, 1).bitxor(poly(0b1010, 1)), poly(0b0110, 0));
    assert!(poly(0, 0).is_zero());
    assert!(!poly(0, 1).is_zero());
    assert!(poly(1, 0).is_one());
    assert!(!poly(1, 1).is_one());
    assert!(poly(0b100, 0).bit(2));
    assert!(!poly(0b100, 0).bit(3));
    assert!(poly(0, 1).bit(128));
    assert!(!poly(u128::MAX, u128::MAX).bit(256));
}

#[test]
fn polynomial_last_bit_pos() {
    assert_eq!(poly(1, 0).last_bit_pos(), 1);
    assert_eq!(poly(0b1000, 0).last_bit_pos(), 4);
    assert_eq!(poly(u128::MAX, 0).last_bit_pos(), 128);
    assert_eq!(poly(0, 1).last_bit_pos(), 129);
    assert_eq!(poly(5, 2).last_bit_pos(), 130);
    assert_eq!(poly(0, 1 << 127).last_bit_pos(), 256);
}

#[test]
fn polynomial_product() {
    // (z + 1)(z + 1) = z^2 + 1
    assert_eq!(poly(0b11, 0).mul(poly(0b11, 0)), poly(0b101, 0));
    // (z^2 + z + 1)(z + 1) = z^3 + 1
    assert_eq!(poly(0b111, 0).mul(poly(0b11, 0)), poly(0b1001, 0));
    assert_eq!(poly(0b111, 0).mul(poly(0, 0)), poly(0, 0));
    assert_eq!(poly(0, 0).mul(poly(0b111, 0)), poly(0, 0));
    assert_eq!(poly(0b1011, 7).mul(poly(1, 0)), poly(0b1011, 7));
    assert_eq!(poly(1 << 127, 0).mul(poly(1 << 127, 0)), poly(0, 1 << 126));
    assert_eq!(poly(0b11, 0).mul(poly(0, 1 << 127)), poly(0, 1 << 127));
}

#[test]
fn polynomial_remainder() {
    // z^3 + 1 modulo z^2 + z + 1 is zero
    assert_eq!(poly(0b1001, 0).modulo(poly(0b111, 0)), poly(0, 0));
    // z^4 modulo z^2 + z + 1 is z
    assert_eq!(poly(0b10000, 0).modulo(poly(0b111, 0)), poly(0b10, 0));
    assert_eq!(poly(0b101, 0).modulo(poly(0b1000, 0)), poly(0b101, 0));
    assert_eq!(poly(0b111, 0).modulo(poly(0b111, 0)), poly(0, 0));
    assert_eq!(poly(0, 0).modulo(poly(0b111, 0)), poly(0, 0));
    assert_eq!(poly(0b1011, 0).modulo(poly(1, 0)), poly(0, 0));
    // z^128 modulo z^128 + z + 1 is z + 1
    assert_eq!(poly(0, 1).modulo(poly(0b11, 1)), poly(0b11, 0));
    // z^255 modulo z^128 + 1 is z^127
    assert_eq!(poly(0, 1 << 127).modulo(poly(1, 1)), poly(1 << 127, 0));
}

#[test]
fn product_reduces_like_the_product_of_the_remainders() {
    let chi = poly(0b10000111, 1);
    let a = poly(0x1234_5678_9abc_def0_0fed_cba9_8765_4321, 0);
    let b = poly(0xdead_beef_0bad_f00d_cafe_babe_0123_4567, 0);
    let a2 = a.bitxor(chi);
    let lhs = a.mul(b).modulo(chi);
    let rhs = a.modulo(chi).mul(b.modulo(chi)).modulo(chi);
    assert_eq!(lhs, rhs);
    assert_eq!(a2.modulo(chi), a);
}

#[test]
fn modpow_small_exponents() {
    let chi = poly(0b10011, 0); // z^4 + z + 1
    let a = poly(0b110, 0);
    assert_eq!(a.modpow(0, chi), poly(1, 0));
    assert_eq!(a.modpow(1, chi), a.modulo(chi));
    let mut acc = poly(1, 0);
    for e in 0..40u128 {
        assert_eq!(a.modpow(e, chi), acc);
        acc = acc.mul(a).modulo(chi);
    }
    // z generates the 15 units modulo z^4 + z + 1
    assert_eq!(base_z_modpow(15, chi), poly(1, 0));
    assert_eq!(base_z_modpow(4, chi), poly(0b11, 0));
    assert_eq!(compute_jump_poly(5, chi), poly(0b110, 0));
    assert_eq!(poly(0b10011, 0).modpow(0, chi), poly(1, 0));
    assert_eq!(poly(0b110000, 0).modpow(1, chi), poly(0b110000, 0).modulo(chi));
}

#[test]
fn matrix_product_and_sum() {
    let a = matrix_of(&[&[1, 1], &[0, 1]]);
    let b = matrix_of(&[&[1, 0], &[1, 1]]);
    assert_eq!(bits_of(&a.dot(&b)), vec![vec![0, 1], vec![1, 1]]);
    assert_eq!(bits_of(&a.add(&b)), vec![vec![0, 1], vec![1, 0]]);
    assert_eq!(bits_of(&GF2Matrix::eye(2)), vec![vec![1, 0], vec![0, 1]]);
    assert_eq!(bits_of(&GF2Matrix::zeros(1, 3)), vec![vec![0, 0, 0]]);
    assert_eq!(bits_of(&a.slice(0, 1, 1, 2)), vec![vec![1]]);
    assert_eq!(bits_of(&a.concat_columns(&b)), vec![vec![1, 1, 1, 0], vec![0, 1, 1, 1]]);
    assert_eq!(a.get(0, 1).val, 1);
    assert_eq!(bits_of(&a.to_owned()), bits_of(&a));
}

#[test]
fn matrix_inverse_times_matrix_is_identity() {
    let a = matrix_of(&[&[0, 1, 1, 0], &[1, 1, 0, 0], &[1, 0, 0, 1], &[0, 0, 1, 1]]);
    let singular = a.to_owned().inverse();
    assert_eq!(singular.err(), Some(Error::SingularMatrix));
    let b = matrix_of(&[&[0, 1, 1, 0], &[1, 1, 0, 0], &[1, 0, 0, 1], &[0, 1, 1, 1]]);
    let inv = b.to_owned().inverse().unwrap();
    assert_eq!(bits_of(&b.dot(&inv)), bits_of(&GF2Matrix::eye(4)));
    assert_eq!(bits_of(&inv.dot(&b)), bits_of(&GF2Matrix::eye(4)));
    let unit = GF2Matrix::eye(5).inverse().unwrap();
    assert_eq!(bits_of(&unit), bits_of(&GF2Matrix::eye(5)));
    assert_eq!(GF2Matrix::zeros(3, 3).inverse().err(), Some(Error::SingularMatrix));
    let empty = GF2Matrix::zeros(0, 0).inverse().unwrap();
    assert_eq!(empty.height, 0);
}

#[test]
fn shift_and_rotation_matrices() {
    let s = mat_shl(3);
    let r = mat_rotl(3);
    for i in 0..64usize {
        for j in 0..64usize {
            assert_eq!(s.get(i, j).val == 1, j == i + 3);
            assert_eq!(r.get(i, j).val == 1, j == (i + 3) % 64);
        }
    }
    assert_eq!(bits_of(&mat_shl(64)), bits_of(&GF2Matrix::zeros(64, 64)));
    assert_eq!(bits_of(&mat_rotl(64)), bits_of(&GF2Matrix::eye(64)));
    let b = MatBuilder::new(1, 2, 4);
    assert_eq!(bits_of(&b.inner_matrix), vec![vec![0, 0], vec![1, 0], vec![0, 1], vec![0, 0]]);
}

#[test]
fn builder_algebra() {
    let mut a = MatBuilder::new(0, 64, 128);
    let b = MatBuilder::new(64, 64, 128);
    let sum = a.to_owned().bitxor(b.to_owned());
    for i in 0..128usize {
        for j in 0..64usize {
            assert_eq!(sum.inner_matrix.get(i, j).val == 1, i == j || i == j + 64);
        }
    }
    let rotated = a.rotate_left(24);
    let shifted = a.to_owned().shl(16);
    for i in 0..128usize {
        for j in 0..64usize {
            assert_eq!(rotated.inner_matrix.get(i, j).val == 1, i < 64 && j == (i + 24) % 64);
            assert_eq!(shifted.inner_matrix.get(i, j).val == 1, i < 64 && j == i + 16);
        }
    }
    a.rotate_left_assign(24);
    assert_eq!(bits_of(&a.inner_matrix), bits_of(&rotated.inner_matrix));
    a.bitxor_assign(b);
    assert_eq!(a.inner_matrix.get(64, 0).val, 1);
}

#[test]
fn characteristic_polynomial_of_small_matrices() {
    let mut empty = GF2Matrix::zeros(0, 0);
    assert_eq!(empty.compute_charpoly_coeffs().iter().map(|c| c.val).collect::<Vec<u8>>(), vec![1]);
    let mut one = matrix_of(&[&[1]]);
    assert_eq!(one.compute_charpoly_coeffs().iter().map(|c| c.val).collect::<Vec<u8>>(), vec![1, 1]);
    // x^2 + x + 1
    let mut fib = matrix_of(&[&[1, 1], &[1, 0]]);
    assert_eq!(
        fib.compute_charpoly_coeffs().iter().map(|c| c.val).collect::<Vec<u8>>(),
        vec![1, 1, 1]
    );
    // the companion matrix of x^3 + x + 1
    let mut companion = matrix_of(&[&[0, 0, 1], &[1, 0, 1], &[0, 1, 0]]);
    assert_eq!(
        companion.compute_charpoly_coeffs().iter().map(|c| c.val).collect::<Vec<u8>>(),
        vec![1, 0, 1, 1]
    );
    let mut identity = GF2Matrix::eye(3);
    // (x + 1)^3 = x^3 + x^2 + x + 1
    assert_eq!(
        identity.compute_charpoly_coeffs().iter().map(|c| c.val).collect::<Vec<u8>>(),
        vec![1, 1, 1, 1]
    );
    let (minor, toeplitz) = berkowitz_toeplitz_matrix(&fib);
    assert_eq!(bits_of(&minor), vec![vec![0]]);
    assert_eq!(bits_of(&toeplitz), vec![vec![1, 0], vec![1, 1], vec![1, 1]]);
    assert_eq!(bits_of(&berkowitz_vector(&fib)), vec![vec![1], vec![1], vec![1]]);
}

#[test]
fn matrix_is_a_root_of_its_characteristic_polynomial() {
    let mut a = matrix_of(&[
        &[1, 0, 1, 1, 0],
        &[0, 1, 1, 0, 1],
        &[1, 1, 0, 0, 0],
        &[0, 1, 0, 1, 1],
        &[1, 0, 0, 1, 0],
    ]);
    let coeffs = a.compute_charpoly_coeffs();
    assert_eq!(coeffs.len(), 6);
    let mut total = GF2Matrix::zeros(5, 5);
    for c in coeffs.iter() {
        total = total.dot(&a);
        if c.val == 1 {
            total = total.add(&GF2Matrix::eye(5));
        }
    }
    assert_eq!(bits_of(&total), bits_of(&GF2Matrix::zeros(5, 5)));
}

#[test]
fn modular_inverse_values() {
    assert_eq!(modular_inverse(3, 7), 5);
    assert_eq!(modular_inverse(10, 7), 5);
    assert_eq!(modular_inverse(1, 5), 1);
    assert_eq!(modular_inverse(5, 1), 0);
    assert_eq!(modular_inverse(35, 3), 2);
    let m: u128 = 67280421310721;
    let a: u128 = (u128::MAX) / m;
    let inv = modular_inverse(a, m);
    assert_eq!(((a % m) * inv) % m, 1);
}

#[test]
fn remainders_are_recovered() {
    assert_eq!(chinese_remainder_theorem(vec![3, 5, 7], vec![2, 3, 2]), Ok(23));
    assert_eq!(chinese_remainder_theorem(vec![], vec![]), Ok(0));
    assert_eq!(chinese_remainder_theorem(vec![3], vec![0]), Ok(0));
    assert_eq!(chinese_remainder_theorem(vec![4, 6], vec![1, 1]), Err(Error::BadModuli));
    assert_eq!(chinese_remainder_theorem(vec![3, 0], vec![1, 0]), Err(Error::BadModuli));
    assert_eq!(
        chinese_remainder_theorem(vec![u128::MAX, 2], vec![1, 0]),
        Err(Error::BadModuli)
    );
    let primes: Vec<u128> = vec![3, 5, 17, 257, 641, 65537, 274177, 6700417, 67280421310721];
    let k: u128 = 0x0123_4567_89ab_cdef_fedc_ba98_7654_3210;
    let rems: Vec<u128> = primes.iter().map(|p| k % p).collect();
    assert_eq!(chinese_remainder_theorem(primes.clone(), rems), Ok(k));
    let top: u128 = u128::MAX - 1;
    let rems: Vec<u128> = primes.iter().map(|p| top % p).collect();
    assert_eq!(chinese_remainder_theorem(primes, rems), Ok(top));
}

#[test]
fn rounded_up_square_roots() {
    assert_eq!(ceil_sqrt(0), 0);
    assert_eq!(ceil_sqrt(1), 1);
    assert_eq!(ceil_sqrt(2), 2);
    assert_eq!(ceil_sqrt(3), 2);
    assert_eq!(ceil_sqrt(4), 2);
    assert_eq!(ceil_sqrt(5), 3);
    assert_eq!(ceil_sqrt(257), 17);
    assert_eq!(ceil_sqrt(67280421310721), 8202465);
    assert_eq!(ceil_sqrt(u128::MAX), 1 << 64);
}

#[test]
fn logarithm_in_a_small_field() {
    // z generates the 15 units modulo z^4 + z + 1; z^14 is its inverse
    let chi = poly(0b10011, 0);
    let z = poly(0b10, 0);
    let back = base_z_modpow(14, chi);
    for k in 0..15u128 {
        let h = base_z_modpow(k, chi);
        assert_eq!(baby_step_giant_step(z, h, back, chi, 15), Ok(k));
        assert_eq!(pohlig_hellman(z, back, h, chi, 15, vec![3, 5]), Ok(k));
    }
    assert_eq!(
        baby_step_giant_step(z, poly(0, 0), back, chi, 15),
        Err(Error::RemainderNotFound)
    );
    assert_eq!(
        pohlig_hellman(z, back, poly(0, 0), chi, 15, vec![3, 5]),
        Err(Error::RemainderNotFound)
    );
    assert_eq!(pohlig_hellman(z, back, z, chi, 15, vec![3, 0]), Ok(1));
    assert_eq!(pohlig_hellman(z, back, poly(0b100, 0), chi, 15, vec![0, 5]), Err(Error::BadModuli));
}

#[test]
fn search_shared_out_in_runs() {
    // z generates the 15 units modulo z^4 + z + 1; the steps are 4 wide
    let chi = poly(0b10011, 0);
    let z = poly(0b10, 0);
    let back = base_z_modpow(14, chi);
    let mut table_values = baby_steps_chunk(z, chi, 0, 2);
    table_values.extend(baby_steps_chunk(z, chi, 2, 2));
    assert_eq!(table_values, vec![0b1, 0b10, 0b100, 0b1000]);
    assert_eq!(baby_steps_chunk(z, chi, 3, 0), Vec::<u128>::new());
    let table = first_positions(&table_values);
    assert_eq!(table.len(), 4);
    assert_eq!(table.get(&0b100), Some(&2));
    let repeated = first_positions(&vec![7, 9, 7, 9, 3]);
    assert_eq!(repeated.get(&7), Some(&0));
    assert_eq!(repeated.get(&9), Some(&1));
    assert_eq!(repeated.get(&3), Some(&4));
    assert_eq!(repeated.get(&5), None);
    let giant = back.modpow(4, chi);
    for k in 0..15u128 {
        let h = base_z_modpow(k, chi);
        let first = giant_steps_chunk(h, giant, chi, &table, 0, 2, 4);
        let second = giant_steps_chunk(h, giant, chi, &table, 2, 2, 4);
        if k < 8 {
            assert_eq!(first, Some(k));
        } else {
            assert_eq!(first, None);
            assert_eq!(second, Some(k));
        }
    }
    assert_eq!(giant_steps_chunk(poly(0, 0), giant, chi, &table, 0, 4, 4), None);
}

#[test]
fn inverse_with_a_large_modulus_needs_wide_products() {
    let m: u128 = (1u128 << 127) - 1;
    let a: u128 = 0x1234_5678_9abc_def0_1234_5678_9abc_def1;
    let inv = modular_inverse(a, m);
    assert!(inv < m);
    // a * inv = 1 modulo m, checked by doubling
    let mut acc: u128 = 0;
    let mut bit = 127;
    while bit > 0 {
        bit -= 1;
        acc = (acc << 1) % m;
        if (inv >> bit) & 1 == 1 {
            acc = (acc + a % m) % m;
        }
    }
    assert_eq!(acc, 1);
}

#[test]
fn product_is_commutative_and_associative() {
    let a = poly(0x1234_5678_9abc_def0_0fed_cba9_8765_4321, 0x55);
    let b = poly(0xdead_beef_0bad_f00d_cafe_babe_0123_4567, 0);
    let c = poly(0x0f0f_f0f0_1234_4321_aaaa_5555_3c3c_c3c3, 0x3);
    assert_eq!(a.mul(b), b.mul(a));
    assert_eq!(a.mul(b).mul(c), a.mul(b.mul(c)));
    assert_eq!(a.mul(b.bitxor(c)), a.mul(b).bitxor(a.mul(c)));
}

#[test]
fn remainder_and_quotient_rebuild_the_polynomial() {
    let chi = poly(0b10000111, 1);
    let a = poly(0x1234_5678_9abc_def0_0fed_cba9_8765_4321, 0x0bad_cafe);
    let r = a.modulo(chi);
    assert!(r.state_high == 0);
    // the quotient, by long division on the high register
    let mut q = poly(0, 0);
    let mut rest = a;
    let mut pos = 255u32;
    while pos >= 128 {
        if rest.bit(pos) {
            q = q.bitxor(poly(1, 0).shl(pos - 128));
            rest = rest.bitxor(chi.shl(pos - 128));
        }
        pos -= 1;
    }
    assert_eq!(rest, r);
    assert_eq!(q.mul(chi).bitxor(r), a);
}

#[test]
fn inverse_of_a_small_matrix() {
    let a = matrix_of(&[&[1, 1], &[1, 0]]);
    let inv = a.to_owned().inverse().unwrap();
    assert_eq!(bits_of(&inv), vec![vec![0, 1], vec![1, 1]]);
    let again = inv.inverse().unwrap();
    assert_eq!(bits_of(&again), bits_of(&a));
}

#[test]
fn characteristic_polynomial_bytes() {
    let mut a = matrix_of(&[&[1, 0], &[0, 0]]);
    let coeffs: Vec<u8> = a.compute_charpoly_coeffs().iter().map(|c| c.val).collect();
    assert_eq!(coeffs, vec![1, 1, 0]);
    assert_eq!(bits_of(&a), vec![vec![1, 0], vec![0, 0]]);
}

#[test]
fn runs_cover_the_steps() {
    assert_eq!(search_runs(10, 4), vec![(0, 4), (4, 4), (8, 2)]);
    assert_eq!(search_runs(8, 4), vec![(0, 4), (4, 4)]);
    assert_eq!(search_runs(3, 5), vec![(0, 3)]);
    assert_eq!(search_runs(0, 5), Vec::<(u128, usize)>::new());
}

#[test]
fn remainders_beyond_the_moduli_are_ignored() {
    assert_eq!(chinese_remainder_theorem(vec![3, 5], vec![2, 3, 9]), Ok(8));
}

#[test]
fn power_zero_needs_no_modulus() {
    assert_eq!(poly(0b110, 0).modpow(0, poly(0, 0)), poly(1, 0));
    assert_eq!(base_z_modpow(0, poly(0, 0)), poly(1, 0));
}
