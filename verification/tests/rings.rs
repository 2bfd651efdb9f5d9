use negacyclic_rings::ntt32;
use negacyclic_rings::ntt64;
use negacyclic_rings::params::{find_psi32, find_psi64, generate_ring32, generate_ring64};
use negacyclic_rings::{Residues, Rns};

const N: usize = 16;

fn pow_mod(base: u128, exp: u128, q: u128) -> u128 {
    let mut r = 1u128;
    for _ in 0..exp {
        r = r * base % q;
    }
    r
}

#[test]
fn modular_word_operations() {
    assert_eq!(ntt32::add_mod(10, 12, 17), 5);
    assert_eq!(ntt32::add_mod(3, 4, 17), 7);
    assert_eq!(ntt32::sub_mod(3, 4, 17), 16);
    assert_eq!(ntt32::sub_mod(4, 3, 17), 1);
    assert_eq!(ntt64::add_mod(10, 12, 17), 5);
    assert_eq!(ntt64::sub_mod(3, 4, 17), 16);
    let ring = generate_ring32::<N>(97, find_psi32::<N>(97));
    assert_eq!(ntt32::mul_mod(50, 60, &ring), 50 * 60 % 97);
    // Montgomery reduction divides by 2^32 modulo q
    let r = ntt32::mont_reduce(3u64 << 32, &ring);
    assert_eq!(r, 3);
    let m = ntt32::mont_mul(50, 60, &ring);
    assert_eq!((m as u128) * (1u128 << 32) % 97, 50 * 60 % 97);
    let ring64 = generate_ring64::<N>(97, find_psi64::<N>(97));
    assert_eq!(ntt64::mul_mod(50, 60, &ring64), 50 * 60 % 97);
    assert_eq!(ntt64::mont_reduce(5u128 << 64, &ring64), 5);
    let m64 = ntt64::mont_mul(50, 60, &ring64);
    assert_eq!((m64 as u128) * ((1u128 << 64) % 97) % 97, 50 * 60 % 97);
}

#[test]
fn generated_rings_hold_negacyclic_roots() {
    let q = 97u32;
    let psi = find_psi32::<N>(q);
    assert_eq!(pow_mod(psi as u128, N as u128, q as u128), q as u128 - 1);
    let ring = generate_ring32::<N>(q, psi);
    assert_eq!(ring.ntt_table[1] as u128, pow_mod(psi as u128, N as u128 / 2, q as u128));
    assert_eq!(ring.n_inv as u128 * N as u128 % q as u128, 1);
    assert_eq!(ring.r2 as u128, (1u128 << 64) % q as u128);
    assert_eq!(q.wrapping_mul(ring.q_inv_neg), u32::MAX);
    let q64 = 0x3fff_ffff_ffff_fdc1u64;
    let psi64 = find_psi64::<N>(q64);
    assert_eq!(
        (0..N).fold(1u128, |acc, _| acc * psi64 as u128 % q64 as u128),
        q64 as u128 - 1
    );
    let ring64 = generate_ring64::<N>(q64, psi64);
    assert_eq!(q64.wrapping_mul(ring64.q_inv_neg), u64::MAX);
}

#[test]
fn coefficient_sums_and_differences() {
    let ring = generate_ring32::<4>(17, find_psi32::<4>(17));
    let mut a = [1, 16, 5, 0];
    ntt32::add_assign(&ring, &mut a, &[16, 16, 5, 0]);
    assert_eq!(a, [0, 15, 10, 0]);
    ntt32::sub_assign(&ring, &mut a, &[1, 16, 11, 0]);
    assert_eq!(a, [16, 16, 16, 0]);
    let ring64 = generate_ring64::<4>(17, find_psi64::<4>(17));
    let mut b = [1u64, 16, 5, 0];
    ntt64::add_assign(&ring64, &mut b, &[16, 16, 5, 0]);
    assert_eq!(b, [0, 15, 10, 0]);
    ntt64::sub_assign(&ring64, &mut b, &[1, 16, 11, 0]);
    assert_eq!(b, [16, 16, 16, 0]);
}

#[test]
fn dot_and_multiply_accumulate() {
    let ring = generate_ring32::<4>(17, find_psi32::<4>(17));
    let a = [[1, 2, 3, 4], [5, 6, 7, 8]];
    let b = [[8, 7, 6, 5], [4, 3, 2, 1]];
    let dot = ntt32::pointwise_dot(&ring, &a, &b);
    let expected: [u32; 4] = core::array::from_fn(|i| (a[0][i] * b[0][i] + a[1][i] * b[1][i]) % 17);
    assert_eq!(dot, expected);
    assert_eq!(ntt32::pointwise_mul(&ring, &a[0], &b[0]), [8, 14, 1, 3]);

    let ra: Residues<4, 1> = [a[0]];
    let rb: Residues<4, 1> = [b[0]];
    let mut acc = [16, 0, 0, 1];
    ntt32::pointwise_mac(&ring, &mut acc, &[&ra, &ra], &[&rb, &rb], 0);
    let twice: [u32; 4] = core::array::from_fn(|i| ([16, 0, 0, 1][i] + 2 * a[0][i] * b[0][i]) % 17);
    assert_eq!(acc, twice);

    let ring64 = generate_ring64::<4>(17, find_psi64::<4>(17));
    let x = [1u64, 2, 3, 4];
    let y = [8u64, 7, 6, 5];
    let mut acc64 = [16u64, 0, 0, 1];
    ntt64::pointwise_mac(&ring64, &mut acc64, &[&x, &x], &[&y, &y]);
    assert_eq!(acc64, [15, 11, 2, 7]);
    assert_eq!(ntt64::pointwise_mul(&ring64, &x, &y), [8, 14, 1, 3]);
}

#[test]
fn residues_reduce_and_lift() {
    let moduli = [97u32, 193, 257];
    let rns = Rns::new(moduli.map(|q| generate_ring32::<N>(q, find_psi32::<N>(q))));
    assert_eq!(rns.product, 97 * 193 * 257);
    assert_eq!(rns.prefix_products, [1, 97, 97 * 193]);
    assert_eq!(rns.sample_threshold[0], ((1u64 << 32) / 97 * 97) as u32);
    assert_eq!(rns.reduce_coeff(-1), [96, 192, 256]);
    assert_eq!(rns.reduce_coeff(1000), [1000 % 97, 1000 % 193, 1000 % 257]);
    for value in [0i128, 1, 96, 4_811_200, rns.product as i128 - 1] {
        assert_eq!(rns.lift_coeff(rns.reduce_coeff(value)), value as u128);
    }
    for value in [0i128, -1, -2_405_600, 2_405_600, rns.product as i128 / 2] {
        assert_eq!(rns.lift_centered(rns.reduce_coeff(value)), value);
    }
    assert_eq!(
        rns.lift_centered(rns.reduce_coeff(rns.product as i128 / 2 + 1)),
        rns.product as i128 / 2 + 1 - rns.product as i128
    );
}

#[test]
fn residue_channels_of_signed_inputs() {
    let moduli = [97u32, 193];
    let rns = Rns::new(moduli.map(|q| generate_ring32::<4>(q, find_psi32::<4>(q))));
    let mut out = [[0u32; 4]; 2];
    rns.reduce_i64_into(&[-1, 0, 100, i64::MIN], &mut out);
    assert_eq!(out[0], [96, 0, 3, i64::MIN.rem_euclid(97) as u32]);
    assert_eq!(out[1], [192, 0, 100, i64::MIN.rem_euclid(193) as u32]);
    let mut centered = [[0u32; 4]; 2];
    rns.reduce_centered_i32_into(&[-1, 0, 5, -96], &mut centered);
    assert_eq!(centered, [[96, 0, 5, 1], [192, 0, 5, 97]]);
    let mut single = [0u32; 4];
    ntt32::reduce_centered_i32_into(&rns.ch[1], &[-1, 0, 5, -96], &mut single);
    assert_eq!(single, [192, 0, 5, 97]);

    let mut lifted = [0i64; 4];
    let input: Residues<4, 2> = [[96, 0, 3, 48], [192, 0, 100, 7]];
    rns.lift_centered_i64_into(&input, &mut lifted);
    for (i, &v) in lifted.iter().enumerate() {
        assert_eq!(v.rem_euclid(97) as u32, input[0][i]);
        assert_eq!(v.rem_euclid(193) as u32, input[1][i]);
        assert!(-(97 * 193 / 2) <= v && v <= 97 * 193 / 2);
    }
    assert_eq!(lifted[0], -1);
    assert_eq!(lifted[1], 0);
    assert_eq!(lifted[2], 100);
}

#[test]
fn residue_arithmetic_and_sampling() {
    let moduli = [97u32, 193];
    let rns = Rns::new(moduli.map(|q| generate_ring32::<4>(q, find_psi32::<4>(q))));
    let mut a: Residues<4, 2> = [[1, 96, 50, 0], [1, 192, 100, 0]];
    rns.add_assign(&mut a, &[[96, 96, 50, 0], [192, 192, 100, 0]]);
    assert_eq!(a, [[0, 95, 3, 0], [0, 191, 7, 0]]);
    rns.sub_assign(&mut a, &[[1, 95, 4, 0], [1, 191, 8, 0]]);
    assert_eq!(a, [[96, 0, 96, 0], [192, 0, 192, 0]]);
    let p = rns.pointwise_mul(&a, &a);
    assert_eq!(p, [[1, 0, 1, 0], [1, 0, 1, 0]]);
    let mut acc: Residues<4, 2> = [[0; 4]; 2];
    rns.pointwise_mac(&mut acc, &[&a, &a], &[&a, &a]);
    assert_eq!(acc, [[2, 0, 2, 0], [2, 0, 2, 0]]);

    assert_eq!(rns.sample_residue(0, 200), Some(200 % 97));
    assert_eq!(rns.sample_residue(1, rns.sample_threshold[1] - 1), Some((rns.sample_threshold[1] - 1) % 193));
    assert_eq!(rns.sample_residue(0, u32::MAX), None);
}

#[test]
fn two_limb_lift_agrees_with_the_generic_lift() {
    let moduli = [16_760_833u32, 16_736_257];
    let rns = Rns::new(moduli.map(|q| generate_ring32::<4>(q, find_psi32::<4>(q))));
    let values = [-(rns.product as i128) / 2 + 1, -1, 0, 123_456_789, rns.product as i128 / 2];
    let mut input: Residues<4, 2> = [[0; 4]; 2];
    for (i, &v) in values[..4].iter().enumerate() {
        let r = rns.reduce_coeff(v);
        input[0][i] = r[0];
        input[1][i] = r[1];
    }
    let mut out = [0i64; 4];
    rns.lift_centered_i64_into(&input, &mut out);
    for i in 0..4 {
        let generic = rns.lift_centered([input[0][i], input[1][i]]);
        assert_eq!(out[i] as i128, generic);
        assert_eq!(generic, values[i]);
    }
    let top = rns.reduce_coeff(values[4]);
    assert_eq!(rns.lift_centered(top), values[4]);
}

#[test]
fn lazy_butterflies_stay_below_twice_the_modulus() {
    let ring = generate_ring32::<N>(97, find_psi32::<N>(97));
    for k in 1..N {
        let (w, ws) = (ring.ntt_table[k], ring.ntt_table_shoup[k]);
        for (u, v) in [(0u32, 0u32), (150, 180), (193, 193), (96, 1)] {
            let (x, y) = ntt32::lazy_butterfly(u, v, w, ws, 97);
            assert!(x < 194 && y < 194);
            assert_eq!(x % 97, (u + w * v) % 97);
            assert_eq!(y % 97, (u as i64 - (w * v) as i64).rem_euclid(97) as u32);
        }
    }
}

#[test]
fn centered_twiddles_and_their_signed_companions() {
    let ring = generate_ring32::<N>(97, find_psi32::<N>(97));
    let mut seen_negative = false;
    for k in 0..N {
        let (w, ws) = (ring.ntt_table[k], ring.ntt_table_shoup[k]);
        let (c, s) = ntt32::centered_twiddle(w, ws, 97);
        assert_eq!(c.rem_euclid(97) as u32, w);
        assert!(-48 <= c && c <= 48);
        let err = 2 * (s as i64 * 97 - c as i64 * (1i64 << 31));
        assert!(-97 < err && err <= 97);
        seen_negative |= c < 0;
    }
    assert!(seen_negative);
    assert_eq!(ntt32::centered_twiddle(0, 0, 97), (0, 0));
    assert_eq!(ntt32::centered_twiddle(96, ((96u64 << 32) / 97) as u32, 97).0, -1);
}
