use negacyclic_rings::arithmetic::{
    add_assign_i32, balanced_ternary_step, binary_from_words, digest_i32, eq_i32,
    forward_ntt_i32, hash_message_seed, infinity_norm_i32, inverse_ntt_i32, is_ternary_i32,
    lift_assign_i32, lift_i32, mod_p_params, mod_p_sample, normalize_assign_i32, normalize_i32,
    poly_sample, rand_binary_i32, schoolbook_i32, sub_assign_i32, ternary_place,
};
use negacyclic_rings::ntt32;
use negacyclic_rings::params::{find_psi32, generate_ring32};
use rand::{Rng, RngCore, SeedableRng};
use rand_chacha::ChaCha20Rng;
use sha2::{Digest, Sha256};

fn reference_negacyclic<const N: usize>(a: &[i32; N], b: &[i32; N], q: i64) -> [i32; N] {
    let mut out = [0i64; N];
    for i in 0..N {
        for j in 0..N {
            let product = a[i] as i64 * b[j] as i64;
            if i + j < N {
                out[i + j] += product;
            } else {
                out[i + j - N] -= product;
            }
        }
    }
    out.map(|x| x.rem_euclid(q) as i32)
}

#[test]
fn lift_gives_the_residue_in_zero_to_modulus() {
    assert_eq!(lift_i32(-7, 5), 3);
    assert_eq!(lift_i32(7, 5), 2);
    assert_eq!(lift_i32(-5, 5), 0);
    assert_eq!(lift_i32(i32::MIN, 7), i32::MIN.rem_euclid(7));
}

#[test]
fn normalize_gives_the_centered_representative() {
    assert_eq!(normalize_i32(3, 5), -2);
    assert_eq!(normalize_i32(7, 5), 2);
    assert_eq!(normalize_i32(-3, 5), 2);
    // the two representatives of m/2 for even m follow the input's sign
    assert_eq!(normalize_i32(2, 4), 2);
    assert_eq!(normalize_i32(-2, 4), -2);
    assert_eq!(normalize_i32(6, 4), 2);
    assert_eq!(normalize_i32(-6, 4), -2);
    assert_eq!(normalize_i32(i32::MIN, 3), 1);
}

#[test]
fn eq_compares_modulo() {
    assert!(eq_i32(&[1, 2, -1], &[6, -3, 4], 5));
    assert!(!eq_i32(&[1, 2, -1], &[6, -2, 4], 5));
    assert!(eq_i32::<0>(&[], &[], 5));
}

#[test]
fn add_and_sub_use_truncated_remainders() {
    let mut x = [3, -4, 0, 4];
    add_assign_i32(&mut x, &[4, -3, 0, -9], 5);
    assert_eq!(x, [2, -2, 0, 0]);
    let mut y = [3, -4, 0, 1];
    sub_assign_i32(&mut y, &[-4, 3, 0, 3], 5);
    assert_eq!(y, [2, -2, 0, -2]);
}

#[test]
fn schoolbook_matches_the_negacyclic_product() {
    let a = [3, -1, 4, 1, -5, 9, 2, -6];
    let b = [2, 7, -1, 8, 2, -8, 1, 8];
    assert_eq!(schoolbook_i32(&a, &b, 17), reference_negacyclic(&a, &b, 17));
    // x · x^7 = x^8 = −1
    let mut x = [0; 8];
    x[1] = 1;
    let mut x7 = [0; 8];
    x7[7] = 1;
    let mut minus_one = [0; 8];
    minus_one[0] = 16;
    assert_eq!(schoolbook_i32(&x, &x7, 17), minus_one);
    let mut rng = ChaCha20Rng::from_seed([9; 32]);
    let c: [i32; 32] = core::array::from_fn(|_| rng.gen_range(-100_000..100_000));
    let d: [i32; 32] = core::array::from_fn(|_| rng.gen_range(-100_000..100_000));
    assert_eq!(schoolbook_i32(&c, &d, 12_289), reference_negacyclic(&c, &d, 12_289));
}

#[test]
fn norms_and_ternary_checks() {
    assert_eq!(infinity_norm_i32(&[-5, 3, 0]), 5);
    assert_eq!(infinity_norm_i32(&[i32::MIN, 1]), 1u32 << 31);
    assert_eq!(infinity_norm_i32::<0>(&[]), 0);
    assert!(is_ternary_i32(&[1, 0, -1, 0]));
    assert!(!is_ternary_i32(&[1, 0, 2]));
    assert!(!is_ternary_i32(&[-2]));
}

#[test]
fn lift_and_normalize_every_coefficient() {
    let mut x = [-7, 7, 12, -1];
    lift_assign_i32(&mut x, 5);
    assert_eq!(x, [3, 2, 2, 4]);
    let mut y = [-7, 7, 12, -1];
    normalize_assign_i32(&mut y, 5);
    assert_eq!(y, [-2, 2, 2, -1]);
}

#[test]
fn i32_transforms_agree_with_the_ring_and_roundtrip() {
    const N: usize = 16;
    let q = 97u32;
    let ring = generate_ring32::<N>(q, find_psi32::<N>(q));
    let table = ring.ntt_table.map(|x| x as i32);
    let inverse_table = ring.inv_ntt_table.map(|x| x as i32);
    let mut rng = ChaCha20Rng::from_seed([5; 32]);
    let a: [u32; N] = core::array::from_fn(|_| rng.gen_range(0..q));
    let mut reference = a;
    ntt32::ntt(&ring, &mut reference);
    let mut p = a.map(|x| x as i32);
    forward_ntt_i32(&mut p, q as i32, &table);
    assert_eq!(p, reference.map(|x| x as i32));
    inverse_ntt_i32(&mut p, q as i32, &inverse_table, ring.n_inv as i32);
    assert_eq!(p, a.map(|x| x as i32));

    // signed, unreduced input comes back congruent
    let b: [i32; N] = core::array::from_fn(|_| rng.gen_range(-1_000_000..1_000_000));
    let mut s = b;
    forward_ntt_i32(&mut s, q as i32, &table);
    assert!(s.iter().all(|&x| -(q as i32) < x && x < q as i32));
    inverse_ntt_i32(&mut s, q as i32, &inverse_table, ring.n_inv as i32);
    assert!(eq_i32(&s, &b, q as i32));
}

#[test]
fn i32_transform_convolution_matches_schoolbook() {
    const N: usize = 8;
    let q = 17u32;
    let ring = generate_ring32::<N>(q, find_psi32::<N>(q));
    let table = ring.ntt_table.map(|x| x as i32);
    let inverse_table = ring.inv_ntt_table.map(|x| x as i32);
    let a = [1, 2, 3, 4, 5, 6, 7, 8];
    let b = [8, 7, 6, 5, 4, 3, 2, 1];
    let mut an = a;
    let mut bn = b;
    forward_ntt_i32(&mut an, 17, &table);
    forward_ntt_i32(&mut bn, 17, &table);
    let mut c: [i32; N] = core::array::from_fn(|i| an[i] * bn[i] % 17);
    inverse_ntt_i32(&mut c, 17, &inverse_table, ring.n_inv as i32);
    assert_eq!(c, schoolbook_i32(&a, &b, 17));
}

#[test]
fn binary_polynomials_take_word_bits() {
    let words = [0b1011u32, 0x8000_0001];
    let p: [i32; 70] = binary_from_words(&words);
    assert_eq!(&p[..4], &[1, 1, 0, 1]);
    assert!(p[4..32].iter().all(|&x| x == 0));
    assert_eq!(p[32], 1);
    assert!(p[33..63].iter().all(|&x| x == 0));
    assert_eq!(p[63], 1);
    assert!(p[64..].iter().all(|&x| x == 0));

    let mut rng = ChaCha20Rng::from_seed([7; 32]);
    let mut twin = ChaCha20Rng::from_seed([7; 32]);
    let q: [i32; 96] = rand_binary_i32(&mut rng);
    let expected: [i32; 96] = binary_from_words(&[twin.next_u32(), twin.next_u32(), twin.next_u32()]);
    assert_eq!(q, expected);
    assert!(q.iter().all(|&x| x == 0 || x == 1));
    assert_eq!(rng.next_u32(), twin.next_u32());
}

#[test]
fn digest_hashes_the_low_two_bytes() {
    let coeffs = [0x1234, -1, 0x7fff_0102, 0];
    let bytes = [0x34u8, 0x12, 0xff, 0xff, 0x02, 0x01, 0x00, 0x00];
    let expected: [u8; 32] = Sha256::digest(bytes).into();
    assert_eq!(digest_i32(&coeffs), expected);
    assert_ne!(digest_i32(&coeffs), digest_i32(&[0x1234, -1, 0x7fff_0102, 1]));
    let seed = hash_message_seed(b"message");
    let expected_seed: [u8; 32] = Sha256::digest(b"message").into();
    assert_eq!(seed, expected_seed);
    assert_ne!(&seed[..7], b"message");
}

#[test]
fn uniform_samples_reject_above_the_threshold() {
    assert_eq!(poly_sample(17, 5, 2, 20), Some(0));
    assert_eq!(poly_sample(19, 5, 2, 20), Some(2));
    assert_eq!(poly_sample(20, 5, 2, 20), None);
    // a negative modulus is read as a word, as the cast does
    assert_eq!(poly_sample(7, -1, 0, 20), Some(7));
    assert_eq!(poly_sample(u32::MAX - 1, 3, -5, u32::MAX), Some(((u32::MAX - 1) % 3) as i64 + 5));
    assert_eq!(poly_sample(0x9000_0000, 0x7fff_ffff, 1, u32::MAX), Some(0x1000_0001 - 1));
    assert_eq!(mod_p_params(3), Some((7, (1u64 << 32) / 7 * 7)));
    assert_eq!(mod_p_params(u32::MAX / 2 + 1), None);
    assert_eq!(mod_p_params(u32::MAX / 2), Some((u32::MAX, u32::MAX as u64)));
    let (m, t) = mod_p_params(3).unwrap();
    assert_eq!(mod_p_sample(9, 3, m, t), Some(-1));
    assert_eq!(mod_p_sample(6, 3, m, t), Some(3));
    assert_eq!(mod_p_sample(u32::MAX, 3, m, t), None);
    // past 2^31 the remainder reads as negative, as the cast does
    let p = u32::MAX / 2;
    let (m2, t2) = mod_p_params(p).unwrap();
    assert_eq!(mod_p_sample(0x8000_0000, p, m2, t2), Some(-(1i64 << 31) - p as i64));
}

#[test]
fn ternary_draws_fill_empty_slots_only() {
    let mut coeffs = [0i32; 8];
    // slot 5, bit 3 set: +1
    assert!(ternary_place(&mut coeffs, 0b1101, 3));
    assert_eq!(coeffs, [0, 0, 0, 0, 0, 1, 0, 0]);
    // slot 5 again: rejected
    assert!(!ternary_place(&mut coeffs, 0b0101, 3));
    // slot 2, bit 3 clear: −1
    assert!(ternary_place(&mut coeffs, 0b10010, 3));
    assert_eq!(coeffs, [0, 0, -1, 0, 0, 1, 0, 0]);

    let mut d = [0i32; 8];
    let (placed, rest, chunks, refill) = balanced_ternary_step(&mut d, 0b110_011, 0, 1, 3);
    assert!(placed);
    assert_eq!((rest, chunks, refill), (0b110, 1, false));
    assert_eq!(d, [0, 0, 0, 1, 0, 0, 0, 0]);
    let (placed, rest, chunks, refill) = balanced_ternary_step(&mut d, 0b011, 9, -1, 3);
    assert!(!placed);
    assert_eq!((rest, chunks, refill), (0, 0, true));
    assert_eq!(d, [0, 0, 0, 1, 0, 0, 0, 0]);
}

#[test]
fn canonical_inverse_transform_with_a_large_modulus() {
    const N: usize = 8;
    let q = 2_013_265_921u32;
    let psi = negacyclic_rings::params::find_psi32::<N>(q);
    let pow = |b: u64, e: u64| -> u64 {
        let mut r = 1u64;
        let mut b = b % q as u64;
        let mut e = e;
        while e > 0 {
            if e & 1 == 1 {
                r = r * b % q as u64;
            }
            b = b * b % q as u64;
            e >>= 1;
        }
        r
    };
    let brv = |i: usize| (i.reverse_bits() >> (usize::BITS - 3)) as u64;
    let psi_inv = pow(psi as u64, q as u64 - 2);
    let table: [i32; N] = core::array::from_fn(|i| pow(psi as u64, brv(i)) as i32);
    let inverse_table: [i32; N] = core::array::from_fn(|i| pow(psi_inv, brv(i)) as i32);
    let inverse_n = pow(N as u64, q as u64 - 2) as i32;
    let mut rng = ChaCha20Rng::from_seed([11; 32]);
    let a: [i32; N] = core::array::from_fn(|_| rng.gen_range(0..q as i32));
    let mut p = a;
    forward_ntt_i32(&mut p, q as i32, &table);
    inverse_ntt_i32(&mut p, q as i32, &inverse_table, inverse_n);
    assert_eq!(p, a);
}
