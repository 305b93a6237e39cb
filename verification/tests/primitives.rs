use ml_kem::arith::{pow2_i64, reduce};
use ml_kem::codec::{
    decode_poly, decode_vector, encode_poly, encode_vector, reduce_poly, bytes_to_bits,
};
use ml_kem::compress::{
    compress_coefficient, compress_poly, compress_vec, decompress_coefficient, decompress_poly,
    decompress_vec,
};
use ml_kem::hashing::{hash_g, hash_h, prf, xof};
use ml_kem::lattice::{
    add_poly, add_vec, intt_poly, mat_vec_product, dot_product, ntt_poly, pad_to, sub_poly,
    vec_intt, vec_ntt,
};
use ml_kem::params::{
    build_reduction_poly, check_prime, check_root_of_unity, gcd, is_power_of_two,
    is_reduction_poly, Parameters,
};
use ml_kem::sampling::{
    generate_error_vector, generate_matrix_from_seed, generate_matrix_from_stream,
    generate_polynomial, rejection_sample, sample_cbd, stream_len_for,
};

const Q: i64 = 3329;

fn centered_distance(a: i64, b: i64, q: i64) -> i64 {
    let r = (a - b).rem_euclid(q);
    let s = (b - a).rem_euclid(q);
    r.min(s)
}

#[test]
fn pow2_and_reduce_values() {
    assert_eq!(pow2_i64(0), 1);
    assert_eq!(pow2_i64(12), 4096);
    assert_eq!(reduce(-1, Q), 3328);
    assert_eq!(reduce(3329, Q), 0);
    assert_eq!(reduce(-3329, Q), 0);
    assert_eq!(reduce(5, Q), 5);
}

#[test]
fn compress_exact_values() {
    assert_eq!(compress_coefficient(0, 1, Q), 0);
    assert_eq!(compress_coefficient(832, 1, Q), 0);
    assert_eq!(compress_coefficient(833, 1, Q), 1);
    assert_eq!(compress_coefficient(2496, 1, Q), 1);
    assert_eq!(compress_coefficient(2497, 1, Q), 0);
    assert_eq!(compress_coefficient(5, 10, Q), 2);
    assert_eq!(compress_coefficient(1658, 8, Q), 128);
    assert_eq!(compress_coefficient(3328, 4, Q), 0);
}

#[test]
fn decompress_exact_values() {
    assert_eq!(decompress_coefficient(0, 1, Q), 0);
    assert_eq!(decompress_coefficient(1, 1, Q), 1665);
    assert_eq!(decompress_coefficient(2, 10, Q), 7);
    assert_eq!(decompress_coefficient(128, 8, Q), 1665);
    assert_eq!(decompress_coefficient(15, 4, Q), 3121);
}

#[test]
fn compression_error_stays_within_rounded_bound() {
    for d in 1..=12usize {
        let bound = (Q + (1 << d)) / (2 << d);
        for x in 0..Q {
            let back = decompress_coefficient(compress_coefficient(x, d, Q), d, Q);
            assert!(centered_distance(back, x, Q) <= bound);
        }
    }
}

#[test]
fn compression_error_can_exceed_unrounded_quotient() {
    let back = decompress_coefficient(compress_coefficient(5, 10, Q), 10, Q);
    assert_eq!(back, 7);
    assert!(centered_distance(back, 5, Q) * 2048 > Q);
}

#[test]
fn compress_poly_and_vec_are_coefficient_wise() {
    let p = vec![0, 833, 2497, 3328];
    assert_eq!(compress_poly(&p, 1, Q), vec![0, 1, 0, 0]);
    assert_eq!(decompress_poly(&vec![0, 1, 1, 0], 1, Q), vec![0, 1665, 1665, 0]);
    let v = vec![vec![5, 0], vec![1658, 3328]];
    assert_eq!(compress_vec(&v, 10, Q), vec![vec![2, 0], vec![510, 0]]);
    assert_eq!(decompress_vec(&vec![vec![2, 0]], 10, Q), vec![vec![7, 0]]);
}

#[test]
fn encode_packs_bits_least_significant_first() {
    assert_eq!(encode_poly(&vec![0xABC, 0x123], 12), vec![0xBC, 0x3A, 0x12]);
    assert_eq!(encode_poly(&vec![1, 0, 1, 1, 0, 0, 0, 0], 1), vec![0x0D]);
    assert_eq!(encode_poly(&vec![15, 1], 4), vec![0x1F]);
}

#[test]
fn decode_unpacks_bit_fields() {
    assert_eq!(decode_poly(&vec![0xBC, 0x3A, 0x12], 12), vec![0xABC, 0x123]);
    assert_eq!(decode_poly(&vec![0x0D], 1), vec![1, 0, 1, 1, 0, 0, 0, 0]);
    assert_eq!(decode_poly(&vec![0x1F], 4), vec![15, 1]);
    assert_eq!(
        bytes_to_bits(&vec![0x81]),
        vec![true, false, false, false, false, false, false, true]
    );
}

#[test]
fn codec_round_trips_every_width() {
    for w in 1..=12usize {
        let coeffs: Vec<i64> = (0..256).map(|i| (i * 37 + 11) % (1i64 << w)).collect();
        let bytes = encode_poly(&coeffs, w);
        assert_eq!(bytes.len(), 32 * w);
        assert_eq!(decode_poly(&bytes, w), coeffs);
        assert_eq!(encode_poly(&decode_poly(&bytes, w), w), bytes);
    }
}

#[test]
fn vector_codec_is_canonical_below_modulus() {
    let k = 3usize;
    let v: Vec<Vec<i64>> =
        (0..k).map(|j| (0..256).map(|i| ((i * 13 + j * 1000) as i64) % Q).collect()).collect();
    let bytes = encode_vector(&v, 12);
    assert_eq!(bytes.len(), 384 * k);
    assert_eq!(decode_vector(&bytes, k, 12, true, Q), v);
    assert_eq!(decode_vector(&bytes, k, 12, false, Q), v);
    assert_eq!(encode_vector(&decode_vector(&bytes, k, 12, true, Q), 12), bytes);
}

#[test]
fn decode_vector_reduces_on_request() {
    let bytes = vec![0xFF, 0xFF, 0xFF];
    assert_eq!(decode_vector(&bytes, 1, 12, false, Q), vec![vec![4095, 4095]]);
    assert_eq!(decode_vector(&bytes, 1, 12, true, Q), vec![vec![766, 766]]);
    assert_eq!(reduce_poly(&vec![-1, 3329, 4095], Q), vec![3328, 0, 766]);
}

#[test]
fn hash_h_is_sha3_256() {
    let expected: Vec<u8> = vec![
        58, 152, 93, 167, 79, 226, 37, 178, 4, 92, 23, 45, 107, 211, 144, 189, 133, 95, 8, 110, 62,
        157, 82, 91, 70, 191, 226, 69, 17, 67, 21, 50,
    ];
    assert_eq!(hash_h(&b"abc".to_vec()), expected);
}

#[test]
fn hash_g_splits_sha3_512() {
    let digest: Vec<u8> = vec![
        183, 81, 133, 11, 26, 87, 22, 138, 86, 147, 205, 146, 75, 107, 9, 110, 8, 246, 33, 130,
        116, 68, 247, 13, 136, 79, 93, 2, 64, 210, 113, 46, 16, 225, 22, 233, 25, 42, 243, 201, 26,
        126, 197, 118, 71, 227, 147, 64, 87, 52, 11, 76, 244, 8, 213, 165, 101, 146, 248, 39, 78,
        236, 83, 240,
    ];
    let (rho, sigma) = hash_g(&b"abc".to_vec());
    assert_eq!(rho, digest[..32].to_vec());
    assert_eq!(sigma, digest[32..].to_vec());
}

#[test]
fn prf_is_shake256_over_seed_and_nonce() {
    let expected: Vec<u8> =
        vec![98, 87, 116, 152, 190, 138, 128, 203, 69, 117, 110, 49, 136, 83, 78, 236];
    assert_eq!(prf(&b"abc".to_vec(), 7, 16), expected);
    assert_eq!(prf(&b"abc".to_vec(), 7, 8), expected[..8].to_vec());
}

#[test]
fn xof_is_shake128_over_seed_and_indices() {
    let expected: Vec<u8> =
        vec![116, 160, 127, 213, 244, 96, 150, 102, 156, 87, 112, 133, 33, 101, 12, 179];
    assert_eq!(xof(&b"abc".to_vec(), 1, 2, 16), expected);
}

#[test]
fn cbd_counts_bits() {
    assert_eq!(sample_cbd(&vec![0x0D], 2, 2, Q), vec![3328, 0]);
    assert_eq!(sample_cbd(&vec![0b0011_1000], 3, 1, Q), vec![3326]);
    assert_eq!(sample_cbd(&vec![0b0000_0111], 3, 1, Q), vec![3]);
}

#[test]
fn noise_polynomials_are_small_and_deterministic() {
    let seed = vec![9u8; 32];
    let p = generate_polynomial(&seed, 3, 5, 256, Q);
    assert_eq!(p.len(), 256);
    assert!(p.iter().all(|&c| c <= 3 || c >= Q - 3));
    assert_eq!(generate_polynomial(&seed, 3, 5, 256, Q), p);
    assert_ne!(generate_polynomial(&seed, 3, 6, 256, Q), p);
    for eta in 1..=16usize {
        let p = generate_polynomial(&seed, eta, 0, 256, Q);
        assert!(p.iter().all(|&c| 0 <= c && c < Q && (c <= eta as i64 || c >= Q - eta as i64)));
        let tiny = generate_polynomial(&seed, eta, 0, 256, 5);
        assert!(tiny.iter().all(|&c| 0 <= c && c < 5));
    }
    let (v, next) = generate_error_vector(&seed, 3, 5, 2, 256, Q);
    assert_eq!(next, 7);
    assert_eq!(v[0], p);
    assert_eq!(v[1], generate_polynomial(&seed, 3, 6, 256, Q));
}

#[test]
fn rejection_sampling_keeps_values_below_modulus() {
    let stream = vec![0xFF, 0xFF, 0xFF, 0x01, 0x00, 0x00, 0x00, 0xDD, 0x00];
    assert_eq!(rejection_sample(&stream, 2, Q), Some(vec![1, 0]));
    assert_eq!(rejection_sample(&stream, 4, Q), Some(vec![1, 0, 3328, 13]));
    assert_eq!(rejection_sample(&stream, 5, Q), None);
    assert_eq!(rejection_sample(&stream, 4, 3328), None);
}

#[test]
fn matrix_expansion_transposes_by_swapping_indices() {
    let rho = vec![3u8; 32];
    let a = generate_matrix_from_seed(&rho, 3, 256, Q, false).unwrap();
    let at = generate_matrix_from_seed(&rho, 3, 256, Q, true).unwrap();
    assert_eq!(a.len(), 3);
    for i in 0..3 {
        assert_eq!(a[i].len(), 3);
        for j in 0..3 {
            assert_eq!(a[i][j].len(), 256);
            assert!(a[i][j].iter().all(|&c| 0 <= c && c < Q));
            assert_eq!(a[i][j], at[j][i]);
        }
    }
    assert_ne!(a[0][1], a[1][0]);
    let stream = xof(&rho, 1, 0, 840);
    assert_eq!(Some(a[0][1].clone()), rejection_sample(&stream, 256, Q));
}

#[test]
fn matrix_expansion_fails_when_too_few_values_pass() {
    let rho = vec![3u8; 32];
    assert_eq!(
        generate_matrix_from_stream(&rho, 2, 256, 3329, false, 300),
        Err(ml_kem::params::Error::SamplingFailure)
    );
    assert_eq!(
        generate_matrix_from_stream(&rho, 2, 256, 17, false, 840),
        Err(ml_kem::params::Error::SamplingFailure)
    );
    assert_eq!(
        generate_matrix_from_stream(&rho, 2, 256, 3329, false, 840),
        generate_matrix_from_seed(&rho, 2, 256, 3329, false)
    );
}

#[test]
fn stream_grows_as_the_modulus_shrinks() {
    assert_eq!(stream_len_for(256, 3329), 1182);
    assert_eq!(stream_len_for(256, 4096), 963);
    assert_eq!(stream_len_for(256, 17), 231306);
    assert_eq!(stream_len_for(8, 2), 442371);
    let rho = vec![3u8; 32];
    let small = generate_matrix_from_seed(&rho, 2, 256, 17, false).unwrap();
    assert!(small.iter().all(|row| row.iter().all(|p| p.len() == 256 && p.iter().all(|&c| c < 17))));
    let tiny = generate_matrix_from_seed(&rho, 1, 8, 2, true).unwrap();
    assert_eq!(tiny[0][0].len(), 8);
    assert!(tiny[0][0].iter().all(|&c| c == 0 || c == 1));
}

#[test]
fn polynomial_addition_and_subtraction_modulo_q() {
    let f = build_reduction_poly(4);
    assert_eq!(f, vec![1, 0, 0, 0, 1]);
    assert_eq!(add_poly(&vec![3328, 1, 1664, 0], &vec![1, 1, 1, 0], Q, &f), vec![0, 2, 1665, 0]);
    assert_eq!(add_poly(&vec![1, 0, 0, 0], &vec![3328, 0, 0, 0], Q, &f), vec![0, 0, 0, 0]);
    assert_eq!(sub_poly(&vec![0, 5, 7, 0], &vec![1, 5, 3328, 0], Q, &f), vec![3328, 0, 8, 0]);
    let u = vec![vec![1, 2, 3, 0], vec![3000, 0, 0, 0]];
    let v = vec![vec![3328, 0, 0, 0], vec![400, 0, 0, 3328]];
    assert_eq!(add_vec(&u, &v, 4, Q, &f), vec![vec![0, 2, 3, 0], vec![71, 0, 0, 3328]]);
    assert_eq!(pad_to(&vec![1, 2], 4), vec![1, 2, 0, 0]);
    assert_eq!(pad_to(&vec![1, 2, 3], 2), vec![1, 2]);
}

#[test]
fn transform_of_unit_impulse_is_constant() {
    let mut delta = vec![0i64; 256];
    delta[0] = 1;
    let ones = vec![1i64; 256];
    assert_eq!(ntt_poly(&delta, 17, 256, Q), ones);
    assert_eq!(intt_poly(&ones, 17, 256, Q), delta);
}

#[test]
fn inverse_transform_undoes_transform() {
    let a: Vec<i64> = (0..256).map(|i| (i * i * 7 + 3) % Q).collect();
    let a_hat = ntt_poly(&a, 17, 256, Q);
    assert_ne!(a_hat, a);
    assert!(a_hat.iter().all(|&c| 0 <= c && c < Q));
    assert_eq!(intt_poly(&a_hat, 17, 256, Q), a);
    let v = vec![a.clone(), a_hat.clone()];
    assert_eq!(vec_intt(&vec_ntt(&v, 17, 256, Q), 17, 256, Q), v);
}

#[test]
fn products_are_taken_coefficient_by_coefficient() {
    let u = vec![vec![1, 2, 3328, 0], vec![5, 0, 2, 1]];
    let v = vec![vec![7, 3, 3328, 9], vec![1, 4, 1000, 3328]];
    assert_eq!(dot_product(&u, &v, 4, Q), vec![12, 6, 2001, 3328]);
    let m = vec![u.clone(), v.clone()];
    let r = mat_vec_product(&m, &v, 4, Q);
    assert_eq!(r[0], vec![12, 6, 2001, 3328]);
    assert_eq!(r[1], vec![50, 25, (1 + 1000 * 1000) % Q, 82]);
}

#[test]
fn product_of_transforms_is_cyclic_convolution() {
    let mut x = vec![0i64; 256];
    x[1] = 1;
    let mut top = vec![0i64; 256];
    top[255] = 5;
    let x_hat = ntt_poly(&x, 17, 256, Q);
    let top_hat = ntt_poly(&top, 17, 256, Q);
    let prod = dot_product(&vec![x_hat], &vec![top_hat], 256, Q);
    let mut expected = vec![0i64; 256];
    expected[0] = 5;
    assert_eq!(intt_poly(&prod, 17, 256, Q), expected);
}

#[test]
fn parameter_validation() {
    assert!(Parameters::new(256, 3329, 2, 3, 2, 10, 4, 17).is_some());
    assert!(Parameters::new(256, 3330, 2, 3, 2, 10, 4, 17).is_none());
    assert!(Parameters::new(100, 3329, 2, 3, 2, 10, 4, 17).is_none());
    assert!(Parameters::new(256, 3329, 0, 3, 2, 10, 4, 17).is_none());
    assert!(Parameters::new(256, 3329, 2, 0, 2, 10, 4, 17).is_none());
    assert!(Parameters::new(256, 3329, 2, 3, 2, 13, 4, 17).is_none());
    assert!(Parameters::new(256, 3329, 2, 3, 2, 10, 0, 17).is_none());
    assert!(Parameters::new(256, 3329, 2, 3, 2, 10, 4, 0).is_none());
    assert!(Parameters::new(256, 3329, 2, 3, 2, 10, 4, 3329).is_none());
    assert!(Parameters::new(256, 3329, 2, 3, 2, 10, 4, 3).is_none());
    assert!(Parameters::new(256, 3329, 2, 3, 2, 10, 4, 289).is_none());
    assert!(Parameters::new(128, 3329, 2, 3, 2, 10, 4, 289).is_some());
    assert!(Parameters::new(8, 17, 1, 1, 1, 1, 1, 2).is_some());
    assert!(Parameters::new(256, 2, 2, 3, 2, 10, 4, 1).is_none());
    let p = Parameters::new(256, 3329, 3, 2, 2, 10, 4, 17).unwrap();
    assert_eq!(p.n, 256);
    assert_eq!(p.k, 3);
    assert_eq!(p.f.len(), 257);
    assert_eq!(p.f[0], 1);
    assert_eq!(p.f[256], 1);
    assert!(p.f[1..256].iter().all(|&c| c == 0));
}

#[test]
fn parameter_sets_can_be_checked() {
    assert!(Parameters::ml_kem_512().is_wf());
    assert!(Parameters::ml_kem_1024().is_wf());
    let mut p = Parameters::ml_kem_768();
    p.f[3] = 1;
    assert!(!p.is_wf());
    let mut p = Parameters::ml_kem_768();
    p.f.pop();
    assert!(!p.is_wf());
    let mut p = Parameters::ml_kem_768();
    p.n = 128;
    assert!(!p.is_wf());
    let mut p = Parameters::ml_kem_768();
    p.omega = 0;
    assert!(!p.is_wf());
    let mut p = Parameters::ml_kem_768();
    p.k = 128;
    assert!(!p.is_wf());
    assert!(is_reduction_poly(&vec![1, 0, 0, 0, 1], 4));
    assert!(!is_reduction_poly(&vec![1, 0, 0, 1], 4));
    assert!(!is_reduction_poly(&vec![1, 0, 1, 0, 1], 4));
}

#[test]
fn standard_parameter_sets() {
    let p = Parameters::ml_kem_512();
    assert_eq!((p.n, p.q, p.k, p.eta_1, p.eta_2, p.du, p.dv, p.omega), (256, 3329, 2, 3, 2, 10, 4, 17));
    let p = Parameters::ml_kem_768();
    assert_eq!((p.n, p.q, p.k, p.eta_1, p.eta_2, p.du, p.dv, p.omega), (256, 3329, 3, 2, 2, 10, 4, 17));
    let p = Parameters::ml_kem_1024();
    assert_eq!((p.n, p.q, p.k, p.eta_1, p.eta_2, p.du, p.dv, p.omega), (256, 3329, 4, 2, 2, 11, 5, 17));
    let p = Parameters::default();
    assert_eq!((p.k, p.eta_1), (2, 3));
    assert_eq!(p.f, build_reduction_poly(256));
}

#[test]
fn number_helpers() {
    assert_eq!(gcd(17, 3329), 1);
    assert_eq!(gcd(12, 18), 6);
    assert_eq!(gcd(0, 5), 5);
    assert_eq!(gcd(5, 0), 5);
    assert!(is_power_of_two(256));
    assert!(is_power_of_two(1));
    assert!(!is_power_of_two(0));
    assert!(!is_power_of_two(24));
    assert!(check_root_of_unity(17, 256, 3329));
    assert!(!check_root_of_unity(17, 128, 3329));
    assert!(check_root_of_unity(3328, 2, 3329));
    assert!(!check_root_of_unity(1, 256, 3329));
    assert!(check_prime(3329));
    assert!(check_prime(2));
    assert!(!check_prime(1));
    assert!(!check_prime(3333));
}
