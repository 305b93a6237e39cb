use ml_kem::codec::{decode_poly, decode_vector, encode_poly, encode_vector};
use ml_kem::compress::{compress_poly, decompress_poly};
use ml_kem::ml_kem::{bytes_equal, poly_byte_len, MLKEM};
use ml_kem::params::{Error, Parameters};

fn message(tag: u8) -> Vec<u8> {
    (0..32u32).map(|i| (i as u8).wrapping_mul(37).wrapping_add(tag)).collect()
}

fn round_trip(params: Parameters, d: Vec<u8>, m: Vec<u8>, r: Vec<u8>) {
    let mlkem = MLKEM::new(params);
    let (ek, dk) = mlkem._k_pke_keygen(d).unwrap();
    let c = mlkem._k_pke_encrypt(ek, m.clone(), r).unwrap();
    assert_ne!(c, m);
    assert_eq!(mlkem._k_pke_decrypt(dk, c), Ok(m));
}

#[test]
fn fixed_seed_round_trip_rank_2() {
    round_trip(Parameters::ml_kem_512(), vec![0x01, 0x02, 0x03, 0x04], message(1), vec![0x01, 0x02, 0x03, 0x04]);
}

#[test]
fn fixed_seed_round_trip_rank_3() {
    round_trip(Parameters::ml_kem_768(), vec![0x01, 0x02, 0x03, 0x04], message(2), vec![0x01, 0x02, 0x03, 0x04]);
}

#[test]
fn fixed_seed_outputs_are_pinned() {
    let pinned: [(Parameters, [u8; 32], [u8; 32], [u8; 32]); 2] = [
        (
            Parameters::ml_kem_512(),
            [
                123, 58, 4, 127, 175, 178, 234, 63, 229, 12, 42, 187, 122, 157, 2, 126, 210, 46,
                193, 57, 105, 69, 183, 72, 201, 34, 12, 16, 62, 218, 124, 40,
            ],
            [
                133, 221, 131, 161, 140, 100, 196, 225, 54, 46, 43, 207, 37, 166, 211, 139, 198,
                182, 127, 161, 30, 243, 178, 155, 187, 177, 11, 252, 222, 233, 39, 103,
            ],
            [
                113, 69, 182, 228, 176, 243, 149, 88, 129, 120, 61, 198, 72, 148, 224, 118, 165,
                209, 228, 248, 72, 43, 151, 123, 122, 225, 226, 164, 147, 219, 234, 116,
            ],
        ),
        (
            Parameters::ml_kem_768(),
            [
                149, 233, 83, 132, 180, 139, 202, 77, 201, 46, 99, 134, 168, 214, 227, 19, 230,
                236, 41, 67, 170, 230, 79, 230, 229, 201, 49, 48, 177, 130, 150, 240,
            ],
            [
                143, 10, 145, 216, 129, 220, 178, 85, 127, 43, 216, 250, 41, 50, 142, 224, 104,
                129, 40, 66, 18, 72, 23, 234, 19, 194, 38, 167, 142, 252, 241, 188,
            ],
            [
                214, 32, 124, 18, 40, 238, 194, 221, 206, 169, 134, 192, 14, 117, 60, 209, 248,
                121, 33, 39, 24, 36, 40, 27, 103, 39, 35, 25, 196, 17, 118, 213,
            ],
        ),
    ];
    for (params, ek_digest, dk_digest, c_digest) in pinned {
        let mlkem = MLKEM::new(params);
        let (ek, dk) = mlkem._k_pke_keygen(vec![0x01, 0x02, 0x03, 0x04]).unwrap();
        let m: Vec<u8> = (0..32u8).collect();
        let c = mlkem._k_pke_encrypt(ek.clone(), m.clone(), vec![0x01, 0x02, 0x03, 0x04]).unwrap();
        assert_eq!(ml_kem::hashing::hash_h(&ek), ek_digest.to_vec());
        assert_eq!(ml_kem::hashing::hash_h(&dk), dk_digest.to_vec());
        assert_eq!(ml_kem::hashing::hash_h(&c), c_digest.to_vec());
        assert_eq!(mlkem._k_pke_decrypt(dk, c), Ok(m));
    }
}

#[test]
fn round_trip_rank_4() {
    round_trip(Parameters::ml_kem_1024(), vec![7u8; 32], message(3), vec![9u8; 32]);
}

#[test]
fn round_trip_many_messages() {
    let mlkem = MLKEM::new(Parameters::ml_kem_512());
    let (ek, dk) = mlkem._k_pke_keygen(vec![0xA5; 32]).unwrap();
    for tag in 0..8u8 {
        let m = message(tag);
        let c = mlkem._k_pke_encrypt(ek.clone(), m.clone(), vec![tag; 32]).unwrap();
        assert_eq!(mlkem._k_pke_decrypt(dk.clone(), c), Ok(m));
    }
    let zeros = vec![0u8; 32];
    let c = mlkem._k_pke_encrypt(ek.clone(), zeros.clone(), vec![1]).unwrap();
    assert_eq!(mlkem._k_pke_decrypt(dk.clone(), c), Ok(zeros));
    let ones = vec![0xFFu8; 32];
    let c = mlkem._k_pke_encrypt(ek, ones.clone(), vec![2]).unwrap();
    assert_eq!(mlkem._k_pke_decrypt(dk, c), Ok(ones));
}

#[test]
fn key_and_ciphertext_lengths() {
    for (params, k, du, dv) in [
        (Parameters::ml_kem_512(), 2usize, 10usize, 4usize),
        (Parameters::ml_kem_768(), 3, 10, 4),
        (Parameters::ml_kem_1024(), 4, 11, 5),
    ] {
        let mlkem = MLKEM::new(params);
        let (ek, dk) = mlkem._k_pke_keygen(vec![1, 2, 3, 4]).unwrap();
        assert_eq!(ek.len(), 384 * k + 32);
        assert_eq!(dk.len(), 384 * k);
        let c = mlkem._k_pke_encrypt(ek, message(0), vec![5]).unwrap();
        assert_eq!(c.len(), 32 * du * k + 32 * dv);
    }
    assert_eq!(poly_byte_len(256, 12), 384);
    assert_eq!(poly_byte_len(256, 1), 32);
}

#[test]
fn keygen_is_deterministic() {
    let mlkem = MLKEM::new(Parameters::ml_kem_768());
    let first = mlkem._k_pke_keygen(vec![0x01, 0x02, 0x03, 0x04]).unwrap();
    let second = mlkem._k_pke_keygen(vec![0x01, 0x02, 0x03, 0x04]).unwrap();
    assert_eq!(first, second);
    let other = mlkem._k_pke_keygen(vec![0x01, 0x02, 0x03, 0x05]).unwrap();
    assert_ne!(first.0, other.0);
    assert_ne!(first.1, other.1);
}

#[test]
fn keygen_separates_ranks() {
    let (ek2, _) = MLKEM::new(Parameters::ml_kem_512())._k_pke_keygen(vec![1, 2, 3, 4]).unwrap();
    let (ek3, _) = MLKEM::new(Parameters::ml_kem_768())._k_pke_keygen(vec![1, 2, 3, 4]).unwrap();
    assert_ne!(ek2[ek2.len() - 32..], ek3[ek3.len() - 32..]);
}

#[test]
fn encryption_is_deterministic_in_its_randomness() {
    let mlkem = MLKEM::new(Parameters::ml_kem_512());
    let (ek, _) = mlkem._k_pke_keygen(vec![1, 2, 3, 4]).unwrap();
    let a = mlkem._k_pke_encrypt(ek.clone(), message(1), vec![1, 2, 3, 4]).unwrap();
    let b = mlkem._k_pke_encrypt(ek.clone(), message(1), vec![1, 2, 3, 4]).unwrap();
    let c = mlkem._k_pke_encrypt(ek, message(1), vec![1, 2, 3, 5]).unwrap();
    assert_eq!(a, b);
    assert_ne!(a, c);
}

#[test]
fn encrypt_rejects_wrong_lengths() {
    let mlkem = MLKEM::new(Parameters::ml_kem_512());
    let (ek, _) = mlkem._k_pke_keygen(vec![1, 2, 3, 4]).unwrap();
    let mut short = ek.clone();
    short.pop();
    assert_eq!(mlkem._k_pke_encrypt(short, message(0), vec![1]), Err(Error::LengthMismatch));
    let mut long = ek.clone();
    long.push(0);
    assert_eq!(mlkem._k_pke_encrypt(long, message(0), vec![1]), Err(Error::LengthMismatch));
    assert_eq!(mlkem._k_pke_encrypt(Vec::new(), message(0), vec![1]), Err(Error::LengthMismatch));
    assert_eq!(mlkem._k_pke_encrypt(ek, vec![0u8; 31], vec![1]), Err(Error::LengthMismatch));
}

#[test]
fn key_is_judged_before_the_message() {
    let mlkem = MLKEM::new(Parameters::ml_kem_512());
    let (ek, _) = mlkem._k_pke_keygen(vec![1, 2, 3, 4]).unwrap();
    let mut bad = ek.clone();
    bad[2] = 0xFF;
    for len in [0usize, 31, 32, 33, 64] {
        assert_eq!(
            mlkem._k_pke_encrypt(bad.clone(), vec![0u8; len], vec![1]),
            Err(Error::NonCanonicalEncoding)
        );
        assert_eq!(
            mlkem.encapsulate_with(bad.clone(), vec![0u8; len], vec![1]),
            Err(Error::NonCanonicalEncoding)
        );
    }
    let mut short = bad.clone();
    short.pop();
    for len in [0usize, 32, 33] {
        assert_eq!(
            mlkem._k_pke_encrypt(short.clone(), vec![0u8; len], vec![1]),
            Err(Error::LengthMismatch)
        );
    }
    for len in [0usize, 31, 33] {
        assert_eq!(
            mlkem._k_pke_encrypt(ek.clone(), vec![0u8; len], vec![1]),
            Err(Error::LengthMismatch)
        );
    }
    assert!(mlkem._k_pke_encrypt(ek, vec![0u8; 32], vec![1]).is_ok());
}

#[test]
fn encrypt_rejects_non_canonical_key() {
    let mlkem = MLKEM::new(Parameters::ml_kem_512());
    let (ek, _) = mlkem._k_pke_keygen(vec![1, 2, 3, 4]).unwrap();
    for at in [0usize, 300, 765] {
        let mut bad = ek.clone();
        bad[at] = 0xFF;
        bad[at + 1] = 0xFF;
        bad[at + 2] = 0xFF;
        assert_eq!(
            mlkem._k_pke_encrypt(bad, message(0), vec![1]),
            Err(Error::NonCanonicalEncoding)
        );
    }
}

#[test]
fn flipped_key_bytes_never_pass_as_the_same_key() {
    let mlkem = MLKEM::new(Parameters::ml_kem_512());
    let (ek, _) = mlkem._k_pke_keygen(vec![1, 2, 3, 4]).unwrap();
    let honest = mlkem._k_pke_encrypt(ek.clone(), message(0), vec![1]).unwrap();
    let mut rejected = 0;
    for at in (0..768usize).step_by(17) {
        let mut bad = ek.clone();
        bad[at] ^= 0xFF;
        match mlkem._k_pke_encrypt(bad, message(0), vec![1]) {
            Err(e) => {
                assert_eq!(e, Error::NonCanonicalEncoding);
                rejected += 1;
            }
            Ok(c) => assert_ne!(c, honest),
        }
    }
    assert!(rejected > 0);
}

#[test]
fn decrypt_rejects_wrong_lengths() {
    let mlkem = MLKEM::new(Parameters::ml_kem_512());
    let (ek, dk) = mlkem._k_pke_keygen(vec![1, 2, 3, 4]).unwrap();
    let c = mlkem._k_pke_encrypt(ek, message(0), vec![1]).unwrap();
    let mut short_key = dk.clone();
    short_key.pop();
    assert_eq!(mlkem._k_pke_decrypt(short_key, c.clone()), Err(Error::LengthMismatch));
    let mut long_ct = c.clone();
    long_ct.push(0);
    assert_eq!(mlkem._k_pke_decrypt(dk.clone(), long_ct), Err(Error::LengthMismatch));
    assert_eq!(mlkem._k_pke_decrypt(dk, Vec::new()), Err(Error::LengthMismatch));
}

#[test]
fn round_trip_needs_little_enough_noise() {
    let mut coarse = Parameters::ml_kem_512();
    coarse.du = 1;
    coarse.dv = 1;
    assert!(coarse.is_wf());
    let mlkem = MLKEM::new(coarse);
    let (ek, dk) = mlkem._k_pke_keygen(vec![1, 2, 3, 4]).unwrap();
    let m: Vec<u8> = (0..32u8).collect();
    let c = mlkem._k_pke_encrypt(ek, m.clone(), vec![1, 2, 3, 4]).unwrap();
    assert_eq!(c.len(), 32 * 2 + 32);
    let back = mlkem._k_pke_decrypt(dk, c).unwrap();
    assert_eq!(back.len(), 32);
    assert_ne!(back, m);
}

#[test]
fn kem_shared_secrets_agree() {
    for params in [Parameters::ml_kem_512(), Parameters::ml_kem_768(), Parameters::ml_kem_1024()] {
        let mut mlkem = MLKEM::new(params);
        assert_eq!(mlkem.set_drbg_seed(vec![0x42; 48]), Ok(()));
        let (ek, dk) = mlkem.keygen().unwrap();
        let (secret, ct) = mlkem.encapsulate(ek).unwrap();
        assert_eq!(secret.len(), 32);
        assert_eq!(mlkem.decapsulate(dk, ct), Ok(secret));
    }
}

#[test]
fn kem_is_reproducible_from_the_generator_seed() {
    let mut a = MLKEM::new(Parameters::ml_kem_512());
    let mut b = MLKEM::new(Parameters::ml_kem_512());
    a.set_drbg_seed(vec![0x42; 48]).unwrap();
    b.set_drbg_seed(vec![0x42; 48]).unwrap();
    let keys_a = a.keygen().unwrap();
    let keys_b = b.keygen().unwrap();
    assert_eq!(keys_a, keys_b);
    let again = a.keygen().unwrap();
    assert_ne!(again.0, keys_a.0);
    let mut c = MLKEM::new(Parameters::ml_kem_512());
    c.set_drbg_seed(vec![0x43; 48]).unwrap();
    assert_ne!(c.keygen().unwrap().0, keys_a.0);
}

#[test]
fn encapsulate_with_fixed_inputs() {
    let mlkem = MLKEM::new(Parameters::ml_kem_768());
    let (ek, dk) = mlkem._k_pke_keygen(vec![1, 2, 3, 4]).unwrap();
    let m = message(9);
    let (secret, ct) = mlkem.encapsulate_with(ek.clone(), m.clone(), vec![1, 2, 3, 4]).unwrap();
    assert_eq!(secret, ml_kem::hashing::hash_h(&m));
    assert_eq!(ct, mlkem._k_pke_encrypt(ek, m, vec![1, 2, 3, 4]).unwrap());
    assert_eq!(mlkem.decapsulate(dk, ct), Ok(secret));
}

#[test]
fn kem_needs_a_seeded_generator() {
    let mut mlkem = MLKEM::new(Parameters::ml_kem_512());
    assert!(mlkem.drbg.is_none());
    assert_eq!(mlkem.keygen(), Err(Error::SamplingFailure));
    let (ek, _) = mlkem._k_pke_keygen(vec![1, 2, 3, 4]).unwrap();
    assert_eq!(mlkem.encapsulate(ek), Err(Error::SamplingFailure));
}

#[test]
fn short_generator_seed_is_refused() {
    let mut mlkem = MLKEM::new(Parameters::ml_kem_512());
    assert_eq!(mlkem.set_drbg_seed(vec![0x42; 47]), Err(Error::SeedLengthError));
    assert!(mlkem.drbg.is_none());
    assert_eq!(mlkem.set_drbg_seed(Vec::new()), Err(Error::SeedLengthError));
    assert_eq!(mlkem.set_drbg_seed(vec![0x42; 64]), Ok(()));
    assert!(mlkem.drbg.is_some());
}

#[test]
fn kem_surfaces_key_errors() {
    let mut mlkem = MLKEM::new(Parameters::ml_kem_512());
    mlkem.set_drbg_seed(vec![1; 48]).unwrap();
    assert_eq!(mlkem.encapsulate(vec![0u8; 10]), Err(Error::LengthMismatch));
    assert_eq!(mlkem.encapsulate(vec![0xFFu8; 800]), Err(Error::NonCanonicalEncoding));
    assert_eq!(mlkem.decapsulate(vec![0u8; 10], vec![0u8; 768]), Err(Error::LengthMismatch));
}

#[test]
fn keygen_succeeds_for_a_small_modulus() {
    let mut small = Parameters::ml_kem_512();
    small.q = 17;
    small.omega = 2;
    small.du = 4;
    assert!(small.is_wf());
    let mlkem = MLKEM::new(small);
    let (ek, dk) = mlkem._k_pke_keygen(vec![1, 2, 3, 4]).unwrap();
    assert_eq!(ek.len(), 384 * 2 + 32);
    assert_eq!(dk.len(), 384 * 2);
    let c = mlkem._k_pke_encrypt(ek, (0..32u8).collect(), vec![1, 2, 3, 4]).unwrap();
    assert_eq!(c.len(), 32 * 4 * 2 + 32 * 4);
}

#[test]
fn keys_are_the_encodings_of_what_they_decode_to() {
    for params in [Parameters::ml_kem_512(), Parameters::ml_kem_768()] {
        let k = params.k;
        let mlkem = MLKEM::new(params);
        let (ek, dk) = mlkem._k_pke_keygen(vec![1, 2, 3, 4]).unwrap();
        let t_bytes = ek[..384 * k].to_vec();
        let t_hat = decode_vector(&t_bytes, k, 12, false, 3329);
        let s_hat = decode_vector(&dk, k, 12, false, 3329);
        assert!(t_hat.iter().chain(s_hat.iter()).all(|p| p.len() == 256 && p.iter().all(|&c| c < 3329)));
        assert_eq!(encode_vector(&t_hat, 12), t_bytes);
        assert_eq!(encode_vector(&s_hat, 12), dk);
        assert_eq!(decode_vector(&dk, k, 12, true, 3329), s_hat);
    }
}

#[test]
fn ciphertext_parts_stay_within_the_compression_error() {
    let mlkem = MLKEM::new(Parameters::ml_kem_512());
    let (ek, _) = mlkem._k_pke_keygen(vec![1, 2, 3, 4]).unwrap();
    let c = mlkem._k_pke_encrypt(ek, (0..32u8).collect(), vec![1, 2, 3, 4]).unwrap();
    let cut = 2 * 32 * 10;
    let c1 = c[..cut].to_vec();
    let c2 = c[cut..].to_vec();
    let u_bits = decode_vector(&c1, 2, 10, false, 3329);
    let v_bits = decode_poly(&c2, 4);
    assert!(u_bits.iter().all(|p| p.len() == 256 && p.iter().all(|&x| x < 1024)));
    assert!(v_bits.len() == 256 && v_bits.iter().all(|&x| x < 16));
    assert_eq!(encode_vector(&u_bits, 10), c1);
    assert_eq!(encode_poly(&v_bits, 4), c2);
    let v = decompress_poly(&v_bits, 4, 3329);
    assert_eq!(compress_poly(&v, 4, 3329), v_bits);
}

#[test]
fn seeding_again_restarts_the_generator() {
    let mut mlkem = MLKEM::new(Parameters::ml_kem_512());
    mlkem.set_drbg_seed(vec![0x42; 48]).unwrap();
    let first = mlkem.keygen().unwrap();
    let second = mlkem.keygen().unwrap();
    assert_ne!(first, second);
    mlkem.set_drbg_seed(vec![0x42; 48]).unwrap();
    assert_eq!(mlkem.keygen().unwrap(), first);
    assert_eq!(mlkem.keygen().unwrap(), second);
    let mut long_seed = vec![0x42; 48];
    long_seed.extend_from_slice(&[1, 2, 3]);
    mlkem.set_drbg_seed(long_seed).unwrap();
    assert_eq!(mlkem.keygen().unwrap(), first);
}

#[test]
fn encapsulation_draws_the_message_then_the_randomness() {
    let mut a = MLKEM::new(Parameters::ml_kem_512());
    let mut b = MLKEM::new(Parameters::ml_kem_512());
    a.set_drbg_seed(vec![7; 48]).unwrap();
    b.set_drbg_seed(vec![7; 48]).unwrap();
    let (ek, dk) = a._k_pke_keygen(vec![1, 2, 3, 4]).unwrap();
    let (secret, ct) = a.encapsulate(ek.clone()).unwrap();
    let mut m = vec![0u8; 32];
    let mut r = vec![0u8; 32];
    b.drbg.as_mut().unwrap().get_random(&mut m);
    b.drbg.as_mut().unwrap().get_random(&mut r);
    assert_eq!(a.encapsulate_with(ek, m, r), Ok((secret.clone(), ct.clone())));
    assert_eq!(a.decapsulate(dk, ct), Ok(secret));
}

#[test]
fn byte_comparison() {
    assert!(bytes_equal(&vec![1, 2, 3], &vec![1, 2, 3]));
    assert!(!bytes_equal(&vec![1, 2, 3], &vec![1, 2, 4]));
    assert!(!bytes_equal(&vec![1, 2, 3], &vec![1, 2]));
    assert!(bytes_equal(&Vec::new(), &Vec::new()));
}
