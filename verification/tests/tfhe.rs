use lbf_eval::ciphertext::Ciphertext;
use lbf_eval::client::{gen_client_server, ParameterSet};
use lbf_eval::test_vector::TestVectorType;
use rayon::iter::{IntoParallelIterator, ParallelIterator};
use tfhe::shortint::prelude::PARAM_MESSAGE_1_CARRY_1_KS_PBS;

#[test]
fn lincomb() {
    let (client, server) = gen_client_server(ParameterSet::Message1Carry1).unwrap();

    for b0 in [0u8, 1] {
        for b1 in [0u8, 1] {
            for b2 in [0u8, 1] {
                let ct0 = client.encrypt(b0);
                let ct1 = client.encrypt(b1);
                let ct2 = client.encrypt(b2);

                let ct = server.lincomb(&[&ct0, &ct1, &ct2], &[2, 1, -3], 3);

                let val = client.decrypt(&ct).unwrap();
                let exp_val = b0 as i8 * 2 + b1 as i8 * 1 + b2 as i8 * (-3) + 3;
                let exp_val = exp_val % client.pt_mod_full as i8;
                let exp_val = if exp_val < 0 {
                    client.pt_mod_full as i8 + exp_val
                } else {
                    exp_val
                } as u8;
                assert_eq!(exp_val, val);
            }
        }
    }
}

#[test]
fn bootstrap() {
    let (client, server) = gen_client_server(ParameterSet::Message1Carry1).unwrap();

    let tv = server
        .new_test_vector(vec![true, false, true, false, false])
        .unwrap();

    // the bootstraps are independent of each other and slow: run them side by side
    let vals: Vec<u8> = (0..client.pt_mod_full)
        .into_par_iter()
        .map(|msg| {
            let ct = client.encrypt(msg as u8);
            let ct_res = server.eval_bootstrap(ct, &tv);
            client.decrypt(&ct_res).unwrap()
        })
        .collect();

    for msg in 0..client.pt_mod_full {
        let val = vals[msg];
        let exp_val = if msg < server.pt_mod {
            tv.test_vec_fnc(msg as u64) as u8
        } else {
            match tv.tv_type {
                TestVectorType::Zero => 0,
                TestVectorType::One => 1,
                TestVectorType::Half => {
                    1 - tv.test_vec_fnc(msg as u64 % server.pt_mod as u64) as u8
                }
            }
        };
        assert_eq!(exp_val, val);
    }
}

const DELTA: u64 = 1 << 61;

#[test]
fn messages_come_back_from_encryption() {
    let (client, server) = gen_client_server(ParameterSet::Message1Carry1).unwrap();
    let params = PARAM_MESSAGE_1_CARRY_1_KS_PBS;
    assert_eq!(client.pt_mod_full, 8);
    assert_eq!(client.lwe_size, params.glwe_dimension.0 * params.polynomial_size.0 + 1);
    assert_eq!(client.lwe_size, server.lwe_size);
    for msg in 0..8u8 {
        let ct = client.encrypt(msg);
        assert_eq!(ct.lwe.len(), client.lwe_size);
        assert_eq!((ct.degree, ct.noise_level, ct.message_modulus, ct.carry_modulus), (7, 1, 8, 0));
        assert_eq!(client.decrypt(&ct), Some(msg));
    }
    // a message is taken modulo 8
    assert_eq!(client.decrypt(&client.encrypt(13)), Some(5));
    // two encryptions of one message differ
    assert_ne!(client.encrypt(1).lwe, client.encrypt(1).lwe);
}

#[test]
fn the_server_on_readable_ciphertexts() {
    let (client, server) = gen_client_server(ParameterSet::Message1Carry1).unwrap();
    let params = PARAM_MESSAGE_1_CARRY_1_KS_PBS;
    assert_eq!(
        (server.message_modulus, server.carry_modulus, server.pt_mod, server.pt_mod_full),
        (2, 2, 4, 8)
    );
    assert_eq!(server.polynomial_size, params.polynomial_size.0);
    let n = server.lwe_size;
    let plain = |value: u64| lbf_eval::ciphertext::Ciphertext::trivial(value, n, DELTA, 8, 0);
    let body = |ct: &lbf_eval::ciphertext::Ciphertext| *ct.lwe.last().unwrap();

    // half steps
    let mut ct = plain(1);
    server.unchecked_scalar_add_halves_assign(&mut ct, 3);
    assert_eq!((body(&ct), ct.degree), (DELTA + 3 * (DELTA / 2), 4));
    assert!(ct.lwe[..n - 1].iter().all(|x| *x == 0));
    let ct = server.prepare_bootstrap(plain(2));
    assert_eq!((body(&ct), ct.degree), (2 * DELTA + DELTA / 2, 3));
    let ct = server.finish_bootstrap(plain(2), TestVectorType::Zero);
    assert_eq!((body(&ct), ct.degree), (2 * DELTA, 2));
    let ct = server.finish_bootstrap(plain(2), TestVectorType::Half);
    assert_eq!((body(&ct), ct.degree), (2 * DELTA + DELTA / 2, 3));
    let ct = server.finish_bootstrap(plain(2), TestVectorType::One);
    assert_eq!((body(&ct), ct.degree), (3 * DELTA, 4));

    // 3 + 2 * 1 + 1 * 0 - 3 * 1 = 2; the correcting term of the subtraction is 8 steps, a full turn
    let (one, zero) = (plain(1), plain(0));
    let ct = server.lincomb(&[&one, &zero, &one], &[2, 1, -3], 3);
    assert_eq!(body(&ct), 2 * DELTA);
    assert!(ct.lwe[..n - 1].iter().all(|x| *x == 0));
    assert_eq!((ct.degree, ct.noise_level, ct.message_modulus, ct.carry_modulus), (3 + 2 + 8, 0, 2, 2));
    assert_eq!(client.decrypt(&ct), Some(2));
    // a negative constant wraps around: -1 + 1 = 0, -2 = 6 modulo 8
    assert_eq!(body(&server.lincomb(&[&one], &[1], -1)), 0);
    let ct = server.lincomb(&[], &[], -2);
    assert_eq!((body(&ct), ct.degree), (6 * DELTA, usize::MAX - 1));
    assert_eq!(client.decrypt(&ct), Some(6));
    // the coefficient 0 changes nothing; -128 + 127 = -1 = 7 modulo 8
    assert_eq!(server.lincomb(&[&one], &[0], 5), server.lincomb(&[], &[], 5));
    assert_eq!(body(&server.lincomb(&[&one, &one], &[-128, 127], 0)), 7 * DELTA);

    // tables
    let size = server.polynomial_size;
    let boxes = |body: &[u64]| -> Vec<u64> { (0..4).map(|i| body[i * (size / 4)]).collect() };
    let whole = |body: &[u64]| (0..size).all(|j| body[j] == body[j / (size / 4) * (size / 4)]);
    let acc = server.build_acc(&server.new_test_vector(vec![false, true]).unwrap());
    assert_eq!((acc.body.len(), acc.degree), (size, 1));
    assert_eq!(boxes(&acc.body), [0, DELTA, 0, 0]);
    assert!(whole(&acc.body));
    let acc = server.build_acc(&server.new_test_vector(vec![true, false, true, false, false]).unwrap());
    assert_eq!(boxes(&acc.body), [DELTA / 2, (DELTA / 2).wrapping_neg(), DELTA / 2, (DELTA / 2).wrapping_neg()]);
    assert!(whole(&acc.body));
    let acc = server.build_acc(&server.new_test_vector(vec![true, true, false, false, true, true]).unwrap());
    assert_eq!(boxes(&acc.body), [0, 0, DELTA.wrapping_neg(), DELTA.wrapping_neg()]);
    assert_eq!(server.build_acc(&server.new_test_vector(vec![]).unwrap()).degree, 0);

    // a bootstrap of a readable ciphertext has no noise: it gives the bit exactly
    for (table, expected) in [
        (vec![true, false, true, false, false], [1, 0, 1, 0, 0, 1, 0, 1]),
        (vec![false, false, true, true, false, false], [0, 0, 1, 1, 0, 0, 7, 7]),
        (vec![true, true, false, false, true, true], [1, 1, 0, 0, 1, 1, 2, 2]),
    ] {
        let tv = server.new_test_vector(table).unwrap();
        for msg in 0..8u64 {
            let ct = server.eval_bootstrap(plain(msg), &tv);
            assert_eq!(body(&ct), (expected[msg as usize] as u64).wrapping_mul(DELTA), "{:?} {}", tv, msg);
            assert_eq!(client.decrypt(&ct), Some(expected[msg as usize]));
            assert_eq!((ct.lwe.len(), ct.message_modulus, ct.noise_level), (n, 8, 0));
        }
    }
}

#[test]
fn a_client_and_a_server_of_one_pair_of_keys() {
    let (client_key, server_key) = tfhe::shortint::gen_keys(PARAM_MESSAGE_1_CARRY_1_KS_PBS);
    let (client, server) = lbf_eval::client::from_keys(client_key.clone(), server_key).unwrap();
    assert_eq!(client.client_key, client_key);
    assert_eq!((client.pt_mod_full, server.pt_mod_full), (8, 8));
    assert_eq!(client.lwe_size, server.lwe_size);
    let (one, zero) = (client.encrypt(1), client.encrypt(0));
    let ct = server.lincomb(&[&one, &zero, &one], &[1, 5, 1], 3);
    assert_eq!(client.decrypt(&ct), Some(5));
}

/// The plain values of a ciphertext of `tfhe`.
fn plain_values(ct: &tfhe::shortint::Ciphertext) -> Ciphertext {
    Ciphertext {
        lwe: ct.ct.as_ref().to_vec(),
        degree: ct.degree.get(),
        noise_level: ct.noise_level().get(),
        message_modulus: ct.message_modulus.0,
        carry_modulus: ct.carry_modulus.0,
    }
}

#[test]
fn ciphertext_arithmetic_is_that_of_the_server_key() {
    let (client_key, server_key) = tfhe::shortint::gen_keys(PARAM_MESSAGE_1_CARRY_1_KS_PBS);
    let size = server_key.ciphertext_lwe_dimension().to_lwe_size().0;

    // trivial ciphertexts, as far as the key's own encoding does not overflow
    for value in 0..8u64 {
        let theirs = server_key.unchecked_create_trivial(value);
        assert_eq!(Ciphertext::trivial(value, size, DELTA, 2, 2), plain_values(&theirs));
    }

    let fresh: Vec<tfhe::shortint::Ciphertext> = (0..4).map(|m| client_key.encrypt(m % 2)).collect();
    let trivial = server_key.unchecked_create_trivial(3);
    let mut all = fresh.clone();
    all.push(trivial);
    all.push(server_key.unchecked_scalar_mul(&fresh[1], 3));
    all.push(server_key.unchecked_add(&fresh[0], &fresh[3]));

    for a in &all {
        for scalar in [0u8, 1, 2, 3, 7, 128, 255] {
            let theirs = server_key.unchecked_scalar_mul(a, scalar);
            assert_eq!(plain_values(a).unchecked_scalar_mul(scalar), plain_values(&theirs));
        }
        for b in &all {
            let theirs = server_key.unchecked_add(a, b);
            assert_eq!(plain_values(a).unchecked_add(&plain_values(b)), plain_values(&theirs));
            // message modulus 2 and a degree of at most 5: a correcting factor of at most 6
            let theirs = server_key.unchecked_sub(a, b);
            assert_eq!(plain_values(a).unchecked_sub(&plain_values(b), DELTA), plain_values(&theirs));
        }
    }

    // the body of a ciphertext, shifted
    let mut theirs = fresh[2].clone();
    tfhe::core_crypto::prelude::lwe_ciphertext_plaintext_add_assign(
        &mut theirs.ct,
        tfhe::core_crypto::prelude::Plaintext(3 * DELTA + 5),
    );
    let mut ours = plain_values(&fresh[2]);
    ours.unchecked_plaintext_add_assign(3 * DELTA + 5);
    assert_eq!(ours, plain_values(&theirs));
}
