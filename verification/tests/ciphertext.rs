use lbf_eval::ciphertext::Ciphertext;

fn ct(lwe: &[u64], degree: usize, noise_level: usize, message_modulus: usize) -> Ciphertext {
    Ciphertext { lwe: lwe.to_vec(), degree, noise_level, message_modulus, carry_modulus: 1 }
}

const DELTA: u64 = 1 << 61;

#[test]
fn a_trivial_ciphertext() {
    let t = Ciphertext::trivial(3, 4, DELTA, 2, 2);
    assert_eq!(
        t,
        Ciphertext {
            lwe: vec![0, 0, 0, 3 << 61],
            degree: 3,
            noise_level: 0,
            message_modulus: 2,
            carry_modulus: 2
        }
    );
    // the encoding wraps around
    let t = Ciphertext::trivial(u64::MAX, 1, DELTA, 2, 2);
    assert_eq!(t.lwe, [7 << 61]);
    assert_eq!(t.degree, usize::MAX);
    let t = Ciphertext::trivial(9, 2, DELTA, 8, 0);
    assert_eq!(t.lwe, [0, 1 << 61]);
}

#[test]
fn a_copy_is_equal() {
    let a = ct(&[1, 2, 3], 4, 5, 6);
    assert_eq!(a.duplicate(), a);
}

#[test]
fn times_a_scalar() {
    let a = ct(&[1, u64::MAX, 1 << 63, 5], 3, 2, 8);
    assert_eq!(a.unchecked_scalar_mul(3), ct(&[3, u64::MAX - 2, 1 << 63, 15], 9, 6, 8));
    assert_eq!(a.unchecked_scalar_mul(0), ct(&[0, 0, 0, 0], 0, 0, 8));
    assert_eq!(a.unchecked_scalar_mul(1), a);
    assert_eq!(a.unchecked_scalar_mul(2).lwe, [2, u64::MAX - 1, 0, 10]);
    // the degree wraps, the noise level stops at the top
    let b = ct(&[1], usize::MAX, usize::MAX, 8);
    assert_eq!(b.unchecked_scalar_mul(2), ct(&[2], usize::MAX - 1, usize::MAX, 8));
}

#[test]
fn sum_of_two() {
    let a = ct(&[1, u64::MAX, 7], 3, 2, 8);
    let b = ct(&[10, 2, u64::MAX - 6], 4, 1, 2);
    assert_eq!(a.unchecked_add(&b), ct(&[11, 1, 0], 7, 3, 8));
    let top = ct(&[0], usize::MAX, usize::MAX, 4);
    assert_eq!(top.unchecked_add(&ct(&[5], 2, 1, 1)), ct(&[5], 1, usize::MAX, 4));
}

#[test]
fn difference_of_two() {
    let a = ct(&[10, 0, 5], 3, 2, 4);
    // degree 5 with the message modulus 2: three rounds, a factor of 6
    let b = ct(&[1, 1, 7], 5, 1, 2);
    assert_eq!(a.unchecked_sub(&b, 100), ct(&[9, u64::MAX, (u64::MAX - 1).wrapping_add(600)], 9, 3, 4));
    // degree 0: still one round
    let z = ct(&[0, 0, 0], 0, 0, 8);
    assert_eq!(a.unchecked_sub(&z, DELTA), ct(&[10, 0, 5], 11, 2, 4));
    // eight steps of 2^61 are a full turn
    let fresh = ct(&[3, 4, 5], 7, 1, 8);
    assert_eq!(a.unchecked_sub(&fresh, DELTA).lwe, [7, u64::MAX - 3, 0]);
    // degree 8 with the message modulus 8 is one round, degree 9 is two
    assert_eq!(a.unchecked_sub(&ct(&[0, 0, 0], 8, 0, 8), 1), ct(&[10, 0, 13], 11, 2, 4));
    assert_eq!(a.unchecked_sub(&ct(&[0, 0, 0], 9, 0, 8), 1), ct(&[10, 0, 21], 19, 2, 4));
}

#[test]
fn shifting_the_body() {
    let mut a = ct(&[1, 2, u64::MAX], 3, 2, 4);
    a.unchecked_plaintext_add_assign(3);
    assert_eq!(a, ct(&[1, 2, 2], 3, 2, 4));
    let mut b = ct(&[9], 0, 0, 1);
    b.unchecked_plaintext_add_assign(DELTA);
    assert_eq!(b.lwe, [9 + DELTA]);
}
