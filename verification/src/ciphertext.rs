//! Ciphertexts of the short-integer scheme as plain values, and the
//! arithmetic of the operations that mix them without a bootstrap.
//!
//! An LWE ciphertext is its mask followed by its body, all numbers modulo
//! 2^64. The scheme adds bookkeeping: a bound on the message (the degree), a
//! noise level, and the message and carry moduli that the ciphertext was made
//! for.

use crate::plan::copy_vec;
use crate::shortint::{lwe_add, lwe_plaintext_add, lwe_scalar_mul, lwe_sub, lwe_trivial};
use vstd::prelude::*;

verus! {

/// A ciphertext.
#[derive(Debug, Clone, PartialEq, Eq)]
pub struct Ciphertext {
    /// The LWE mask, then the body as the last element.
    pub lwe: Vec<u64>,
    pub degree: usize,
    pub noise_level: usize,
    pub message_modulus: usize,
    pub carry_modulus: usize,
}

/// A ciphertext as specifications see it.
pub struct CiphertextView {
    pub lwe: Seq<u64>,
    pub degree: usize,
    pub noise_level: usize,
    pub message_modulus: usize,
    pub carry_modulus: usize,
}

impl View for Ciphertext {
    type V = CiphertextView;

    open spec fn view(&self) -> CiphertextView {
        CiphertextView {
            lwe: self.lwe@,
            degree: self.degree,
            noise_level: self.noise_level,
            message_modulus: self.message_modulus,
            carry_modulus: self.carry_modulus,
        }
    }
}

/// `x` if it fits a `usize`, the largest `usize` otherwise.
pub open spec fn saturate(x: int) -> usize {
    if x > usize::MAX {
        usize::MAX
    } else {
        x as usize
    }
}

/// The number that encodes the message 1: the 63 bits below the padding bit
/// split into `plaintext_modulus` steps.
pub open spec fn delta_of(plaintext_modulus: usize) -> u64 {
    (0x8000_0000_0000_0000u64 / (plaintext_modulus as u64)) as u64
}

/// The smallest multiple of `modulus` that is at least `degree`, and at least
/// `modulus`; modulo 2^64.
pub open spec fn correcting_factor(degree: usize, modulus: usize) -> u64 {
    let quotient = degree / modulus + if degree % modulus != 0 {
        1int
    } else {
        0int
    };
    let rounds = if quotient < 1 {
        1u64
    } else {
        quotient as u64
    };
    rounds.wrapping_mul(modulus as u64)
}

impl CiphertextView {
    /// The ciphertext times `scalar`: every number of it times `scalar`.
    pub open spec fn scale(self, scalar: u8) -> CiphertextView {
        CiphertextView {
            lwe: Seq::new(self.lwe.len(), |i: int| self.lwe[i].wrapping_mul(scalar as u64)),
            degree: self.degree.wrapping_mul(scalar as usize),
            noise_level: saturate(self.noise_level * scalar),
            message_modulus: self.message_modulus,
            carry_modulus: self.carry_modulus,
        }
    }

    /// The sum of two ciphertexts of one length: number by number.
    pub open spec fn plus(self, rhs: CiphertextView) -> CiphertextView {
        CiphertextView {
            lwe: Seq::new(self.lwe.len(), |i: int| self.lwe[i].wrapping_add(rhs.lwe[i])),
            degree: self.degree.wrapping_add(rhs.degree),
            noise_level: saturate(self.noise_level + rhs.noise_level),
            message_modulus: self.message_modulus,
            carry_modulus: self.carry_modulus,
        }
    }

    /// The ciphertext with `plaintext` added to its body.
    pub open spec fn shift(self, plaintext: u64) -> CiphertextView {
        CiphertextView {
            lwe: self.lwe.update(
                self.lwe.len() - 1,
                self.lwe[self.lwe.len() - 1].wrapping_add(plaintext),
            ),
            degree: self.degree,
            noise_level: self.noise_level,
            message_modulus: self.message_modulus,
            carry_modulus: self.carry_modulus,
        }
    }

    /// The difference of two ciphertexts of one length, kept from going
    /// negative: `rhs` is taken off number by number, and a multiple of its
    /// own message modulus that covers its degree, times `delta`, is added to
    /// the body.
    pub open spec fn minus(self, rhs: CiphertextView, delta: u64) -> CiphertextView {
        let factor = correcting_factor(rhs.degree, rhs.message_modulus);
        CiphertextView {
            lwe: Seq::new(self.lwe.len(), |i: int| self.lwe[i].wrapping_sub(rhs.lwe[i])),
            degree: self.degree.wrapping_add(factor as usize),
            noise_level: saturate(self.noise_level + rhs.noise_level),
            message_modulus: self.message_modulus,
            carry_modulus: self.carry_modulus,
        }.shift(factor.wrapping_mul(delta))
    }

    /// The ciphertext with another degree.
    pub open spec fn with_degree(self, degree: usize) -> CiphertextView {
        CiphertextView {
            lwe: self.lwe,
            degree,
            noise_level: self.noise_level,
            message_modulus: self.message_modulus,
            carry_modulus: self.carry_modulus,
        }
    }
}

/// The ciphertext that anyone can read as `value`: a mask of zeros and
/// `value * delta` as the body, for the given length and moduli.
pub open spec fn trivial(
    value: u64,
    lwe_size: usize,
    delta: u64,
    message_modulus: usize,
    carry_modulus: usize,
) -> CiphertextView {
    CiphertextView {
        lwe: Seq::new(
            lwe_size as nat,
            |i: int|
                if i == lwe_size - 1 {
                    value.wrapping_mul(delta)
                } else {
                    0u64
                },
        ),
        degree: value as usize,
        noise_level: 0,
        message_modulus,
        carry_modulus,
    }
}

/// The sum of two noise levels or of two factors of one, held at the largest
/// `usize`.
fn saturating(x: Option<usize>) -> (r: usize)
    ensures
        r == match x {
            Some(v) => v,
            None => usize::MAX,
        },
{
    match x {
        Some(v) => v,
        None => usize::MAX,
    }
}

impl Ciphertext {
    /// A copy of the ciphertext.
    pub fn duplicate(&self) -> (res: Ciphertext)
        ensures
            res@ == self@,
    {
        Ciphertext {
            lwe: copy_vec(&self.lwe),
            degree: self.degree,
            noise_level: self.noise_level,
            message_modulus: self.message_modulus,
            carry_modulus: self.carry_modulus,
        }
    }

    /// The trivial ciphertext of `value`: see [`trivial`].
    pub fn trivial(
        value: u64,
        lwe_size: usize,
        delta: u64,
        message_modulus: usize,
        carry_modulus: usize,
    ) -> (res: Ciphertext)
        requires
            lwe_size > 0,
        ensures
            res@ == trivial(value, lwe_size, delta, message_modulus, carry_modulus),
    {
        Ciphertext {
            lwe: lwe_trivial(lwe_size, value.wrapping_mul(delta)),
            degree: value as usize,
            noise_level: 0,
            message_modulus,
            carry_modulus,
        }
    }

    /// The ciphertext times `scalar`, unbootstrapped, whatever becomes of its
    /// degree and noise.
    pub fn unchecked_scalar_mul(&self, scalar: u8) -> (res: Ciphertext)
        requires
            self.lwe@.len() > 0,
        ensures
            res@ == self@.scale(scalar),
    {
        Ciphertext {
            lwe: lwe_scalar_mul(&self.lwe, scalar as u64),
            degree: self.degree.wrapping_mul(scalar as usize),
            noise_level: saturating(self.noise_level.checked_mul(scalar as usize)),
            message_modulus: self.message_modulus,
            carry_modulus: self.carry_modulus,
        }
    }

    /// The sum of two ciphertexts, unbootstrapped, whatever becomes of its
    /// degree and noise.
    pub fn unchecked_add(&self, rhs: &Ciphertext) -> (res: Ciphertext)
        requires
            self.lwe@.len() == rhs.lwe@.len() > 0,
        ensures
            res@ == self@.plus(rhs@),
    {
        Ciphertext {
            lwe: lwe_add(&self.lwe, &rhs.lwe),
            degree: self.degree.wrapping_add(rhs.degree),
            noise_level: saturating(self.noise_level.checked_add(rhs.noise_level)),
            message_modulus: self.message_modulus,
            carry_modulus: self.carry_modulus,
        }
    }

    /// The difference of two ciphertexts with its correcting term, for the
    /// given `delta`; unbootstrapped, whatever becomes of its degree and
    /// noise.
    pub fn unchecked_sub(&self, rhs: &Ciphertext, delta: u64) -> (res: Ciphertext)
        requires
            self.lwe@.len() == rhs.lwe@.len() > 0,
            rhs.message_modulus > 0,
        ensures
            res@ == self@.minus(rhs@, delta),
    {
        let modulus = rhs.message_modulus;
        let whole = rhs.degree / modulus;
        let rest = rhs.degree % modulus;
        proof {
            if rest != 0 {
                assert(whole * modulus <= rhs.degree) by (nonlinear_arith)
                    requires
                        whole == rhs.degree / modulus,
                        modulus > 0,
                ;
                assert(2 * whole <= whole * modulus) by (nonlinear_arith)
                    requires
                        modulus >= 2,
                        whole >= 0,
                ;
            }
        }
        let quotient = whole + if rest != 0 {
            1
        } else {
            0
        };
        let rounds: u64 = if quotient < 1 {
            1
        } else {
            quotient as u64
        };
        let factor = rounds.wrapping_mul(modulus as u64);
        Ciphertext {
            lwe: lwe_plaintext_add(lwe_sub(&self.lwe, &rhs.lwe), factor.wrapping_mul(delta)),
            degree: self.degree.wrapping_add(factor as usize),
            noise_level: saturating(self.noise_level.checked_add(rhs.noise_level)),
            message_modulus: self.message_modulus,
            carry_modulus: self.carry_modulus,
        }
    }

    /// Adds `plaintext` to the body.
    pub fn unchecked_plaintext_add_assign(&mut self, plaintext: u64)
        requires
            old(self).lwe@.len() > 0,
        ensures
            final(self)@ == old(self)@.shift(plaintext),
    {
        let mut lwe: Vec<u64> = Vec::new();
        core::mem::swap(&mut lwe, &mut self.lwe);
        self.lwe = lwe_plaintext_add(lwe, plaintext);
    }
}

} // verus!
