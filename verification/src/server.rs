//! The server: linear combinations of ciphertexts and functional bootstraps.
//!
//! With the plaintext modulus `p` of the key, a message lives modulo `2p`:
//! the bit above the `p` values of the scheme, its padding bit, is part of
//! the message here. A bootstrap reads a table of `p` entries at a message
//! below `2p`; in the upper half it yields the negation of the entry `p`
//! below. Taking a constant off every entry and adding it to the result again
//! turns that negation into one of the three relations of
//! [`TestVectorType`].

use crate::ciphertext::{correcting_factor, delta_of, trivial, Ciphertext, CiphertextView};
use crate::error::Error;
use crate::shortint::{
    apply_lookup_table, bs_input_of, carry_modulus_of, glwe_size_of, is_classic, is_ks_native,
    is_native, is_trivial, key_carry_modulus, key_lwe_size, key_message_modulus, key_native,
    key_parts_agree, key_plaintext_modulus, key_polynomial_size, ks_input_of, ks_output_size_of,
    lookup_outcome, lwe_size_of, message_modulus_of, polynomial_size_of, trivial_outcome,
};
use crate::test_vector::{is_test_vector_of, TestVector, TestVectorType};
use tfhe::shortint::ServerKey;
use vstd::arithmetic::div_mod::{
    lemma_add_mod_noop, lemma_div_multiples_vanish, lemma_fundamental_div_mod,
    lemma_mod_multiples_basic, lemma_mod_multiples_vanish, lemma_mul_mod_noop_left,
    lemma_small_mod, lemma_sub_mod_noop,
};
use vstd::prelude::*;

verus! {

/// A server key with the sizes that the operations read off it.
pub struct Server {
    pub server_key: ServerKey,
    pub message_modulus: usize,
    pub carry_modulus: usize,
    /// The plaintext modulus `p`: message modulus times carry modulus.
    pub pt_mod: usize,
    /// The modulus of the messages: `2p`.
    pub pt_mod_full: usize,
    /// The length of a ciphertext, body included.
    pub lwe_size: usize,
    /// The length of a look-up table.
    pub polynomial_size: usize,
}

/// The body of the look-up table of a boolean table.
pub struct Accumulator {
    pub body: Vec<u64>,
    /// The largest value of the table.
    pub degree: usize,
}

/// Whether a server can be made of the key: it computes modulo 2^64, its
/// parts fit each other, its plaintext modulus is not 0 and can be doubled,
/// and its sizes are not 0.
pub open spec fn key_usable(key: ServerKey) -> bool {
    &&& key_native(key)
    &&& key_parts_agree(key)
    &&& 0 < key_plaintext_modulus(key)
    &&& 2 * key_plaintext_modulus(key) <= usize::MAX
    &&& 0 < key_lwe_size(key)
    &&& 0 < key_polynomial_size(key)
}

/// The constant that is taken off every entry of a look-up table of the
/// given type, and added to the result of the look-up again.
pub open spec fn type_offset(tv_type: TestVectorType, delta: u64) -> u64 {
    match tv_type {
        TestVectorType::Zero => 0,
        TestVectorType::Half => delta / 2,
        TestVectorType::One => delta,
    }
}

/// How many half steps of `delta` are added to the result of a look-up with
/// a table of the given type.
pub open spec fn type_halves(tv_type: TestVectorType) -> u8 {
    match tv_type {
        TestVectorType::Zero => 0,
        TestVectorType::Half => 1,
        TestVectorType::One => 2,
    }
}

/// One entry of a look-up table: the bit times `delta`, less the offset.
pub open spec fn table_entry(bit: bool, delta: u64, offset: u64) -> u64 {
    (if bit {
        delta
    } else {
        0u64
    }).wrapping_sub(offset)
}

/// The body of the look-up table of `val` over `size` coefficients: the
/// coefficients are cut into `p` boxes of `size / p`, box `i` holds the entry
/// of `val[i]` throughout, and what is left over holds 0.
pub open spec fn table_body(val: Seq<bool>, p: usize, size: usize, delta: u64, offset: u64) -> Seq<
    u64,
> {
    let box_size = size as int / p as int;
    Seq::new(
        size as nat,
        |j: int|
            if j < p * box_size {
                table_entry(val[j / box_size], delta, offset)
            } else {
                0u64
            },
    )
}

/// The largest entry of the first `p` of a boolean table, as a number.
pub open spec fn table_degree(val: Seq<bool>, p: int) -> usize {
    if exists|i: int| 0 <= i < p && val[i] {
        1
    } else {
        0
    }
}

/// The ciphertext with `scalar` half steps added to its message: `scalar`
/// times `half` on the body, and `scalar` on the degree.
pub open spec fn add_halves(ct: CiphertextView, scalar: u8, half: u64) -> CiphertextView {
    ct.shift((scalar as u64).wrapping_mul(half)).with_degree(
        ct.degree.wrapping_add(scalar as usize),
    )
}

/// `value` modulo 2^64.
pub open spec fn as_plaintext(value: i8) -> u64 {
    if value >= 0 {
        value as u64
    } else {
        (0x1_0000_0000_0000_0000 + value) as u64
    }
}

/// The size of a coefficient without its sign.
pub open spec fn magnitude(coef: i8) -> u8 {
    if coef >= 0 {
        coef as u8
    } else {
        (-coef) as u8
    }
}

/// `acc` after the first `upto` terms: a ciphertext times a positive
/// coefficient is added, one times a negative coefficient is subtracted with
/// its magnitude, and one with the coefficient 0 is passed over.
pub open spec fn lincomb_terms(
    acc: CiphertextView,
    cts: Seq<CiphertextView>,
    coefs: Seq<i8>,
    delta: u64,
    upto: int,
) -> CiphertextView
    decreases upto,
{
    if upto <= 0 {
        acc
    } else {
        let before = lincomb_terms(acc, cts, coefs, delta, upto - 1);
        let coef = coefs[upto - 1];
        let term = cts[upto - 1].scale(magnitude(coef));
        if coef > 0 {
            before.plus(term)
        } else if coef < 0 {
            before.minus(term, delta)
        } else {
            before
        }
    }
}

// ---------------------------------------------------------------------------
// A linear combination is linear in every number
// ---------------------------------------------------------------------------

/// The sum of `coefs[i]` times the number at `j` of `cts[i]`, over the first
/// `upto` ciphertexts, as an integer.
pub open spec fn linear_sum(cts: Seq<CiphertextView>, coefs: Seq<i8>, j: int, upto: int) -> int
    decreases upto,
{
    if upto <= 0 {
        0
    } else {
        linear_sum(cts, coefs, j, upto - 1) + coefs[upto - 1] * cts[upto - 1].lwe[j]
    }
}

/// The sum of the correcting terms of the first `upto` terms, as an integer:
/// every term with a negative coefficient adds the correcting factor of
/// what is subtracted, times `delta`.
pub open spec fn correcting_sum(cts: Seq<CiphertextView>, coefs: Seq<i8>, delta: u64, upto: int) -> int
    decreases upto,
{
    if upto <= 0 {
        0
    } else {
        correcting_sum(cts, coefs, delta, upto - 1) + if coefs[upto - 1] < 0 {
            let term = cts[upto - 1].scale(magnitude(coefs[upto - 1]));
            correcting_factor(term.degree, term.message_modulus) * delta
        } else {
            0
        }
    }
}

/// The lengths of the terms are that of the start.
pub proof fn lemma_lincomb_len(
    acc: CiphertextView,
    cts: Seq<CiphertextView>,
    coefs: Seq<i8>,
    delta: u64,
    upto: int,
)
    requires
        acc.lwe.len() > 0,
    ensures
        lincomb_terms(acc, cts, coefs, delta, upto).lwe.len() == acc.lwe.len(),
        lincomb_terms(acc, cts, coefs, delta, upto).message_modulus == acc.message_modulus,
    decreases upto,
{
    if upto > 0 {
        lemma_lincomb_len(acc, cts, coefs, delta, upto - 1);
    }
}

/// Every number of a linear combination is, modulo 2^64, the number of the
/// start plus the sum of the coefficients times the numbers of the
/// ciphertexts; on the body the correcting terms of the subtractions come on
/// top.
pub proof fn lemma_lincomb_linear(
    acc: CiphertextView,
    cts: Seq<CiphertextView>,
    coefs: Seq<i8>,
    delta: u64,
    upto: int,
    j: int,
)
    requires
        0 <= upto <= cts.len() == coefs.len(),
        forall|i: int| 0 <= i < cts.len() ==> (#[trigger] cts[i]).lwe.len() == acc.lwe.len(),
        0 <= j < acc.lwe.len(),
    ensures
        lincomb_terms(acc, cts, coefs, delta, upto).lwe[j] as int == (acc.lwe[j] + linear_sum(
            cts,
            coefs,
            j,
            upto,
        ) + if j == acc.lwe.len() - 1 {
            correcting_sum(cts, coefs, delta, upto)
        } else {
            0
        }) % 0x1_0000_0000_0000_0000,
    decreases upto,
{
    let m = 0x1_0000_0000_0000_0000int;
    if upto > 0 {
        lemma_lincomb_linear(acc, cts, coefs, delta, upto - 1, j);
        lemma_lincomb_len(acc, cts, coefs, delta, upto - 1);
        let before = lincomb_terms(acc, cts, coefs, delta, upto - 1);
        let coef = coefs[upto - 1];
        let ct = cts[upto - 1];
        let x = ct.lwe[j];
        let mag = magnitude(coef);
        let last = j == acc.lwe.len() - 1;
        let sum = acc.lwe[j] + linear_sum(cts, coefs, j, upto - 1) + if last {
            correcting_sum(cts, coefs, delta, upto - 1)
        } else {
            0
        };
        let term = ct.scale(mag);
        let now = lincomb_terms(acc, cts, coefs, delta, upto);
        assert(before.lwe[j] as int == sum % m);
        assert(term.lwe[j] as int == (x * mag) % m);
        if coef > 0 {
            assert(coef * x == x * mag) by (nonlinear_arith)
                requires
                    mag == coef,
            ;
            lemma_add_mod_noop(sum, x * mag, m);
            assert(now.lwe[j] == before.lwe[j].wrapping_add(term.lwe[j]));
            assert(now.lwe[j] as int == (sum + x * mag) % m);
        } else if coef < 0 {
            assert(coef * x == -(x * mag)) by (nonlinear_arith)
                requires
                    mag == -coef,
            ;
            lemma_sub_mod_noop(sum, x * mag, m);
            let factor = correcting_factor(term.degree, term.message_modulus);
            let w = factor.wrapping_mul(delta);
            assert(w as int == (factor * delta) % m);
            let diff = before.lwe[j].wrapping_sub(term.lwe[j]);
            assert(diff as int == (sum - x * mag) % m);
            if last {
                lemma_add_mod_noop(sum - x * mag, factor * delta, m);
                assert(now.lwe[j] == diff.wrapping_add(w));
                assert(now.lwe[j] as int == (sum - x * mag + factor * delta) % m);
            } else {
                assert(now.lwe[j] == diff);
            }
        } else {
            assert(now.lwe[j] == before.lwe[j]);
            assert(coef * x == 0) by (nonlinear_arith)
                requires
                    coef == 0,
            ;
        }
    } else {
        assert(lincomb_terms(acc, cts, coefs, delta, upto) == acc);
        assert(linear_sum(cts, coefs, j, upto) == 0);
        assert(correcting_sum(cts, coefs, delta, upto) == 0);
    }
}

/// The correcting term of a ciphertext that was made for the messages modulo
/// `2p` is a multiple of 2^64, whatever its degree, if `p` divides 2^63: it
/// changes nothing.
pub proof fn lemma_correction_vanishes(degree: usize, p: usize)
    requires
        0 < p,
        2 * p <= usize::MAX,
        0x8000_0000_0000_0000int % (p as int) == 0,
    ensures
        (correcting_factor(degree, (2 * p) as usize) * delta_of(p)) % 0x1_0000_0000_0000_0000 == 0,
{
    let m = 0x1_0000_0000_0000_0000int;
    let modulus = (2 * p) as usize;
    let delta = delta_of(p);
    let quotient = degree as int / modulus as int + if degree % modulus != 0 {
        1int
    } else {
        0int
    };
    let rounds: int = if quotient < 1 {
        1
    } else {
        (quotient as u64) as int
    };
    let factor = correcting_factor(degree, modulus);
    assert(factor as int == (rounds * (2 * p)) % m);
    assert(p * delta == 0x8000_0000_0000_0000int) by (nonlinear_arith)
        requires
            0 < p,
            0x8000_0000_0000_0000int % (p as int) == 0,
            delta == 0x8000_0000_0000_0000int / (p as int),
    ;
    assert(rounds * (2 * p) * delta == rounds * m) by (nonlinear_arith)
        requires
            p * delta == 0x8000_0000_0000_0000int,
            m == 0x1_0000_0000_0000_0000int,
    ;
    lemma_mul_mod_noop_left(rounds * (2 * p), delta as int, m);
    lemma_mod_multiples_basic(rounds, m);
}

/// The correcting terms of a linear combination add up to a multiple of 2^64
/// if every ciphertext that is subtracted was made for the messages modulo
/// `2p`, and `p` divides 2^63.
pub proof fn lemma_corrections_vanish(
    cts: Seq<CiphertextView>,
    coefs: Seq<i8>,
    p: usize,
    upto: int,
)
    requires
        0 <= upto <= cts.len() == coefs.len(),
        0 < p,
        2 * p <= usize::MAX,
        0x8000_0000_0000_0000int % (p as int) == 0,
        forall|i: int|
            0 <= i < upto && coefs[i] < 0 ==> (#[trigger] cts[i]).message_modulus == 2 * p,
    ensures
        correcting_sum(cts, coefs, delta_of(p), upto) % 0x1_0000_0000_0000_0000 == 0,
    decreases upto,
{
    let m = 0x1_0000_0000_0000_0000int;
    if upto > 0 {
        lemma_corrections_vanish(cts, coefs, p, upto - 1);
        let before = correcting_sum(cts, coefs, delta_of(p), upto - 1);
        if coefs[upto - 1] < 0 {
            let term = cts[upto - 1].scale(magnitude(coefs[upto - 1]));
            assert(cts[upto - 1].message_modulus == 2 * p);
            lemma_correction_vanishes(term.degree, p);
            let c = correcting_factor(term.degree, term.message_modulus) * delta_of(p);
            lemma_add_mod_noop(before, c, m);
        }
    }
}

/// The linear combination of ciphertexts made for the messages modulo `2p`,
/// where `p` divides 2^63: every number of the result is, modulo 2^64, the
/// number of the start plus the sum of the coefficients times the numbers of
/// the ciphertexts.
pub proof fn lemma_lincomb_of_fresh(
    acc: CiphertextView,
    cts: Seq<CiphertextView>,
    coefs: Seq<i8>,
    p: usize,
    j: int,
)
    requires
        cts.len() == coefs.len(),
        forall|i: int| 0 <= i < cts.len() ==> (#[trigger] cts[i]).lwe.len() == acc.lwe.len(),
        0 <= j < acc.lwe.len(),
        0 < p,
        2 * p <= usize::MAX,
        0x8000_0000_0000_0000int % (p as int) == 0,
        forall|i: int|
            0 <= i < cts.len() && coefs[i] < 0 ==> (#[trigger] cts[i]).message_modulus == 2 * p,
    ensures
        lincomb_terms(acc, cts, coefs, delta_of(p), cts.len() as int).lwe[j] as int == (acc.lwe[j]
            + linear_sum(cts, coefs, j, cts.len() as int)) % 0x1_0000_0000_0000_0000,
{
    let m = 0x1_0000_0000_0000_0000int;
    let n = cts.len() as int;
    lemma_lincomb_linear(acc, cts, coefs, delta_of(p), n, j);
    lemma_corrections_vanish(cts, coefs, p, n);
    lemma_add_mod_noop(acc.lwe[j] + linear_sum(cts, coefs, j, n), correcting_sum(cts, coefs, delta_of(p), n), m);
}

/// Where `2p` divides 2^63, a step is two half steps exactly, `2p` steps are
/// a full turn of 2^64, and `p` divides 2^63 too.
pub proof fn lemma_steps(p: usize)
    requires
        0 < p,
        2 * p <= usize::MAX,
        0x8000_0000_0000_0000int % (2 * p) == 0,
    ensures
        delta_of(p) == 2 * delta_of((2 * p) as usize),
        delta_of((2 * p) as usize) >= 1,
        2 * p * delta_of(p) == 0x1_0000_0000_0000_0000,
        0x8000_0000_0000_0000int % (p as int) == 0,
        2 * p <= 0x8000_0000_0000_0000,
{
    let top = 0x8000_0000_0000_0000int;
    let q = top / (2 * p);
    lemma_fundamental_div_mod(top, 2 * p);
    assert(top == (2 * p) * q);
    assert((2 * p) * q == p * (2 * q)) by (nonlinear_arith);
    assert(q >= 1) by (nonlinear_arith)
        requires
            top == (2 * p) * q,
            top > 0,
            p > 0,
    ;
    assert(2 * p <= top) by (nonlinear_arith)
        requires
            top == (2 * p) * q,
            q >= 1,
            p > 0,
    ;
    lemma_div_multiples_vanish(2 * q, p as int);
    assert(top / (p as int) == 2 * q);
    lemma_mod_multiples_basic(2 * q, p as int);
    assert((2 * q) * p == p * (2 * q)) by (nonlinear_arith);
    assert(2 * p * (2 * q) == 2 * top) by (nonlinear_arith)
        requires
            top == p * (2 * q),
    ;
}

// ---------------------------------------------------------------------------
// The linear combination of ciphertexts that anyone can read
// ---------------------------------------------------------------------------

/// Whether anyone can read the ciphertext as the message `msg`: it is
/// trivial, and its body is `msg` times `delta` modulo 2^64.
pub open spec fn reads_as(ct: CiphertextView, msg: int, delta: u64) -> bool {
    is_trivial(ct) && ct.lwe[ct.lwe.len() - 1] as int == (msg * delta) % 0x1_0000_0000_0000_0000
}

/// The sum of `coefs[i]` times `msgs[i]` over the first `upto` messages.
pub open spec fn message_sum(coefs: Seq<i8>, msgs: Seq<int>, upto: int) -> int
    decreases upto,
{
    if upto <= 0 {
        0
    } else {
        message_sum(coefs, msgs, upto - 1) + coefs[upto - 1] * msgs[upto - 1]
    }
}

/// A linear combination of trivial ciphertexts, started from one, has no
/// noise.
pub proof fn lemma_lincomb_noise(
    acc: CiphertextView,
    cts: Seq<CiphertextView>,
    coefs: Seq<i8>,
    delta: u64,
    upto: int,
)
    requires
        0 <= upto <= cts.len() == coefs.len(),
        acc.noise_level == 0,
        forall|i: int| 0 <= i < cts.len() ==> (#[trigger] cts[i]).noise_level == 0,
    ensures
        lincomb_terms(acc, cts, coefs, delta, upto).noise_level == 0,
    decreases upto,
{
    if upto > 0 {
        lemma_lincomb_noise(acc, cts, coefs, delta, upto - 1);
        assert(cts[upto - 1].noise_level == 0);
        assert(0 * magnitude(coefs[upto - 1]) == 0) by (nonlinear_arith);
    }
}

/// On the masks of trivial ciphertexts the sum is 0.
pub proof fn lemma_linear_sum_of_masks(cts: Seq<CiphertextView>, coefs: Seq<i8>, j: int, upto: int)
    requires
        0 <= upto <= cts.len() == coefs.len(),
        forall|i: int| 0 <= i < cts.len() ==> (#[trigger] cts[i]).lwe[j] == 0,
    ensures
        linear_sum(cts, coefs, j, upto) == 0,
    decreases upto,
{
    if upto > 0 {
        lemma_linear_sum_of_masks(cts, coefs, j, upto - 1);
        assert(cts[upto - 1].lwe[j] == 0);
        assert(coefs[upto - 1] * 0 == 0) by (nonlinear_arith);
    }
}

/// On the bodies of ciphertexts that read as `msgs` the sum is, modulo 2^64,
/// the sum of the messages times `delta`.
proof fn lemma_linear_sum_of_bodies(
    cts: Seq<CiphertextView>,
    coefs: Seq<i8>,
    msgs: Seq<int>,
    delta: u64,
    j: int,
    upto: int,
)
    requires
        0 <= upto <= cts.len() == coefs.len() == msgs.len(),
        forall|i: int|
            0 <= i < cts.len() ==> (#[trigger] cts[i]).lwe[j] as int == (msgs[i] * delta)
                % 0x1_0000_0000_0000_0000,
    ensures
        linear_sum(cts, coefs, j, upto) % 0x1_0000_0000_0000_0000 == (message_sum(
            coefs,
            msgs,
            upto,
        ) * delta) % 0x1_0000_0000_0000_0000,
    decreases upto,
{
    let m = 0x1_0000_0000_0000_0000int;
    if upto > 0 {
        lemma_linear_sum_of_bodies(cts, coefs, msgs, delta, j, upto - 1);
        let coef = coefs[upto - 1] as int;
        let msg = msgs[upto - 1];
        let x = cts[upto - 1].lwe[j] as int;
        let before = linear_sum(cts, coefs, j, upto - 1);
        let sum = message_sum(coefs, msgs, upto - 1);
        assert(x == (msg * delta) % m);
        vstd::arithmetic::div_mod::lemma_mul_mod_noop_right(coef, msg * delta, m);
        assert((coef * x) % m == (coef * (msg * delta)) % m);
        lemma_add_mod_noop(before, coef * x, m);
        lemma_add_mod_noop(sum * delta, coef * (msg * delta), m);
        assert((sum + coef * msg) * delta == sum * delta + coef * (msg * delta))
            by (nonlinear_arith);
    }
}

impl Server {
    /// The linear combination of ciphertexts that anyone can read as `msgs`
    /// is the ciphertext that anyone can read as the constant plus the sum of
    /// the coefficients times the messages.
    ///
    /// The plaintext modulus `p` has to divide 2^63, and every ciphertext
    /// that is subtracted has to be made for the messages modulo `2p`.
    pub proof fn lemma_lincomb_of_readable(
        &self,
        cts: Seq<CiphertextView>,
        coefs: Seq<i8>,
        const_coef: i8,
        msgs: Seq<int>,
    )
        requires
            self.well_formed(),
            0x8000_0000_0000_0000int % (self.pt_mod as int) == 0,
            cts.len() == coefs.len() == msgs.len(),
            forall|i: int|
                0 <= i < cts.len() ==> self.fits(#[trigger] cts[i]) && reads_as(
                    cts[i],
                    msgs[i],
                    self.delta(),
                ),
            forall|i: int|
                0 <= i < cts.len() && coefs[i] < 0 ==> (#[trigger] cts[i]).message_modulus == 2
                    * self.pt_mod,
        ensures
            reads_as(
                self.lincomb_spec(cts, coefs, const_coef),
                const_coef + message_sum(coefs, msgs, cts.len() as int),
                self.delta(),
            ),
    {
        let m = 0x1_0000_0000_0000_0000int;
        let n = cts.len() as int;
        let delta = self.delta();
        let acc = self.constant_spec(const_coef);
        let res = self.lincomb_spec(cts, coefs, const_coef);
        let last = self.lwe_size - 1;
        self.lemma_moduli_positive();
        lemma_lincomb_len(acc, cts, coefs, delta, n);
        lemma_lincomb_noise(acc, cts, coefs, delta, n);
        assert forall|j: int| 0 <= j < res.lwe.len() - 1 implies #[trigger] res.lwe[j] == 0 by {
            lemma_lincomb_of_fresh(acc, cts, coefs, self.pt_mod, j);
            assert forall|i: int| 0 <= i < cts.len() implies (#[trigger] cts[i]).lwe[j] == 0 by {
                assert(reads_as(cts[i], msgs[i], delta));
            }
            lemma_linear_sum_of_masks(cts, coefs, j, n);
        }
        lemma_lincomb_of_fresh(acc, cts, coefs, self.pt_mod, last);
        assert forall|i: int| 0 <= i < cts.len() implies (#[trigger] cts[i]).lwe[last] as int == (
        msgs[i] * delta) % m by {
            assert(reads_as(cts[i], msgs[i], delta));
        }
        lemma_linear_sum_of_bodies(cts, coefs, msgs, delta, last, n);
        let sum = message_sum(coefs, msgs, n);
        let start = as_plaintext(const_coef);
        assert(acc.lwe[last] as int == (start * delta) % m);
        assert((start * delta) % m == (const_coef * delta) % m) by {
            if const_coef < 0 {
                assert(start * delta == m * delta + const_coef * delta) by (nonlinear_arith)
                    requires
                        start == m + const_coef,
                ;
                lemma_mod_multiples_vanish(delta as int, const_coef * delta, m);
            }
        }
        lemma_add_mod_noop(start * delta, linear_sum(cts, coefs, last, n), m);
        lemma_add_mod_noop(const_coef * delta, sum * delta, m);
        lemma_add_mod_noop(acc.lwe[last] as int, linear_sum(cts, coefs, last, n), m);
        assert((const_coef + sum) * delta == const_coef * delta + sum * delta)
            by (nonlinear_arith);
    }
}

// ---------------------------------------------------------------------------
// The bootstrap of a ciphertext that anyone can read
// ---------------------------------------------------------------------------

/// What a bootstrap returns when the look-up gave `raw`: `raw` with the half
/// steps of the table's type added.
pub open spec fn finished(raw: CiphertextView, tv_type: TestVectorType, half: u64) -> CiphertextView {
    if tv_type == TestVectorType::Zero {
        raw
    } else {
        add_halves(raw, type_halves(tv_type), half)
    }
}

/// The bit that a table of the given type stands for at the message `msg`
/// below `2p`: its entry in the lower half; in the upper half what its type
/// says.
pub open spec fn expected_bit(val: Seq<bool>, tv_type: TestVectorType, p: int, msg: int) -> bool {
    if msg < p {
        val[msg]
    } else {
        match tv_type {
            TestVectorType::Zero => false,
            TestVectorType::One => true,
            TestVectorType::Half => !val[msg - p],
        }
    }
}

impl Server {
    /// What the bootstrap of a trivial ciphertext gives: the ciphertext with
    /// half a step added, looked up in the table of the test vector without
    /// any noise, and finished.
    pub open spec fn readable_bootstrap(
        &self,
        val: CiphertextView,
        table: Seq<bool>,
        tv_type: TestVectorType,
    ) -> CiphertextView {
        finished(
            trivial_outcome(
                add_halves(val, 1, self.half_delta()),
                table_body(
                    table,
                    self.pt_mod,
                    self.polynomial_size,
                    self.delta(),
                    type_offset(tv_type, self.delta()),
                ),
                table_degree(table, self.pt_mod as int),
                self.pt_mod,
            ),
            tv_type,
            self.half_delta(),
        )
    }

    /// The bootstrap of a ciphertext that anyone can read as the message
    /// `msg` below `2p` is the ciphertext that anyone can read as the bit
    /// that the test vector stands for at `msg`: at every message of the
    /// lower half, and in the upper half at every message if the type is
    /// `Half`, and else at every message that the table has an entry for.
    ///
    /// The plaintext modulus has to divide 2^62, so that a half step is half
    /// a step exactly, and must not exceed the size of the look-up table.
    pub proof fn lemma_bootstrap_of_readable(
        &self,
        val: CiphertextView,
        table: Seq<bool>,
        tv_type: TestVectorType,
        msg: int,
    )
        requires
            self.well_formed(),
            0x8000_0000_0000_0000int % (2 * self.pt_mod) == 0,
            self.pt_mod <= self.polynomial_size,
            self.pt_mod <= table.len() <= 2 * self.pt_mod,
            crate::test_vector::consistent(table, self.pt_mod as int),
            tv_type == crate::test_vector::table_type(table, self.pt_mod as int),
            is_trivial(val),
            0 <= msg < 2 * self.pt_mod,
            val.lwe[val.lwe.len() - 1] == msg * self.delta(),
            msg < self.pt_mod || tv_type is Half || msg < table.len(),
        ensures
            is_trivial(self.readable_bootstrap(val, table, tv_type)),
            self.readable_bootstrap(val, table, tv_type).lwe == val.lwe.update(
                val.lwe.len() - 1,
                if expected_bit(table, tv_type, self.pt_mod as int, msg) {
                    self.delta()
                } else {
                    0u64
                },
            ),
    {
        let p = self.pt_mod;
        let size = self.polynomial_size;
        let delta = self.delta();
        let half = self.half_delta();
        let offset = type_offset(tv_type, delta);
        let body = table_body(table, p, size, delta, offset);
        let box_size = size as int / p as int;
        let last = val.lwe.len() - 1;
        lemma_steps(p);
        assert(box_size >= 1 && p * box_size <= size) by (nonlinear_arith)
            requires
                0 < p <= size,
                box_size == size as int / p as int,
        ;
        assert((1u64).wrapping_mul(half) == half);
        assert((2u64).wrapping_mul(half) == delta);
        // the prepared body stands for the same message
        let prepared = add_halves(val, 1, half);
        assert(msg * delta + half < 0x1_0000_0000_0000_0000 && (msg * delta + half) / (delta as int)
            == msg) by (nonlinear_arith)
            requires
                0 <= msg < 2 * p,
                2 * p * delta == 0x1_0000_0000_0000_0000,
                delta == 2 * half,
                half >= 1,
        ;
        assert(prepared.lwe[last] == msg * delta + half);
        let row = if msg < p {
            msg
        } else {
            msg - p
        };
        if msg >= p {
            lemma_mod_multiples_vanish(1, row, p as int);
            lemma_small_mod(row as nat, p as nat);
            assert(p * 1 + row == msg);
        }
        assert((row * box_size) / box_size == row && 0 <= row * box_size < p * box_size)
            by (nonlinear_arith)
            requires
                0 <= row < p,
                box_size >= 1,
        ;
        assert(body[row * box_size] == table_entry(table[row], delta, offset));
        if msg >= p && !(tv_type is Half) {
            assert(crate::test_vector::pair_type(table, p as int, msg) == tv_type);
        }
        let raw = trivial_outcome(prepared, body, table_degree(table, p as int), p);
        let res = finished(raw, tv_type, half);
        assert(raw.lwe[last] == if msg < p {
            body[row * box_size]
        } else {
            0u64.wrapping_sub(body[row * box_size])
        });
        assert(res.lwe =~= val.lwe.update(
            last,
            if expected_bit(table, tv_type, p as int, msg) {
                delta
            } else {
                0u64
            },
        ));
    }
}

/// The views of the ciphertexts that the references of `cts` point to.
pub open spec fn views_of(cts: Seq<&Ciphertext>) -> Seq<CiphertextView> {
    Seq::new(cts.len(), |i: int| cts[i]@)
}

impl Server {
    /// Whether the sizes are those of the key, and the key is usable.
    pub open spec fn well_formed(&self) -> bool {
        &&& key_usable(self.server_key)
        &&& self.message_modulus == key_message_modulus(self.server_key)
        &&& self.carry_modulus == key_carry_modulus(self.server_key)
        &&& self.pt_mod == key_plaintext_modulus(self.server_key)
        &&& self.pt_mod_full == 2 * self.pt_mod
        &&& self.lwe_size == key_lwe_size(self.server_key)
        &&& self.polynomial_size == key_polynomial_size(self.server_key)
    }

    /// The number that encodes the message 1.
    pub open spec fn delta(&self) -> u64 {
        delta_of(self.pt_mod)
    }

    /// The number that encodes half a message step.
    pub open spec fn half_delta(&self) -> u64 {
        delta_of(self.pt_mod_full)
    }

    /// Whether the ciphertext has the length of the server's ciphertexts.
    pub open spec fn fits(&self, ct: CiphertextView) -> bool {
        ct.lwe.len() == self.lwe_size
    }

    /// The server for a usable key.
    pub fn new(server_key: ServerKey) -> (server: Server)
        requires
            key_usable(server_key),
        ensures
            server.well_formed(),
            server.server_key == server_key,
    {
        let message_modulus = message_modulus_of(&server_key);
        let carry_modulus = carry_modulus_of(&server_key);
        let lwe_size = lwe_size_of(&server_key);
        let polynomial_size = polynomial_size_of(&server_key);
        assert(message_modulus * carry_modulus == key_plaintext_modulus(server_key));
        let pt_mod = message_modulus * carry_modulus;
        Server {
            server_key,
            message_modulus,
            carry_modulus,
            pt_mod,
            pt_mod_full: 2 * pt_mod,
            lwe_size,
            polynomial_size,
        }
    }

    /// Whether the parts of the key fit each other.
    fn parts_agree(key: &ServerKey) -> (b: bool)
        ensures
            b == key_parts_agree(*key),
    {
        let polynomial_size = polynomial_size_of(key);
        let glwe_size = glwe_size_of(key);
        let ks_output_size = ks_output_size_of(key);
        if !is_classic(key) || !is_ks_native(key) || glwe_size < 1 || ks_output_size < 1 {
            return false;
        }
        if polynomial_size < 2 || polynomial_size & (polynomial_size - 1) != 0 {
            return false;
        }
        match (glwe_size - 1).checked_mul(polynomial_size) {
            Some(bs_output) => bs_output == ks_input_of(key) && ks_output_size - 1 == bs_input_of(
                key,
            ),
            None => false,
        }
    }

    /// The server for the key, if the key is usable.
    pub fn try_new(server_key: ServerKey) -> (r: Option<Server>)
        ensures
            r is Some <==> key_usable(server_key),
            r matches Some(server) ==> server.well_formed() && server.server_key == server_key,
    {
        let native = is_native(&server_key) && Self::parts_agree(&server_key);
        let lwe_size = lwe_size_of(&server_key);
        let polynomial_size = polynomial_size_of(&server_key);
        let pt_mod = message_modulus_of(&server_key).checked_mul(carry_modulus_of(&server_key));
        match pt_mod {
            Some(p) => {
                if native && p > 0 && p <= usize::MAX / 2 && lwe_size > 0 && polynomial_size > 0 {
                    Some(Server::new(server_key))
                } else {
                    None
                }
            },
            None => None,
        }
    }

    /// The test vector of a table for the server's plaintext modulus.
    pub fn new_test_vector(&self, val: Vec<bool>) -> (r: Result<TestVector, Error>)
        ensures
            is_test_vector_of(val@, self.pt_mod as int, r),
    {
        TestVector::new(val, self.pt_mod)
    }

    /// Adds `scalar` half steps to the message of the ciphertext.
    pub fn unchecked_scalar_add_halves_assign(&self, ct: &mut Ciphertext, scalar: u8)
        requires
            self.well_formed(),
            old(ct).lwe@.len() > 0,
        ensures
            final(ct)@ == add_halves(old(ct)@, scalar, self.half_delta()),
    {
        let delta: u64 = (1u64 << 63) / (self.pt_mod_full as u64);
        assert(1u64 << 63 == 0x8000_0000_0000_0000u64) by (bit_vector);
        let shift_plaintext = (scalar as u64).wrapping_mul(delta);
        ct.unchecked_plaintext_add_assign(shift_plaintext);
        ct.degree = ct.degree.wrapping_add(scalar as usize);
    }

    /// The look-up table of a test vector.
    pub fn build_acc(&self, tv: &TestVector) -> (acc: Accumulator)
        requires
            self.well_formed(),
            tv.val@.len() >= self.pt_mod,
        ensures
            acc.body@ == table_body(
                tv.val@,
                self.pt_mod,
                self.polynomial_size,
                self.delta(),
                type_offset(tv.tv_type, self.delta()),
            ),
            acc.degree == table_degree(tv.val@, self.pt_mod as int),
    {
        let p = self.pt_mod;
        let size = self.polynomial_size;
        let box_size = size / p;
        let delta: u64 = (1u64 << 63) / (p as u64);
        assert(1u64 << 63 == 0x8000_0000_0000_0000u64) by (bit_vector);
        let offset: u64 = match tv.tv_type {
            TestVectorType::Zero => 0,
            TestVectorType::Half => delta / 2,
            TestVectorType::One => delta,
        };
        let ghost want = table_body(tv.val@, p, size, delta, offset);
        let mut body: Vec<u64> = Vec::new();
        let mut degree: usize = 0;
        let mut i: usize = 0;
        assert(p * box_size <= size) by (nonlinear_arith)
            requires
                box_size == size / p,
                p > 0,
        ;
        while i < p
            invariant
                i <= p <= tv.val@.len(),
                p > 0,
                box_size == size as int / p as int,
                p * box_size <= size,
                body@.len() == i * box_size,
                want == table_body(tv.val@, p, size, delta, offset),
                forall|j: int| 0 <= j < body@.len() ==> body@[j] == want[j],
                degree == table_degree(tv.val@, i as int),
            decreases p - i,
        {
            let bit = tv.val[i];
            let entry: u64 = (if bit {
                delta
            } else {
                0
            }).wrapping_sub(offset);
            if bit {
                degree = 1;
            }
            let mut k: usize = 0;
            assert(i * box_size + box_size == (i + 1) * box_size) by (nonlinear_arith);
            assert((i + 1) * box_size <= p * box_size) by (nonlinear_arith)
                requires
                    i + 1 <= p,
                    box_size >= 0,
            ;
            while k < box_size
                invariant
                    k <= box_size,
                    i < p,
                    box_size == size as int / p as int,
                    (i + 1) * box_size <= p * box_size <= size,
                    i * box_size + box_size == (i + 1) * box_size,
                    body@.len() == i * box_size + k,
                    want == table_body(tv.val@, p, size, delta, offset),
                    entry == table_entry(tv.val@[i as int], delta, offset),
                    forall|j: int| 0 <= j < body@.len() ==> body@[j] == want[j],
                decreases box_size - k,
            {
                proof {
                    let j = i * box_size + k;
                    assert(j / (box_size as int) == i) by (nonlinear_arith)
                        requires
                            j == i * box_size + k,
                            0 <= k < box_size,
                            0 <= i,
                    ;
                }
                body.push(entry);
                k += 1;
            }
            proof {
                if bit {
                    assert(tv.val@[i as int]);
                } else {
                    assert forall|m: int| 0 <= m < i + 1 && tv.val@[m] implies 0 <= m < i by {}
                }
            }
            i += 1;
        }
        while body.len() < size
            invariant
                p * box_size <= body@.len() <= size,
                box_size == size as int / p as int,
                want == table_body(tv.val@, p, size, delta, offset),
                forall|j: int| 0 <= j < body@.len() ==> body@[j] == want[j],
            decreases size - body.len(),
        {
            body.push(0);
        }
        assert(body@ =~= want);
        Accumulator { body, degree }
    }

    /// The ciphertext as it goes into the look-up: with half a message step
    /// added, so that the message stands in the middle of its box.
    pub fn prepare_bootstrap(&self, val: Ciphertext) -> (res: Ciphertext)
        requires
            self.well_formed(),
            val.lwe@.len() > 0,
        ensures
            res@ == add_halves(val@, 1, self.half_delta()),
    {
        let mut val = val;
        self.unchecked_scalar_add_halves_assign(&mut val, 1);
        val
    }

    /// What a bootstrap returns when the look-up gave `raw`: `raw` with the
    /// offset of the table's type added back, in half steps.
    pub fn finish_bootstrap(&self, raw: Ciphertext, tv_type: TestVectorType) -> (res: Ciphertext)
        requires
            self.well_formed(),
            raw.lwe@.len() > 0,
        ensures
            res@ == finished(raw@, tv_type, self.half_delta()),
    {
        let mut res = raw;
        match tv_type {
            TestVectorType::Half => {
                self.unchecked_scalar_add_halves_assign(&mut res, 1);
            },
            TestVectorType::One => {
                self.unchecked_scalar_add_halves_assign(&mut res, 2);
            },
            TestVectorType::Zero => {},
        }
        res
    }

    /// Applies the table of a test vector to the message of a ciphertext.
    ///
    /// The ciphertext is prepared ([`Server::prepare_bootstrap`]), looked up
    /// in the table of the test vector ([`Server::build_acc`]), and finished
    /// ([`Server::finish_bootstrap`]). The look-up is the cryptographic step:
    /// of a ciphertext with noise the contract states only the shape and the
    /// bookkeeping of the result. Of a ciphertext that anyone can read it
    /// states the result ([`Server::readable_bootstrap`]).
    pub fn eval_bootstrap(&self, val: Ciphertext, tv: &TestVector) -> (res: Ciphertext)
        requires
            self.well_formed(),
            self.fits(val@),
            tv.val@.len() >= self.pt_mod,
        ensures
            lookup_outcome(
                val@,
                table_degree(tv.val@, self.pt_mod as int).wrapping_add(
                    type_halves(tv.tv_type) as usize,
                ),
                res@,
            ),
            is_trivial(val@) ==> res@ == self.readable_bootstrap(val@, tv.val@, tv.tv_type),
    {
        let acc = self.build_acc(tv);
        let prepared = self.prepare_bootstrap(val);
        let raw = apply_lookup_table(&self.server_key, &prepared, &acc.body, acc.degree);
        self.finish_bootstrap(raw, tv.tv_type)
    }

    /// The linear combination `const_coef + sum of coefs[i] * cts[i]`, as
    /// ciphertext arithmetic: starting from the trivial ciphertext of
    /// `const_coef`, every term is added or subtracted in order.
    pub fn lincomb(&self, cts: &[&Ciphertext], coefs: &[i8], const_coef: i8) -> (res: Ciphertext)
        requires
            self.well_formed(),
            cts@.len() == coefs@.len(),
            forall|i: int| 0 <= i < cts@.len() ==> self.fits(#[trigger] cts@[i]@),
            forall|i: int|
                0 <= i < cts@.len() && coefs@[i] < 0 ==> (#[trigger] cts@[i]).message_modulus > 0,
        ensures
            res@ == self.lincomb_spec(views_of(cts@), coefs@, const_coef),
            self.fits(res@),
            res.message_modulus == self.message_modulus > 0,
    {
        proof {
            self.lemma_moduli_positive();
        }
        let start: u64 = if const_coef >= 0 {
            const_coef as u64
        } else {
            u64::MAX - ((-(const_coef as i16)) as u64 - 1)
        };
        let ghost first = self.constant_spec(const_coef);
        let p = self.pt_mod;
        let delta: u64 = (1u64 << 63) / (p as u64);
        assert(1u64 << 63 == 0x8000_0000_0000_0000u64) by (bit_vector);
        let mut acc = Ciphertext::trivial(
            start,
            self.lwe_size,
            delta,
            self.message_modulus,
            self.carry_modulus,
        );
        let mut i: usize = 0;
        while i < cts.len()
            invariant
                i <= cts@.len() == coefs@.len(),
                self.well_formed(),
                forall|i: int| 0 <= i < cts@.len() ==> self.fits(#[trigger] cts@[i]@),
                forall|i: int|
                    0 <= i < cts@.len() && coefs@[i] < 0 ==> (#[trigger] cts@[i]).message_modulus
                        > 0,
                delta == self.delta(),
                acc.message_modulus == self.message_modulus,
                acc@ == lincomb_terms(first, views_of(cts@), coefs@, self.delta(), i as int),
                self.fits(acc@),
            decreases cts@.len() - i,
        {
            let coef = coefs[i];
            let ct = cts[i];
            assert(views_of(cts@)[i as int] == ct@);
            if coef > 0 {
                let term = ct.unchecked_scalar_mul(coef as u8);
                acc = acc.unchecked_add(&term);
            } else if coef < 0 {
                let term = ct.unchecked_scalar_mul((-(coef as i16)) as u8);
                acc = acc.unchecked_sub(&term, delta);
            }
            i += 1;
        }
        acc
    }

    /// Neither modulus of a well-formed server is 0.
    pub proof fn lemma_moduli_positive(&self)
        requires
            self.well_formed(),
        ensures
            self.message_modulus > 0,
            self.carry_modulus > 0,
            self.pt_mod > 0,
            self.lwe_size > 0,
    {
        assert(self.message_modulus > 0 && self.carry_modulus > 0) by (nonlinear_arith)
            requires
                self.message_modulus * self.carry_modulus > 0,
        ;
    }

    /// The trivial ciphertext of a constant.
    pub open spec fn constant_spec(&self, const_coef: i8) -> CiphertextView {
        trivial(
            as_plaintext(const_coef),
            self.lwe_size,
            self.delta(),
            self.message_modulus,
            self.carry_modulus,
        )
    }

    /// The result of a linear combination.
    pub open spec fn lincomb_spec(
        &self,
        cts: Seq<CiphertextView>,
        coefs: Seq<i8>,
        const_coef: i8,
    ) -> CiphertextView {
        lincomb_terms(self.constant_spec(const_coef), cts, coefs, self.delta(), cts.len() as int)
    }
}

} // verus!
