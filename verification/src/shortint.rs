//! The operations of the `tfhe` crate that the library builds on.
//!
//! Nothing in this module is proved: every function here calls into `tfhe`,
//! and its contract states what that crate's source shows of the call. Keys
//! stay values of `tfhe`; ciphertexts cross as plain values.
//!
//! The linear operations are those of `tfhe::core_crypto` on the numbers of
//! an LWE ciphertext, which wrap around modulo 2^64 by definition.

use crate::ciphertext::{delta_of, Ciphertext, CiphertextView};
use crate::client::ParameterSet;
use tfhe::core_crypto::prelude::{
    allocate_and_trivially_encrypt_new_lwe_ciphertext, lwe_ciphertext_add_assign,
    lwe_ciphertext_cleartext_mul_assign, lwe_ciphertext_plaintext_add_assign,
    lwe_ciphertext_sub_assign, CiphertextModulus, Cleartext, GlweCiphertext, LweCiphertext,
    LweSize, Plaintext,
};
use tfhe::shortint::ciphertext::{Degree, NoiseLevel};
use tfhe::shortint::parameters::{
    PARAM_MESSAGE_1_CARRY_1_KS_PBS, PARAM_MESSAGE_2_CARRY_2_KS_PBS, PARAM_MESSAGE_3_CARRY_3_KS_PBS,
    PARAM_MESSAGE_4_CARRY_4_KS_PBS,
};
use tfhe::shortint::server_key::{LookupTableOwned, ShortintBootstrappingKey};
use tfhe::shortint::Ciphertext as ShortCiphertext;
use tfhe::shortint::{CarryModulus, ClientKey, MessageModulus, ServerKey};
use vstd::prelude::*;

verus! {

/// `tfhe::shortint::ServerKey`, carried through as it is.
#[verifier::external_type_specification]
#[verifier::external_body]
pub struct ExServerKey(ServerKey);

/// `tfhe::shortint::ClientKey`, carried through as it is.
#[verifier::external_type_specification]
#[verifier::external_body]
pub struct ExClientKey(ClientKey);

/// The message modulus that a server key was made for.
pub uninterp spec fn key_message_modulus(key: ServerKey) -> usize;

/// The carry modulus that a server key was made for.
pub uninterp spec fn key_carry_modulus(key: ServerKey) -> usize;

/// The length, body included, of the LWE ciphertexts that a server key
/// works on.
pub uninterp spec fn key_lwe_size(key: ServerKey) -> usize;

/// The number of coefficients of the polynomials of a server key's
/// bootstrapping key.
pub uninterp spec fn key_polynomial_size(key: ServerKey) -> usize;

/// Whether a server key computes modulo 2^64.
pub uninterp spec fn key_native(key: ServerKey) -> bool;

/// Whether the keyswitching key of a server key computes modulo 2^64.
pub uninterp spec fn key_ks_native(key: ServerKey) -> bool;

/// Whether the bootstrapping key of a server key is a classic one, not a
/// multi-bit one.
pub uninterp spec fn key_classic(key: ServerKey) -> bool;

/// The length, body not included, of the LWE ciphertexts that the
/// keyswitching key of a server key takes.
pub uninterp spec fn key_ks_input(key: ServerKey) -> usize;

/// The length, body included, of the LWE ciphertexts that the keyswitching
/// key of a server key gives.
pub uninterp spec fn key_ks_output_size(key: ServerKey) -> usize;

/// The length, body not included, of the LWE ciphertexts that the
/// bootstrapping key of a server key takes.
pub uninterp spec fn key_bs_input(key: ServerKey) -> usize;

/// The number of polynomials of a GLWE ciphertext of a server key's
/// bootstrapping key, body included.
pub uninterp spec fn key_glwe_size(key: ServerKey) -> usize;

/// The message modulus of a client key's parameters.
pub uninterp spec fn client_message_modulus(key: ClientKey) -> usize;

/// The carry modulus of a client key's parameters.
pub uninterp spec fn client_carry_modulus(key: ClientKey) -> usize;

/// The length, body included, of the LWE ciphertexts that a client key
/// encrypts to.
pub uninterp spec fn client_lwe_size(key: ClientKey) -> usize;

/// The number that `ClientKey::decrypt_message_and_carry` reads out of a
/// ciphertext with the given numbers: the decrypted body, rounded to a whole
/// multiple of the key's delta and divided by it.
pub uninterp spec fn decryption(key: ClientKey, lwe: Seq<u64>) -> u64;

/// The plaintext modulus of a server key: message modulus times carry
/// modulus.
pub open spec fn key_plaintext_modulus(key: ServerKey) -> int {
    key_message_modulus(key) * key_carry_modulus(key)
}

/// Whether the parts of a server key fit each other, so that a ciphertext
/// can go through keyswitch and bootstrap in either order:
///
/// - the bootstrapping key is a classic one, and the keyswitching key
///   computes modulo 2^64;
/// - the polynomial size is a power of two, and at least 2;
/// - what the bootstrap gives, a ciphertext of `(glwe size - 1) * polynomial
///   size` numbers and a body, is what the keyswitch takes;
/// - what the keyswitch gives is what the bootstrap takes.
pub open spec fn key_parts_agree(key: ServerKey) -> bool {
    &&& key_classic(key)
    &&& key_ks_native(key)
    &&& is_power_of_two(key_polynomial_size(key))
    &&& key_glwe_size(key) >= 1
    &&& (key_glwe_size(key) - 1) * key_polynomial_size(key) == key_ks_input(key)
    &&& key_ks_output_size(key) == key_bs_input(key) + 1
}

/// Whether `n` is a power of two, and at least 2.
pub open spec fn is_power_of_two(n: usize) -> bool {
    n >= 2 && n & ((n - 1) as usize) == 0
}

/// Reads the field `message_modulus` of the key.
#[verifier::external_body]
pub(crate) fn message_modulus_of(key: &ServerKey) -> (m: usize)
    ensures
        m == key_message_modulus(*key),
{
    key.message_modulus.0
}

/// Reads the field `carry_modulus` of the key.
#[verifier::external_body]
pub(crate) fn carry_modulus_of(key: &ServerKey) -> (m: usize)
    ensures
        m == key_carry_modulus(*key),
{
    key.carry_modulus.0
}

/// Calls `ServerKey::ciphertext_lwe_dimension` and counts the body in.
#[verifier::external_body]
pub(crate) fn lwe_size_of(key: &ServerKey) -> (n: usize)
    ensures
        n == key_lwe_size(*key),
{
    key.ciphertext_lwe_dimension().to_lwe_size().0
}

/// Calls `polynomial_size` on the key's bootstrapping key.
#[verifier::external_body]
pub(crate) fn polynomial_size_of(key: &ServerKey) -> (n: usize)
    ensures
        n == key_polynomial_size(*key),
{
    key.bootstrapping_key.polynomial_size().0
}

/// Calls `is_native_modulus` on the key's ciphertext modulus.
#[verifier::external_body]
pub(crate) fn is_native(key: &ServerKey) -> (b: bool)
    ensures
        b == key_native(*key),
{
    key.ciphertext_modulus.is_native_modulus()
}

/// Calls `ciphertext_modulus` on the key's keyswitching key, and
/// `is_native_modulus` on that.
#[verifier::external_body]
pub(crate) fn is_ks_native(key: &ServerKey) -> (b: bool)
    ensures
        b == key_ks_native(*key),
{
    key.key_switching_key.ciphertext_modulus().is_native_modulus()
}

/// Tells the two variants of `ShortintBootstrappingKey` apart.
#[verifier::external_body]
pub(crate) fn is_classic(key: &ServerKey) -> (b: bool)
    ensures
        b == key_classic(*key),
{
    match &key.bootstrapping_key {
        ShortintBootstrappingKey::Classic(_) => true,
        ShortintBootstrappingKey::MultiBit { .. } => false,
    }
}

/// Calls `input_key_lwe_dimension` on the key's keyswitching key.
#[verifier::external_body]
pub(crate) fn ks_input_of(key: &ServerKey) -> (n: usize)
    ensures
        n == key_ks_input(*key),
{
    key.key_switching_key.input_key_lwe_dimension().0
}

/// Calls `output_lwe_size` on the key's keyswitching key.
#[verifier::external_body]
pub(crate) fn ks_output_size_of(key: &ServerKey) -> (n: usize)
    ensures
        n == key_ks_output_size(*key),
{
    key.key_switching_key.output_lwe_size().0
}

/// Calls `input_lwe_dimension` on the key's bootstrapping key.
#[verifier::external_body]
pub(crate) fn bs_input_of(key: &ServerKey) -> (n: usize)
    ensures
        n == key_bs_input(*key),
{
    key.bootstrapping_key.input_lwe_dimension().0
}

/// Calls `glwe_size` on the key's bootstrapping key.
#[verifier::external_body]
pub(crate) fn glwe_size_of(key: &ServerKey) -> (n: usize)
    ensures
        n == key_glwe_size(*key),
{
    key.bootstrapping_key.glwe_size().0
}

/// Calls `allocate_and_trivially_encrypt_new_lwe_ciphertext` for the modulus
/// 2^64: `size` numbers, all 0 but the last, which is `plaintext`.
#[verifier::external_body]
pub(crate) fn lwe_trivial(size: usize, plaintext: u64) -> (res: Vec<u64>)
    requires
        size > 0,
    ensures
        res@ == Seq::new(
            size as nat,
            |i: int|
                if i == size - 1 {
                    plaintext
                } else {
                    0u64
                },
        ),
{
    let modulus = CiphertextModulus::new_native();
    allocate_and_trivially_encrypt_new_lwe_ciphertext(LweSize(size), Plaintext(plaintext), modulus)
        .into_container()
}

/// Calls `lwe_ciphertext_cleartext_mul_assign` on a copy: every number times
/// `scalar`, wrapping.
#[verifier::external_body]
pub(crate) fn lwe_scalar_mul(lwe: &Vec<u64>, scalar: u64) -> (res: Vec<u64>)
    requires
        lwe@.len() > 0,
    ensures
        res@ == Seq::new(lwe@.len(), |i: int| lwe@[i].wrapping_mul(scalar)),
{
    let mut ct = LweCiphertext::from_container(lwe.clone(), CiphertextModulus::new_native());
    lwe_ciphertext_cleartext_mul_assign(&mut ct, Cleartext(scalar));
    ct.into_container()
}

/// Calls `lwe_ciphertext_add_assign` on a copy of `lhs`: the numbers of `rhs`
/// added to those of `lhs` one by one, wrapping.
#[verifier::external_body]
pub(crate) fn lwe_add(lhs: &Vec<u64>, rhs: &Vec<u64>) -> (res: Vec<u64>)
    requires
        lhs@.len() == rhs@.len() > 0,
    ensures
        res@ == Seq::new(lhs@.len(), |i: int| lhs@[i].wrapping_add(rhs@[i])),
{
    let modulus = CiphertextModulus::new_native();
    let mut ct = LweCiphertext::from_container(lhs.clone(), modulus);
    lwe_ciphertext_add_assign(&mut ct, &LweCiphertext::from_container(rhs.as_slice(), modulus));
    ct.into_container()
}

/// Calls `lwe_ciphertext_sub_assign` on a copy of `lhs`: the numbers of `rhs`
/// taken off those of `lhs` one by one, wrapping.
#[verifier::external_body]
pub(crate) fn lwe_sub(lhs: &Vec<u64>, rhs: &Vec<u64>) -> (res: Vec<u64>)
    requires
        lhs@.len() == rhs@.len() > 0,
    ensures
        res@ == Seq::new(lhs@.len(), |i: int| lhs@[i].wrapping_sub(rhs@[i])),
{
    let modulus = CiphertextModulus::new_native();
    let mut ct = LweCiphertext::from_container(lhs.clone(), modulus);
    lwe_ciphertext_sub_assign(&mut ct, &LweCiphertext::from_container(rhs.as_slice(), modulus));
    ct.into_container()
}

/// Calls `lwe_ciphertext_plaintext_add_assign`: `plaintext` is added to the
/// last number, the body, wrapping.
#[verifier::external_body]
pub(crate) fn lwe_plaintext_add(lwe: Vec<u64>, plaintext: u64) -> (res: Vec<u64>)
    requires
        lwe@.len() > 0,
    ensures
        res@ == lwe@.update(lwe@.len() - 1, lwe@[lwe@.len() - 1].wrapping_add(plaintext)),
{
    let mut ct = LweCiphertext::from_container(lwe, CiphertextModulus::new_native());
    lwe_ciphertext_plaintext_add_assign(&mut ct, Plaintext(plaintext));
    ct.into_container()
}

/// Calls `ServerKey::apply_lookup_table` with an accumulator whose mask is
/// zero and whose body is `table`, of the degree `degree`.
///
/// The key's parts have to fit each other ([`key_parts_agree`]), and the
/// ciphertext and the table have to have the lengths of the key: `tfhe`
/// panics where they do not. The result has the length and the moduli of
/// `ct` and the degree `degree`, and its noise level is nominal, or none
/// where `ct` is trivial. Where `ct` is trivial, `tfhe` reads the table
/// without a bootstrap and the result is stated: see [`trivial_outcome`].
/// Otherwise the numbers of the result come out of the bootstrap and nothing
/// is stated of them.
#[verifier::external_body]
pub(crate) fn apply_lookup_table(
    key: &ServerKey,
    ct: &Ciphertext,
    table: &Vec<u64>,
    degree: usize,
) -> (res: Ciphertext)
    requires
        key_native(*key),
        key_parts_agree(*key),
        0 < key_plaintext_modulus(*key) <= usize::MAX,
        key_plaintext_modulus(*key) <= 0x8000_0000_0000_0000,
        ct.lwe@.len() == key_lwe_size(*key) > 0,
        table@.len() == key_polynomial_size(*key) > 0,
    ensures
        lookup_outcome(ct@, degree, res@),
        is_trivial(ct@) ==> res@ == trivial_outcome(
            ct@,
            table@,
            degree,
            key_plaintext_modulus(*key) as usize,
        ),
{
    let lwe = LweCiphertext::from_container(ct.lwe.clone(), key.ciphertext_modulus);
    let a = ShortCiphertext::new(lwe, Degree::new(ct.degree), NoiseLevel::NOMINAL * ct.noise_level, MessageModulus(ct.message_modulus), CarryModulus(ct.carry_modulus), key.pbs_order);
    let bsk = &key.bootstrapping_key;
    let mut acc = GlweCiphertext::new(0, bsk.glwe_size(), bsk.polynomial_size(), key.ciphertext_modulus);
    acc.get_mut_body().as_mut().copy_from_slice(table);
    let r = key.apply_lookup_table(&a, &LookupTableOwned { acc, degree: Degree::new(degree) });
    Ciphertext {
        degree: r.degree.get(),
        noise_level: r.noise_level().get(),
        message_modulus: r.message_modulus.0,
        carry_modulus: r.carry_modulus.0,
        lwe: r.ct.into_container(),
    }
}

/// Whether anyone can read the ciphertext: it has no noise and its mask is
/// zero.
pub open spec fn is_trivial(ct: CiphertextView) -> bool {
    &&& ct.lwe.len() > 0
    &&& ct.noise_level == 0
    &&& forall|i: int| 0 <= i < ct.lwe.len() - 1 ==> #[trigger] ct.lwe[i] == 0
}

/// What a look-up in `table` with the plaintext modulus `p` reads for a
/// trivial ciphertext with the body `body`: the body stands for the message
/// `body / delta`; a message below `p` reads the first entry of its box, one
/// from `p` on the negation of the first entry of the box `p` below.
pub open spec fn trivial_lookup(body: u64, table: Seq<u64>, p: usize) -> u64 {
    let message = body / delta_of(p);
    let box_size = table.len() as int / p as int;
    if message >= p {
        0u64.wrapping_sub(table[(message as int % p as int) * box_size])
    } else {
        table[message * box_size]
    }
}

/// The result of a look-up on a trivial ciphertext: the ciphertext with what
/// the look-up reads as its body, and with the degree of the table.
pub open spec fn trivial_outcome(
    ct: CiphertextView,
    table: Seq<u64>,
    degree: usize,
    p: usize,
) -> CiphertextView {
    CiphertextView {
        lwe: ct.lwe.update(ct.lwe.len() - 1, trivial_lookup(ct.lwe[ct.lwe.len() - 1], table, p)),
        degree,
        noise_level: ct.noise_level,
        message_modulus: ct.message_modulus,
        carry_modulus: ct.carry_modulus,
    }
}

/// What is known of the result `res` of a look-up on `ct` with a table of the
/// degree `degree`.
pub open spec fn lookup_outcome(ct: CiphertextView, degree: usize, res: CiphertextView) -> bool {
    &&& res.lwe.len() == ct.lwe.len()
    &&& res.degree == degree
    &&& res.noise_level <= 1
    &&& res.message_modulus == ct.message_modulus
    &&& res.carry_modulus == ct.carry_modulus
}

/// Calls `message_modulus` on the key's parameters.
#[verifier::external_body]
pub(crate) fn client_message_modulus_of(key: &ClientKey) -> (m: usize)
    ensures
        m == client_message_modulus(*key),
{
    key.parameters.message_modulus().0
}

/// Calls `carry_modulus` on the key's parameters.
#[verifier::external_body]
pub(crate) fn client_carry_modulus_of(key: &ClientKey) -> (m: usize)
    ensures
        m == client_carry_modulus(*key),
{
    key.parameters.carry_modulus().0
}

/// Calls `ClientKey::encrypt` on the message 0 and gives the length of what
/// comes back.
#[verifier::external_body]
pub(crate) fn client_lwe_size_of(key: &ClientKey) -> (n: usize)
    requires
        0 < client_message_modulus(*key) * client_carry_modulus(*key) <= usize::MAX,
    ensures
        n == client_lwe_size(*key),
{
    key.encrypt(0).ct.lwe_size().0
}

/// Calls `ClientKey::encrypt_with_message_modulus`.
///
/// The numbers of the result are random. Its message modulus is `modulus`,
/// its carry modulus what the key's plaintext modulus leaves beside it, its
/// degree `modulus - 1` and its noise level nominal.
#[verifier::external_body]
pub(crate) fn encrypt(key: &ClientKey, message: u64, modulus: usize) -> (res: Ciphertext)
    requires
        0 < modulus <= 2 * (client_message_modulus(*key) * client_carry_modulus(*key)),
        0 < client_message_modulus(*key) * client_carry_modulus(*key) <= usize::MAX,
    ensures
        res.lwe@.len() == client_lwe_size(*key),
        res.degree == modulus - 1,
        res.noise_level == 1,
        res.message_modulus == modulus,
        res.carry_modulus == (client_message_modulus(*key) * client_carry_modulus(*key))
            / modulus as int,
{
    let r = key.encrypt_with_message_modulus(message, MessageModulus(modulus));
    Ciphertext {
        degree: r.degree.get(),
        noise_level: r.noise_level().get(),
        message_modulus: r.message_modulus.0,
        carry_modulus: r.carry_modulus.0,
        lwe: r.ct.into_container(),
    }
}

/// Calls `ClientKey::decrypt_message_and_carry`. The number that comes back
/// depends on the key and on the numbers of the ciphertext alone; it is
/// named, not computed.
#[verifier::external_body]
pub(crate) fn decrypt(key: &ClientKey, ct: &Ciphertext) -> (message: u64)
    requires
        ct.lwe@.len() == client_lwe_size(*key) > 0,
        0 < client_message_modulus(*key) * client_carry_modulus(*key) <= usize::MAX,
        client_message_modulus(*key) * client_carry_modulus(*key) <= 0x8000_0000_0000_0000,
    ensures
        message == decryption(*key, ct.lwe@),
{
    let p = key.parameters;
    let lwe = LweCiphertext::from_container(ct.lwe.clone(), p.ciphertext_modulus());
    let a = ShortCiphertext::new(lwe, Degree::new(ct.degree), NoiseLevel::NOMINAL * ct.noise_level, MessageModulus(ct.message_modulus), CarryModulus(ct.carry_modulus), p.encryption_key_choice().into());
    key.decrypt_message_and_carry(&a)
}

/// Calls `tfhe::shortint::gen_keys` on the parameter set of `tfhe` that
/// `set` stands for. The keys are random, and nothing is stated of them.
#[verifier::external_body]
pub(crate) fn generate_keys(set: ParameterSet) -> (keys: (ClientKey, ServerKey)) {
    tfhe::shortint::gen_keys(
        match set {
            ParameterSet::Message1Carry1 => PARAM_MESSAGE_1_CARRY_1_KS_PBS,
            ParameterSet::Message2Carry2 => PARAM_MESSAGE_2_CARRY_2_KS_PBS,
            ParameterSet::Message3Carry3 => PARAM_MESSAGE_3_CARRY_3_KS_PBS,
            ParameterSet::Message4Carry4 => PARAM_MESSAGE_4_CARRY_4_KS_PBS,
        },
    )
}

} // verus!
