//! The client: encryption and decryption of messages modulo `2p`.

use crate::ciphertext::Ciphertext;
use crate::server::{key_usable, Server};
use crate::shortint::{
    client_carry_modulus, client_carry_modulus_of, client_lwe_size, client_lwe_size_of,
    client_message_modulus, client_message_modulus_of, decrypt, decryption, encrypt,
    generate_keys,
};
use tfhe::shortint::{ClientKey, ServerKey};
use vstd::prelude::*;

verus! {

/// The parameter sets of `tfhe` that keys can be made for: the classic sets
/// with as many bits of carry as of message, keyswitch before bootstrap.
#[derive(Debug, Clone, Copy, PartialEq, Eq)]
pub enum ParameterSet {
    /// One bit of message, one of carry: the plaintext modulus 4.
    Message1Carry1,
    /// Two bits of message, two of carry: the plaintext modulus 16.
    Message2Carry2,
    /// Three bits of message, three of carry: the plaintext modulus 64.
    Message3Carry3,
    /// Four bits of message, four of carry: the plaintext modulus 256.
    Message4Carry4,
}

/// A client key with the sizes that the operations read off it.
pub struct Client {
    pub client_key: ClientKey,
    /// The modulus of the messages: twice the plaintext modulus of the key.
    pub pt_mod_full: usize,
    /// The length of a ciphertext, body included.
    pub lwe_size: usize,
}

/// The plaintext modulus of a client key: message modulus times carry
/// modulus.
pub open spec fn client_plaintext_modulus(key: ClientKey) -> int {
    client_message_modulus(key) * client_carry_modulus(key)
}

/// Whether a client can be made of the key: its plaintext modulus is not 0
/// and can be doubled, and its ciphertexts are not empty.
pub open spec fn client_key_usable(key: ClientKey) -> bool {
    &&& 0 < client_plaintext_modulus(key)
    &&& 2 * client_plaintext_modulus(key) <= usize::MAX
    &&& 0 < client_lwe_size(key)
}

/// The message that a decrypted number is, if it is one modulo `modulus` and
/// fits a `u8`.
pub open spec fn message_of(decrypted: u64, modulus: usize) -> Option<u8> {
    if decrypted <= 255 && decrypted < modulus {
        Some(decrypted as u8)
    } else {
        None
    }
}

impl Client {
    /// Whether the sizes are those of the key, and the key is usable.
    pub open spec fn well_formed(&self) -> bool {
        &&& client_key_usable(self.client_key)
        &&& self.pt_mod_full == 2 * client_plaintext_modulus(self.client_key)
        &&& self.lwe_size == client_lwe_size(self.client_key)
    }

    /// The client for a usable key.
    pub fn new(client_key: ClientKey) -> (client: Client)
        requires
            client_key_usable(client_key),
        ensures
            client.well_formed(),
            client.client_key == client_key,
    {
        let message_modulus = client_message_modulus_of(&client_key);
        let carry_modulus = client_carry_modulus_of(&client_key);
        assert(message_modulus * carry_modulus == client_plaintext_modulus(client_key));
        let pt_mod = message_modulus * carry_modulus;
        let lwe_size = client_lwe_size_of(&client_key);
        Client { client_key, pt_mod_full: 2 * pt_mod, lwe_size }
    }

    /// The client for the key, if the key is usable.
    pub fn try_new(client_key: ClientKey) -> (r: Option<Client>)
        ensures
            r is Some <==> client_key_usable(client_key),
            r matches Some(client) ==> client.well_formed() && client.client_key == client_key,
    {
        let pt_mod = client_message_modulus_of(&client_key).checked_mul(
            client_carry_modulus_of(&client_key),
        );
        match pt_mod {
            Some(p) => {
                if p > 0 && p <= usize::MAX / 2 {
                    if client_lwe_size_of(&client_key) > 0 {
                        Some(Client::new(client_key))
                    } else {
                        None
                    }
                } else {
                    None
                }
            },
            None => None,
        }
    }

    /// A fresh ciphertext of `msg` modulo `2p`. A message of the upper half
    /// sets the padding bit of the scheme.
    pub fn encrypt(&self, msg: u8) -> (ct: Ciphertext)
        requires
            self.well_formed(),
        ensures
            ct.lwe@.len() == self.lwe_size,
            ct.message_modulus == self.pt_mod_full,
            ct.degree == self.pt_mod_full - 1,
            ct.noise_level == 1,
    {
        encrypt(&self.client_key, msg as u64, self.pt_mod_full)
    }

    /// The message of a ciphertext of the client's length: the number that
    /// the decryption reads out of it, or `None` if that is no message modulo
    /// `2p` or does not fit a `u8`.
    pub fn decrypt(&self, ct: &Ciphertext) -> (r: Option<u8>)
        requires
            self.well_formed(),
            ct.lwe@.len() == self.lwe_size,
        ensures
            r == message_of(decryption(self.client_key, ct.lwe@), self.pt_mod_full),
    {
        let msg = decrypt(&self.client_key, ct);
        if msg <= 255 && msg < self.pt_mod_full as u64 {
            Some(msg as u8)
        } else {
            None
        }
    }
}

/// Fresh keys for the parameter set, as a client and a server; `None` if the
/// keys that come back are not usable.
pub fn gen_client_server(params: ParameterSet) -> (r: Option<(Client, Server)>)
    ensures
        r matches Some(pair) ==> pair.0.well_formed() && pair.1.well_formed(),
{
    let (client_key, server_key) = generate_keys(params);
    from_keys(client_key, server_key)
}

/// The client and the server for a pair of keys: both, exactly if both keys
/// are usable.
pub fn from_keys(client_key: ClientKey, server_key: ServerKey) -> (r: Option<(Client, Server)>)
    ensures
        r is Some <==> client_key_usable(client_key) && key_usable(server_key),
        r matches Some(pair) ==> {
            &&& pair.0.well_formed()
            &&& pair.0.client_key == client_key
            &&& pair.1.well_formed()
            &&& pair.1.server_key == server_key
        },
{
    match Client::try_new(client_key) {
        Some(client) => match Server::try_new(server_key) {
            Some(server) => Some((client, server)),
            None => None,
        },
        None => None,
    }
}

} // verus!
