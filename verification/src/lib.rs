//! Evaluation of look-up-table boolean function circuits under TFHE with
//! functional bootstrapping.
//!
//! A circuit is a list of nodes over named signals: inputs, linear
//! combinations with small integer coefficients, and bootstraps that look a
//! signal up in boolean tables. The library reads circuits from their text
//! ([`parser`]), checks them ([`circuit`]) and resolves their names
//! ([`plan`]); it computes linear combinations and bootstraps on ciphertexts
//! ([`server`], [`test_vector`], [`ciphertext`]) with the keys and the
//! bootstrap of the `tfhe` crate ([`shortint`], [`client`]); and it runs
//! circuits step by step ([`task`], [`fbs_seq`]), on ciphertexts or, for
//! reference, on plain bits ([`clear`]). What the two have to do with each
//! other is stated in [`laws`].

pub mod ciphertext;
pub mod circuit;
pub mod clear;
pub mod client;
pub mod error;
pub mod fbs_seq;
pub mod laws;
pub mod parser;
pub mod plan;
pub mod server;
pub mod shortint;
pub mod stats;
pub mod task;
pub mod test_vector;
pub mod text;
