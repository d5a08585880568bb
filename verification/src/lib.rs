//! AES-128 on blocks under fully homomorphic encryption.
//!
//! Every bit of a key, a block and an intermediate state is a ciphertext of
//! `tfhe::boolean`; the cipher runs gate by gate on those ciphertexts. The
//! S-box and its inverse are compiled from their truth tables into Boolean
//! expressions in canonical form, and a staged evaluator runs every distinct
//! sub-expression once, the gates of one stage in parallel.
//!
//! The contracts speak of what a client key decrypts a value to: a gate, a
//! byte operation, a round step, the cipher and the modes are each held to
//! the plain function that they compute. The gates of `tfhe` themselves are
//! taken on trust, in `gates`.

pub mod aes;
pub mod boolean_tree;
pub mod bytes;
pub mod clear;
pub mod config;
pub mod evaluator;
pub mod gates;
pub mod key_schedule;
pub mod modes;
pub mod primitive;
pub mod sbox;
pub mod state;
pub mod tree;
pub mod trial;

pub use key_schedule::Key;
pub use primitive::FHEByte;
pub use state::State;
