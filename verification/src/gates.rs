//! The single-bit FHE primitive that the rest of the library is built on.
//!
//! Everything in this file is trusted. The contracts restate what `tfhe::boolean`
//! documents of its keys, ciphertexts and gates: a gate applied to ciphertexts of
//! one key pair yields a ciphertext of that pair which decrypts to the Boolean
//! function of the inputs' plaintexts. The parameter sets of `tfhe` guarantee
//! this up to a probability of error that they bound (2^-64 for the default
//! set); the contracts idealise that probability to zero, as every caller of
//! `tfhe` does when it compares a decrypted result with an expected value.

use tfhe::boolean::ciphertext::Ciphertext;
use tfhe::boolean::client_key::ClientKey;
use tfhe::boolean::prelude::BinaryBooleanGates;
use tfhe::boolean::server_key::ServerKey;
use vstd::prelude::*;

verus! {

/// `tfhe::boolean::ciphertext::Ciphertext`, carried through as an opaque value.
#[verifier::external_type_specification]
#[verifier::external_body]
pub struct ExCiphertext(Ciphertext);

/// `tfhe::boolean::client_key::ClientKey`, carried through as an opaque value.
#[verifier::external_type_specification]
#[verifier::external_body]
pub struct ExClientKey(ClientKey);

/// `tfhe::boolean::server_key::ServerKey`, carried through as an opaque value.
#[verifier::external_type_specification]
#[verifier::external_body]
pub struct ExServerKey(ServerKey);

/// The bit that `ClientKey::decrypt` returns for `ct` under `ck`.
pub uninterp spec fn plain_bit(ck: ClientKey, ct: Ciphertext) -> bool;

/// `sk` is a server key that `ServerKey::new` generated from `ck`.
pub uninterp spec fn key_pair(ck: ClientKey, sk: ServerKey) -> bool;

/// `ct` is a ciphertext of the key pair that `sk` belongs to: a trivial
/// ciphertext, or an encryption under the client key of `sk` whose noise lies
/// inside the decoding margin. These are the inputs on which the gates of `sk`
/// neither panic nor decode wrongly.
pub uninterp spec fn usable(sk: ServerKey, ct: Ciphertext) -> bool;

/// `tfhe::boolean::gen_keys`: a fresh client key of the default parameter
/// set, and the server key that `ServerKey::new` generates from it.
#[verifier::external_body]
pub(crate) fn generate_keys() -> (r: (ClientKey, ServerKey))
    ensures
        key_pair(r.0, r.1),
{
    tfhe::boolean::gen_keys()
}

/// `ClientKey::encrypt`: a fresh encryption of `message`. It decrypts to
/// `message` under `ck` and is an input for every server key of `ck`.
#[verifier::external_body]
pub(crate) fn encrypt_bit(ck: &ClientKey, message: bool) -> (r: Ciphertext)
    ensures
        plain_bit(*ck, r) == message,
        forall|sk: ServerKey| #[trigger] key_pair(*ck, sk) ==> usable(sk, r),
{
    ck.encrypt(message)
}

/// `ClientKey::decrypt`. The LWE decryption inside panics on a ciphertext of
/// another dimension, so the ciphertext has to belong to a key pair of `ck`.
#[verifier::external_body]
pub(crate) fn decrypt_bit(ck: &ClientKey, ct: &Ciphertext) -> (r: bool)
    requires
        exists|sk: ServerKey| #[trigger] key_pair(*ck, sk) && usable(sk, *ct),
    ensures
        r == plain_bit(*ck, *ct),
{
    ck.decrypt(ct)
}

/// `ServerKey::trivial_encrypt`: the ciphertext `Ciphertext::Trivial(message)`,
/// which every client key decrypts to `message`.
#[verifier::external_body]
pub(crate) fn trivial_bit(sk: &ServerKey, message: bool) -> (r: Ciphertext)
    ensures
        usable(*sk, r),
        forall|ck: ClientKey| #[trigger] plain_bit(ck, r) == message,
{
    sk.trivial_encrypt(message)
}

/// `Clone::clone` of a ciphertext (derived by `tfhe`): an equal value.
#[verifier::external_body]
pub(crate) fn copy_bit(ct: &Ciphertext) -> (r: Ciphertext)
    ensures
        r == *ct,
{
    ct.clone()
}

/// `ServerKey::not`: the homomorphic NOT gate.
#[verifier::external_body]
pub(crate) fn gate_not(sk: &ServerKey, a: &Ciphertext) -> (r: Ciphertext)
    requires
        usable(*sk, *a),
    ensures
        usable(*sk, r),
        forall|ck: ClientKey| #[trigger] key_pair(ck, *sk) ==> plain_bit(ck, r) == !plain_bit(ck, *a),
{
    sk.not(a)
}

/// `BinaryBooleanGates::and` of `ServerKey`: the homomorphic AND gate.
#[verifier::external_body]
pub(crate) fn gate_and(sk: &ServerKey, a: &Ciphertext, b: &Ciphertext) -> (r: Ciphertext)
    requires
        usable(*sk, *a),
        usable(*sk, *b),
    ensures
        usable(*sk, r),
        forall|ck: ClientKey| #[trigger] key_pair(ck, *sk)
            ==> plain_bit(ck, r) == (plain_bit(ck, *a) && plain_bit(ck, *b)),
{
    sk.and(a, b)
}

/// `BinaryBooleanGates::or` of `ServerKey`: the homomorphic OR gate.
#[verifier::external_body]
pub(crate) fn gate_or(sk: &ServerKey, a: &Ciphertext, b: &Ciphertext) -> (r: Ciphertext)
    requires
        usable(*sk, *a),
        usable(*sk, *b),
    ensures
        usable(*sk, r),
        forall|ck: ClientKey| #[trigger] key_pair(ck, *sk)
            ==> plain_bit(ck, r) == (plain_bit(ck, *a) || plain_bit(ck, *b)),
{
    sk.or(a, b)
}

/// `BinaryBooleanGates::xor` of `ServerKey`: the homomorphic XOR gate.
#[verifier::external_body]
pub(crate) fn gate_xor(sk: &ServerKey, a: &Ciphertext, b: &Ciphertext) -> (r: Ciphertext)
    requires
        usable(*sk, *a),
        usable(*sk, *b),
    ensures
        usable(*sk, r),
        forall|ck: ClientKey| #[trigger] key_pair(ck, *sk)
            ==> plain_bit(ck, r) == (plain_bit(ck, *a) != plain_bit(ck, *b)),
{
    sk.xor(a, b)
}

/// `ServerKey::mux`: the homomorphic multiplexer, `then` where the condition
/// holds and `otherwise` where it does not.
#[verifier::external_body]
pub(crate) fn gate_mux(sk: &ServerKey, condition: &Ciphertext, then: &Ciphertext, otherwise: &Ciphertext) -> (r: Ciphertext)
    requires
        usable(*sk, *condition),
        usable(*sk, *then),
        usable(*sk, *otherwise),
    ensures
        usable(*sk, r),
        forall|ck: ClientKey| #[trigger] key_pair(ck, *sk) ==> plain_bit(ck, r) == (if plain_bit(
            ck,
            *condition,
        ) {
            plain_bit(ck, *then)
        } else {
            plain_bit(ck, *otherwise)
        }),
{
    sk.mux(condition, then, otherwise)
}

/// `BinaryBooleanGates::nand` of `ServerKey`: the homomorphic NAND gate.
#[verifier::external_body]
pub(crate) fn gate_nand(sk: &ServerKey, a: &Ciphertext, b: &Ciphertext) -> (r: Ciphertext)
    requires
        usable(*sk, *a),
        usable(*sk, *b),
    ensures
        usable(*sk, r),
        forall|ck: ClientKey| #[trigger] key_pair(ck, *sk)
            ==> plain_bit(ck, r) == !(plain_bit(ck, *a) && plain_bit(ck, *b)),
{
    sk.nand(a, b)
}

/// `BinaryBooleanGates::nor` of `ServerKey`: the homomorphic NOR gate.
#[verifier::external_body]
pub(crate) fn gate_nor(sk: &ServerKey, a: &Ciphertext, b: &Ciphertext) -> (r: Ciphertext)
    requires
        usable(*sk, *a),
        usable(*sk, *b),
    ensures
        usable(*sk, r),
        forall|ck: ClientKey| #[trigger] key_pair(ck, *sk)
            ==> plain_bit(ck, r) == !(plain_bit(ck, *a) || plain_bit(ck, *b)),
{
    sk.nor(a, b)
}

/// `BinaryBooleanGates::xnor` of `ServerKey`: the homomorphic XNOR gate.
#[verifier::external_body]
pub(crate) fn gate_xnor(sk: &ServerKey, a: &Ciphertext, b: &Ciphertext) -> (r: Ciphertext)
    requires
        usable(*sk, *a),
        usable(*sk, *b),
    ensures
        usable(*sk, r),
        forall|ck: ClientKey| #[trigger] key_pair(ck, *sk)
            ==> plain_bit(ck, r) == (plain_bit(ck, *a) == plain_bit(ck, *b)),
{
    sk.xnor(a, b)
}

} // verus!
