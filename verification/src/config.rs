//! What the command line hands to the evaluator: the mode, keys and vectors
//! written in hex, and the counters of counter mode.

use crate::aes::{be_digits, be_value, lemma_be_digits, lemma_be_value_bounds, lemma_be_value_concat, pow256};
use hex::FromHexError;
use vstd::prelude::*;
use vstd::string::StringSliceAdditionalSpecFns;

verus! {

/// The modes of operation.
#[derive(Debug, PartialEq, Eq, Copy, Clone, Structural)]
pub enum Mode {
    ECB,
    CBC,
    CTR,
    OFB,
}

impl Mode {
    /// The name of the mode on the command line, as bytes.
    pub open spec fn name(self) -> Seq<u8> {
        match self {
            Mode::ECB => seq![0x45u8, 0x43u8, 0x42u8],
            Mode::CBC => seq![0x43u8, 0x42u8, 0x43u8],
            Mode::CTR => seq![0x43u8, 0x54u8, 0x52u8],
            Mode::OFB => seq![0x4fu8, 0x46u8, 0x42u8],
        }
    }
}

/// `hex::FromHexError`, carried through as an opaque value.
#[verifier::external_type_specification]
#[verifier::external_body]
pub struct ExFromHexError(FromHexError);

/// The value of a hex digit, upper or lower case; none for another byte.
pub open spec fn hex_digit(c: u8) -> Option<u8> {
    if 0x30 <= c <= 0x39 {
        Some((c - 0x30) as u8)
    } else if 0x41 <= c <= 0x46 {
        Some((c - 0x41 + 10) as u8)
    } else if 0x61 <= c <= 0x66 {
        Some((c - 0x61 + 10) as u8)
    } else {
        None
    }
}

/// The text is an even number of hex digits.
pub open spec fn is_hex(text: Seq<u8>) -> bool {
    text.len() % 2 == 0 && forall|i: int| 0 <= i < text.len() ==> hex_digit(#[trigger] text[i]) is Some
}

/// The bytes that a text of hex digits spells: two digits a byte, the high
/// digit first.
pub open spec fn hex_bytes(text: Seq<u8>) -> Seq<u8> {
    Seq::new(
        text.len() / 2,
        |i: int| (hex_digit(text[2 * i])->Some_0 * 16 + hex_digit(text[2 * i + 1])->Some_0) as u8,
    )
}

/// `hex::decode`: the bytes that a text of hex digits spells. The call
/// succeeds exactly on an even number of hex digits, of either case.
#[verifier::external_body]
fn decode_hex(text: &str) -> (r: Result<Vec<u8>, FromHexError>)
    ensures
        match r {
            Ok(bytes) => is_hex(text.spec_bytes()) && bytes@ == hex_bytes(text.spec_bytes()),
            Err(_) => !is_hex(text.spec_bytes()),
        },
{
    hex::decode(text)
}

/// `format!`: the message for a mode that does not exist.
#[verifier::external_body]
fn invalid_mode_message(input: &str) -> (r: String)
    ensures
        r@ == "Invalid mode: "@ + input@,
{
    format!("Invalid mode: {}", input)
}

/// `format!`: the message for a text of the wrong length, with the length
/// in decimal digits.
#[verifier::external_body]
fn wrong_length_message(length: usize) -> (r: String) {
    format!("Must be 32 hex characters (16 bytes), it is currently {} characters.", length)
}

/// Whether the text is the three bytes `a`, `b`, `c`.
fn is_name(text: &[u8], a: u8, b: u8, c: u8) -> (r: bool)
    ensures
        r == (text@ == seq![a, b, c]),
{
    if text.len() == 3 && text[0] == a && text[1] == b && text[2] == c {
        assert(text@ =~= seq![a, b, c]);
        true
    } else {
        if text.len() == 3 {
            assert(seq![a, b, c][0] == a && seq![a, b, c][1] == b && seq![a, b, c][2] == c);
        } else {
            assert(seq![a, b, c].len() == 3);
        }
        false
    }
}

/// Reads the name of a mode: `ECB`, `CBC`, `CTR` or `OFB`, in upper case.
/// Every other text is rejected with a message that quotes it.
pub fn parse_mode(input: &str) -> (r: Result<Mode, String>)
    ensures
        match r {
            Ok(mode) => input.spec_bytes() == mode.name(),
            Err(message) => message@ == "Invalid mode: "@ + input@ && forall|mode: Mode|
                input.spec_bytes() != #[trigger] mode.name(),
        },
{
    let text = input.as_bytes();
    if is_name(text, 0x45, 0x43, 0x42) {
        Ok(Mode::ECB)
    } else if is_name(text, 0x43, 0x42, 0x43) {
        Ok(Mode::CBC)
    } else if is_name(text, 0x43, 0x54, 0x52) {
        Ok(Mode::CTR)
    } else if is_name(text, 0x4f, 0x46, 0x42) {
        Ok(Mode::OFB)
    } else {
        Err(invalid_mode_message(input))
    }
}

/// Reads sixteen bytes written as 32 hex digits. A text of another length,
/// and one that holds anything but hex digits, is rejected.
pub fn parse_hex_16(hex_str: &str) -> (r: Result<[u8; 16], String>)
    ensures
        match r {
            Ok(bytes) => hex_str.spec_bytes().len() == 32 && is_hex(hex_str.spec_bytes()) && bytes@ == hex_bytes(
                hex_str.spec_bytes(),
            ),
            Err(message) => (hex_str.spec_bytes().len() != 32 || !is_hex(hex_str.spec_bytes())) && (
            hex_str.spec_bytes().len() == 32 ==> message@ == "Failed to decode hex"@),
        },
{
    let length: usize = hex_str.as_bytes().len();
    if length != 32 {
        return Err(wrong_length_message(length));
    }
    match decode_hex(hex_str) {
        Ok(bytes) => {
            assert(hex_str.spec_bytes().len() == 32);
            assert(bytes@.len() == 16);
            let mut array: [u8; 16] = [0u8; 16];
            let mut i: usize = 0;
            while i < 16
                invariant
                    i <= 16,
                    bytes.len() == 16,
                    forall|j: int| 0 <= j < i ==> array[j] == bytes[j],
                decreases 16 - i,
            {
                array[i] = bytes[i];
                i += 1;
            }
            assert(array@ =~= bytes@);
            Ok(array)
        },
        Err(_) => Err("Failed to decode hex".to_owned()),
    }
}


/// The nonce of a counter block: its first eight bytes.
pub open spec fn nonce_of(block: Seq<u8>) -> Seq<u8> {
    block.subrange(0, 8)
}

/// The count of a counter block: the number that its last eight bytes
/// spell, most significant byte first.
pub open spec fn count_of(block: Seq<u8>) -> nat {
    be_value(block.subrange(8, 16))
}

/// The next counter block: the count goes up by one and starts again at zero
/// after the greatest count; the nonce stays.
#[verifier::rlimit(50)]
pub fn increment_counter(counter: [u8; 16]) -> (r: [u8; 16])
    ensures
        nonce_of(r@) == nonce_of(counter@),
        count_of(r@) == (count_of(counter@) + 1) as int % pow256(8) as int,
{
    let mut next: [u8; 16] = counter;
    let mut k: usize = 16;
    let mut carried: bool = true;
    while k > 8 && carried
        invariant
            8 <= k <= 16,
            forall|j: int| 0 <= j < k ==> next[j] == counter[j],
            carried ==> forall|j: int| k <= j < 16 ==> counter[j] == 255 && next[j] == 0,
            !carried ==> k < 16 && counter[k as int] < 255 && next[k as int] == counter[k as int] + 1,
            !carried ==> forall|j: int| k < j < 16 ==> counter[j] == 255 && next[j] == 0,
        decreases k + if carried { 1int } else { 0int },
    {
        k -= 1;
        if next[k] == 255 {
            next[k] = 0;
        } else {
            next[k] = next[k] + 1;
            carried = false;
        }
    }
    proof {
        assert(nonce_of(next@) =~= nonce_of(counter@));
        let low = next@.subrange(8, 16);
        let before = counter@.subrange(8, 16);
        assert(pow256(8) == 0x1_0000_0000_0000_0000) by {
            reveal_with_fuel(pow256, 9);
        }
        if carried {
            assert forall|i: int| 0 <= i < low.len() implies low[i] == 0 by {
                assert(low[i] == next[i + 8]);
            }
            assert forall|i: int| 0 <= i < before.len() implies before[i] == 255 by {
                assert(before[i] == counter[i + 8]);
            }
            lemma_be_value_bounds(low);
            lemma_be_value_bounds(before);
            assert(be_value(low) == 0);
            assert(be_value(before) == pow256(8) - 1);
        } else {
            let head = counter@.subrange(8, k as int);
            let ones = counter@.subrange(k + 1, 16);
            let zeros = next@.subrange(k + 1, 16);
            let with_old = head + seq![counter[k as int]];
            let with_new = head + seq![next[k as int]];
            assert(before =~= with_old + ones);
            assert(low =~= with_new + zeros);
            lemma_be_value_concat(with_old, ones);
            lemma_be_value_concat(with_new, zeros);
            assert forall|i: int| 0 <= i < ones.len() implies ones[i] == 255 by {
                assert(ones[i] == counter[i + k + 1]);
            }
            assert forall|i: int| 0 <= i < zeros.len() implies zeros[i] == 0 by {
                assert(zeros[i] == next[i + k + 1]);
            }
            lemma_be_value_bounds(ones);
            lemma_be_value_bounds(zeros);
            lemma_be_value_bounds(before);
            lemma_be_value_bounds(low);
            assert(with_old.drop_last() =~= head);
            assert(with_new.drop_last() =~= head);
            assert(with_old.last() == counter[k as int]);
            assert(with_new.last() == next[k as int]);
            assert(be_value(with_new) == be_value(with_old) + 1);
            let power = pow256(ones.len()) as int;
            let base = be_value(with_old) as int;
            assert(zeros.len() == ones.len());
            assert((base + 1) * power == base * power + power) by (nonlinear_arith);
            assert(be_value(low) == (base + 1) * power + 0);
            assert(be_value(before) == base * power + (power - 1));
            assert(be_value(low) == be_value(before) + 1);
        }
    }
    next
}

/// Counter block `i` under the nonce of `iv`: the first eight bytes of `iv`,
/// then the eight bytes that spell `i`, most significant byte first.
pub open spec fn counter_block(iv: Seq<u8>, i: nat) -> Seq<u8> {
    nonce_of(iv) + be_digits(i, 8)
}

/// A block is the counter block of its own count under its own nonce.
pub proof fn lemma_counter_block(block: Seq<u8>)
    requires
        block.len() == 16,
    ensures
        block == counter_block(block, count_of(block)),
{
    lemma_be_digits(block.subrange(8, 16));
    assert(block =~= block.subrange(0, 8) + block.subrange(8, 16));
}

/// The counter blocks of counter mode: the first has the nonce of `iv` and
/// count zero, every other one follows the block before it.
pub fn generate_counters(iv: &[u8; 16], number_of_outputs: u8) -> (counters: Vec<[u8; 16]>)
    ensures
        counters.len() == number_of_outputs,
        forall|i: int| 0 <= i < counters.len() ==> nonce_of((#[trigger] counters[i])@) == nonce_of(iv@),
        forall|i: int| 0 <= i < counters.len() ==> count_of((#[trigger] counters[i])@) == i,
        forall|i: int| 0 <= i < counters.len() ==> (#[trigger] counters[i])@ == counter_block(iv@, i as nat),
{
    let mut counters: Vec<[u8; 16]> = Vec::with_capacity(number_of_outputs as usize);
    let mut counter: [u8; 16] = *iv;
    let mut j: usize = 8;
    while j < 16
        invariant
            8 <= j <= 16,
            forall|t: int| 0 <= t < 8 ==> counter[t] == iv[t],
            forall|t: int| 8 <= t < j ==> counter[t] == 0,
        decreases 16 - j,
    {
        counter[j] = 0;
        j += 1;
    }
    proof {
        assert(nonce_of(counter@) =~= nonce_of(iv@));
        lemma_be_value_bounds(counter@.subrange(8, 16));
        assert(pow256(8) == 0x1_0000_0000_0000_0000) by {
            reveal_with_fuel(pow256, 9);
        }
    }
    let mut i: u8 = 0;
    while i < number_of_outputs
        invariant
            i <= number_of_outputs,
            counters.len() == i,
            nonce_of(counter@) == nonce_of(iv@),
            count_of(counter@) == i,
            pow256(8) == 0x1_0000_0000_0000_0000,
            forall|t: int| 0 <= t < counters.len() ==> nonce_of((#[trigger] counters[t])@) == nonce_of(iv@),
            forall|t: int| 0 <= t < counters.len() ==> count_of((#[trigger] counters[t])@) == t,
            forall|t: int| 0 <= t < counters.len() ==> (#[trigger] counters[t])@ == counter_block(iv@, t as nat),
        decreases number_of_outputs - i,
    {
        proof {
            lemma_counter_block(counter@);
        }
        counters.push(counter);
        counter = increment_counter(counter);
        i += 1;
    }
    counters
}

} // verus!
