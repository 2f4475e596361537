//! Random identifiers, and how they are written.

use crate::numerals;
use vstd::prelude::*;

verus! {

/// A 128-bit identifier.
#[derive(Debug, Clone, Copy, PartialEq, Eq, Structural)]
pub struct Uuid {
    pub bits: u128,
}

/// The bits that tell a random identifier: version 4, and the variant of RFC 4122.
pub open spec fn is_random(bits: int) -> bool {
    &&& (bits / 0x1000_0000_0000_0000_0000) % 16 == 4
    &&& (bits / 0x4000_0000_0000_0000) % 4 == 2
}

/// The identifier as 32 hexadecimal digits.
pub open spec fn simple(bits: nat) -> Seq<char> {
    numerals::hex(bits, 32)
}

/// The identifier as groups of 8, 4, 4, 4 and 12 hexadecimal digits.
pub open spec fn hyphenated(bits: nat) -> Seq<char> {
    let h = numerals::hex(bits, 32);
    h.subrange(0, 8) + seq!['-'] + h.subrange(8, 12) + seq!['-'] + h.subrange(12, 16) + seq!['-']
        + h.subrange(16, 20) + seq!['-'] + h.subrange(20, 32)
}

/// The bits of `uuid::Uuid::new_v4`, which are random but for the version and the
/// variant.
#[verifier::external_body]
fn random_bits() -> (r: u128)
    ensures
        is_random(r as int),
{
    uuid::Uuid::new_v4().as_u128()
}

/// What `uuid::Uuid::simple` writes: the bits as 32 lower-case hexadecimal digits.
#[verifier::external_body]
fn format_simple(bits: u128) -> (r: String)
    ensures
        r@ == simple(bits as nat),
{
    uuid::Uuid::from_u128(bits).simple().to_string()
}

/// What `uuid::Uuid` is displayed as: the 32 lower-case hexadecimal digits of its bits
/// in five groups with a hyphen between them.
#[verifier::external_body]
fn format_hyphenated(bits: u128) -> (r: String)
    ensures
        r@ == hyphenated(bits as nat),
{
    uuid::Uuid::from_u128(bits).to_string()
}

impl Uuid {
    /// A new random identifier.
    pub fn new_v4() -> (r: Uuid)
        ensures
            is_random(r.bits as int),
    {
        Uuid { bits: random_bits() }
    }

    /// The identifier as 32 hexadecimal digits.
    pub fn simple_text(&self) -> (r: String)
        ensures
            r@ == simple(self.bits as nat),
            r@.len() == 32,
    {
        proof {
            numerals::lemma_hex_len(self.bits as nat, 32);
        }
        format_simple(self.bits)
    }

    /// The identifier in its five groups.
    pub fn hyphenated_text(&self) -> (r: String)
        ensures
            r@ == hyphenated(self.bits as nat),
    {
        format_hyphenated(self.bits)
    }
}

} // verus!
