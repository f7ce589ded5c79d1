//! Identifiers of clients, listeners and packets.
//!
//! An identifier is an RFC 4122 UUID, held here as the 128-bit number that the UUID packs
//! its sixteen bytes into, most significant byte first.

use vstd::prelude::*;

verus! {

/// Identifies one connected client for the lifetime of its socket.
pub type ClientId = u128;

/// Identifies one registered listener (the lobby or a game) until it terminates.
pub type ListenerId = u128;

/// Identifies one wrapped inbound packet; echoed back in its acknowledgement.
pub type PacketId = u128;

/// The bits of a UUID that hold its version and variant.
pub const VERSION_VARIANT_MASK: u128 = 0x0000_0000_0000_F000_C000_0000_0000_0000u128;

/// The version and variant bits of a random (version 4) UUID.
pub const VERSION_4_VARIANT_1: u128 = 0x0000_0000_0000_4000_8000_0000_0000_0000u128;

/// Whether `id` carries the version and variant bits of a random (version 4) UUID.
pub open spec fn is_random_uuid(id: u128) -> bool {
    id & VERSION_VARIANT_MASK == VERSION_4_VARIANT_1
}

/// The lower-case hexadecimal digit for `value`, which is below sixteen.
pub open spec fn hex_digit(value: int) -> char {
    seq!['0', '1', '2', '3', '4', '5', '6', '7', '8', '9', 'a', 'b', 'c', 'd', 'e', 'f'][value]
}

/// The `k`-th of the thirty-two hexadecimal digits of `id`, the most significant first.
pub open spec fn uuid_digit(id: u128, k: int) -> int {
    ((id >> ((4 * (31 - k)) as u128)) & 0xf) as int
}

/// Whether a hyphen stands at position `i` of a UUID's text.
pub open spec fn is_hyphen_position(i: int) -> bool {
    i == 8 || i == 13 || i == 18 || i == 23
}

/// Which of the thirty-two digits stands at position `i` of a UUID's text, where no
/// hyphen stands there.
pub open spec fn digit_position(i: int) -> int {
    if i < 8 {
        i
    } else if i < 13 {
        i - 1
    } else if i < 18 {
        i - 2
    } else if i < 23 {
        i - 3
    } else {
        i - 4
    }
}

/// The text of the UUID whose 128-bit value is `id`, in the lower-case hyphenated form:
/// thirty-two hexadecimal digits, the most significant first, in groups of eight, four,
/// four, four and twelve with a hyphen between the groups.
pub open spec fn uuid_text(id: u128) -> Seq<char> {
    Seq::new(
        36,
        |i: int|
            if is_hyphen_position(i) {
                '-'
            } else {
                hex_digit(uuid_digit(id, digit_position(i)))
            },
    )
}

/// Mints a fresh random identifier.
///
/// Trusted: calls `uuid::Uuid::new_v4` and `uuid::Uuid::as_u128`. `new_v4` draws 128 random
/// bits and overwrites the version and variant bits with those of a version 4 UUID, which
/// is all that is claimed of the result. Two calls may return the same id: whoever
/// enters an id in a registry checks that it is not taken.
#[verifier::external_body]
pub(crate) fn mint_id() -> (id: u128)
    ensures
        is_random_uuid(id),
{
    uuid::Uuid::new_v4().as_u128()
}

/// Prints an identifier as UUID text.
///
/// Trusted: calls `uuid::Uuid::from_u128` and the `Display` impl of `uuid::Uuid`, which
/// prints the lower-case hyphenated form that [`uuid_text`] spells out.
#[verifier::external_body]
pub(crate) fn uuid_to_string(id: u128) -> (text: String)
    ensures
        text@ == uuid_text(id),
{
    uuid::Uuid::from_u128(id).to_string()
}

} // verus!
