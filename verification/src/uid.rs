//! Random identifiers.
use vstd::prelude::*;

verus! {

/// The hexadecimal digit for a number below 16, in lower case.
pub open spec fn hex_digit(value: nat) -> char {
    if value < 10 {
        ('0' as u32 + value) as char
    } else {
        ('a' as u32 + value - 10) as char
    }
}

/// Where an identifier's text has a hyphen.
pub open spec fn is_hyphen(place: int) -> bool {
    place == 8 || place == 13 || place == 18 || place == 23
}

/// How many hyphens stand in front of a place in an identifier's text.
pub open spec fn hyphens_before(place: int) -> int {
    if place <= 8 {
        0
    } else if place <= 13 {
        1
    } else if place <= 18 {
        2
    } else if place <= 23 {
        3
    } else {
        4
    }
}

/// An identifier as text: two hexadecimal digits for each byte, in groups of 8, 4, 4, 4 and 12 with
/// hyphens between them.
pub open spec fn uid_text(uid: Seq<u8>) -> Seq<char> {
    Seq::new(
        36,
        |place: int|
            {
                let digit = place - hyphens_before(place);
                if is_hyphen(place) {
                    '-'
                } else if digit % 2 == 0 {
                    hex_digit((uid[digit / 2] / 16) as nat)
                } else {
                    hex_digit((uid[digit / 2] % 16) as nat)
                }
            },
    )
}

/// Is this an identifier that was drawn at random? Such a one says so in its version and variant.
pub open spec fn is_random(uid: Seq<u8>) -> bool {
    uid.len() == 16 && uid[6] / 16 == 4 && uid[8] / 64 == 2
}

/// `uuid::Uuid::new_v4`: an identifier drawn at random. All that is known is that it says so.
#[verifier::external_body]
pub(crate) fn draw_uid() -> (uid: [u8; 16])
    ensures
        is_random(uid@),
{
    uuid::Uuid::new_v4().into_bytes()
}

/// `uuid::Uuid`, shown by `Display`: the identifier as text.
#[verifier::external_body]
pub(crate) fn show_uid(uid: &[u8; 16]) -> (text: String)
    ensures
        text@ == uid_text(uid@),
{
    uuid::Uuid::from_bytes(*uid).to_string()
}

} // verus!
