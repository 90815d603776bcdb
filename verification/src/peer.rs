//! Peers, and how their ids look on the wire.

use vstd::arithmetic::power::pow;
use vstd::prelude::*;

use crate::text;

verus! {

/// A peer of the room. Peers are ordered by the number that their id is.
pub type PeerId = u128;

/// The lower-case hexadecimal digit for a number below sixteen.
pub open spec fn hex_digit(d: nat) -> char {
    if d < 10 {
        (48 + d) as char
    } else {
        (87 + d) as char
    }
}

/// The hexadecimal digit of `n` that stands `k` places from the right.
pub open spec fn hex_place(n: nat, k: nat) -> nat {
    (n / pow(16, k) as nat) % 16
}

/// How many of the four hyphens stand before place `i` of an id's text.
pub open spec fn hyphens_before(i: int) -> int {
    if i <= 8 {
        0
    } else if i <= 13 {
        1
    } else if i <= 18 {
        2
    } else if i <= 23 {
        3
    } else {
        4
    }
}

/// An id's text: its 32 hexadecimal digits in groups of 8, 4, 4, 4 and 12.
pub open spec fn hyphenated(peer: PeerId) -> Seq<char> {
    Seq::new(
        36,
        |i: int|
            if i == 8 || i == 13 || i == 18 || i == 23 {
                '-'
            } else {
                hex_digit(hex_place(peer as nat, (31 - (i - hyphens_before(i))) as nat))
            },
    )
}

/// What `uuid::Uuid::parse_str` makes of a text, as the number that the id is.
pub uninterp spec fn uuid_reading(text: Seq<char>) -> Option<u128>;

/// `uuid::Uuid::from_u128` followed by its `Display`: the 32 lower-case
/// hexadecimal digits of the number, hyphenated.
#[verifier::external_body]
pub(crate) fn peer_text(peer: PeerId) -> (out: String)
    ensures
        out@ == hyphenated(peer),
{
    uuid::Uuid::from_u128(peer).to_string()
}

/// `uuid::Uuid::parse_str`: the number that the id is, or nothing where the
/// text is not an id. Of the text that an id is displayed as it makes that id
/// again.
#[verifier::external_body]
pub(crate) fn parse_peer(text: &str) -> (out: Option<PeerId>)
    ensures
        out == uuid_reading(text@),
        forall|peer: PeerId| text@ == hyphenated(peer) ==> out == Some(peer),
{
    uuid::Uuid::parse_str(text).ok().map(|id| id.as_u128())
}

/// An id's text holds hexadecimal digits and hyphens and nothing else.
pub proof fn lemma_hyphenated(peer: PeerId)
    ensures
        hyphenated(peer).len() == 36,
        forall|i: int| 0 <= i < 36 ==> {
            let n = #[trigger] hyphenated(peer)[i] as u32;
            n == 45 || 48 <= n <= 57 || 97 <= n <= 102
        },
        text::free_of(hyphenated(peer), ','),
        text::free_of(hyphenated(peer), '@'),
        text::free_of(hyphenated(peer), ':'),
        text::free_of(hyphenated(peer), '|'),
{
    assert forall|i: int| 0 <= i < 36 implies {
        let n = #[trigger] hyphenated(peer)[i] as u32;
        n == 45 || 48 <= n <= 57 || 97 <= n <= 102
    } by {
        let d = hex_place(peer as nat, (31 - (i - hyphens_before(i))) as nat);
        assert(0 <= d < 16);
    }
}

/// The digits of hexadecimal are the ten of decimal and the first six letters.
pub proof fn the_sixteen_digits(d: nat)
    requires
        d < 16,
    ensures
        hex_digit(d) == "0123456789abcdef"@[d as int],
{
    reveal_strlit("0123456789abcdef");
}

} // verus!
