//! Identifiers of jobs and tasks.

use vstd::prelude::*;

use uuid::Uuid;
#[allow(unused_imports)]
use vstd::arithmetic::power::pow;

verus! {

/// `Uuid::new_v4`, as a number: a random identifier. Of its value only the
/// version, in the four bits from the 76th, and the variant, in the two bits
/// from the 62nd, are known.
#[verifier::external_body]
pub(crate) fn fresh_id() -> (id: u128)
    ensures
        id as int / 0x1000_0000_0000_0000_0000 % 16 == 4,
        id as int / 0x4000_0000_0000_0000 % 4 == 2,
{
    Uuid::new_v4().as_u128()
}

/// A hexadecimal digit in lower case.
pub open spec fn hex_char(d: int) -> char {
    (if d < 10 {
        '0' as int + d
    } else {
        'a' as int + d - 10
    }) as char
}

/// How many hyphens stand before position `i`.
pub open spec fn hyphens_before(i: int) -> int {
    if i <= 8 {
        0
    } else if i <= 13 {
        1
    } else if i <= 18 {
        2
    } else if i <= 23 {
        3
    } else {
        4
    }
}

/// The hyphenated text of an identifier: its hexadecimal digits, the highest
/// first, in groups of 8, 4, 4, 4 and 12.
pub open spec fn id_text(id: u128) -> Seq<char> {
    Seq::new(
        36,
        |i: int|
            if i == 8 || i == 13 || i == 18 || i == 23 {
                '-'
            } else {
                hex_char(
                    id as int / pow(16, (31 - (i - hyphens_before(i))) as nat) % 16,
                )
            },
    )
}

/// `Uuid::to_string`: the hyphenated text of an identifier.
#[verifier::external_body]
pub(crate) fn text_of_id(id: u128) -> (s: String)
    ensures
        s@ == id_text(id),
{
    Uuid::from_u128(id).to_string()
}

/// Random identifiers.
pub fn fresh_ids(n: usize) -> (ids: Vec<u128>)
    ensures
        ids@.len() == n,
{
    let mut ids: Vec<u128> = Vec::new();
    while ids.len() < n
        invariant
            ids@.len() <= n,
        decreases n - ids@.len(),
    {
        ids.push(fresh_id());
    }
    ids
}

} // verus!
