use vstd::prelude::*;
use vstd::arithmetic::power::pow;

verus! {

/// The one error kind of the ledger: a message for people.
#[derive(Debug)]
pub struct BooksError {
    pub error: String,
}

impl BooksError {
    pub fn from_str(name: &str) -> (r: BooksError)
        ensures
            r.error@ == name@,
    {
        BooksError { error: name.to_string() }
    }

    /// An error whose message names an identifier between two pieces of text.
    pub fn with_id(before: &str, id: u128, after: &str) -> (r: BooksError)
        ensures
            r.error@ == before@ + id_text(id) + after@,
    {
        BooksError { error: id_message(before, id, after) }
    }
}

/// The lower-case hexadecimal digit for `v`, below 16.
pub open spec fn hex_digit(v: int) -> char {
    seq!['0', '1', '2', '3', '4', '5', '6', '7', '8', '9', 'a', 'b', 'c', 'd', 'e', 'f'][v]
}

/// Hexadecimal digit `k` of `id`, counted from the most significant of its 32 digits.
pub open spec fn nibble(id: u128, k: int) -> int {
    (id as int / pow(16, (31 - k) as nat)) % 16
}

/// Digits `from` to `to` (not included) of `id`.
pub open spec fn hex_run(id: u128, from: int, to: int) -> Seq<char> {
    Seq::new((to - from) as nat, |i: int| hex_digit(nibble(id, from + i)))
}

/// The hyphenated text form of an identifier: its 32 hexadecimal digits in groups of 8, 4, 4,
/// 4 and 12.
pub open spec fn id_text(id: u128) -> Seq<char> {
    hex_run(id, 0, 8) + seq!['-'] + hex_run(id, 8, 12) + seq!['-'] + hex_run(id, 12, 16) + seq![
        '-',
    ] + hex_run(id, 16, 20) + seq!['-'] + hex_run(id, 20, 32)
}

/// Relies on uuid's `Display` for `Uuid::from_u128`, which writes the identifier in lower-case
/// hyphenated form, between the two given pieces of text.
#[verifier::external_body]
pub(crate) fn id_message(before: &str, id: u128, after: &str) -> (r: String)
    ensures
        r@ == before@ + id_text(id) + after@,
{
    format!("{}{}{}", before, uuid::Uuid::from_u128(id), after)
}

} // verus!
