//! The text of a pair of token ids as it stands in a stored model: a JSON
//! array of two numbers. The text is written here and read by `serde_json`.
//!
//! Verus does not look into that crate. What this file states of its reading
//! is taken on trust.

use crate::word::Pair;
use vstd::prelude::*;
use vstd::string::*;

verus! {

/// An optional pair.
pub type MaybePair = Option<Pair>;

/// The ten decimal digits.
pub open spec fn digits() -> Seq<char> {
    seq!['0', '1', '2', '3', '4', '5', '6', '7', '8', '9']
}

/// A number in decimal, without leading zeros.
pub open spec fn decimal(n: nat) -> Seq<char>
    decreases n,
{
    if n < 10 {
        seq![digits()[n as int]]
    } else {
        decimal(n / 10).push(digits()[(n % 10) as int])
    }
}

/// The text of a pair: `[a,b]`, both numbers in decimal.
pub open spec fn pair_text(pair: Pair) -> Seq<char> {
    seq!['['] + decimal(pair.0 as nat) + seq![','] + decimal(pair.1 as nat) + seq![']']
}

/// The pair that `serde_json` reads from a text, if it reads one.
pub uninterp spec fn pair_of_text(text: Seq<char>) -> MaybePair;

/// The decimal digit of a number below ten.
fn digit(k: u32) -> (c: char)
    requires
        k < 10,
    ensures
        c == digits()[k as int],
{
    if k == 0 {
        '0'
    } else if k == 1 {
        '1'
    } else if k == 2 {
        '2'
    } else if k == 3 {
        '3'
    } else if k == 4 {
        '4'
    } else if k == 5 {
        '5'
    } else if k == 6 {
        '6'
    } else if k == 7 {
        '7'
    } else if k == 8 {
        '8'
    } else {
        '9'
    }
}

/// Writes a number in decimal behind a text.
fn push_decimal(s: &mut String, n: u32)
    ensures
        final(s)@ == old(s)@ + decimal(n as nat),
    decreases n,
{
    if n < 10 {
        s.push(digit(n));
        assert(s@ =~= old(s)@ + decimal(n as nat));
    } else {
        push_decimal(s, n / 10);
        s.push(digit(n % 10));
        assert(s@ =~= old(s)@ + decimal(n as nat));
    }
}

/// The text of a pair: the JSON array of the two numbers, in decimal, with
/// nothing between the brackets but the numbers and one comma.
pub fn pair_to_json(pair: Pair) -> (s: String)
    ensures
        s@ == pair_text(pair),
{
    let mut s = String::new();
    s.push('[');
    push_decimal(&mut s, pair.0);
    s.push(',');
    push_decimal(&mut s, pair.1);
    s.push(']');
    assert(s@ =~= pair_text(pair));
    s
}

/// `serde_json::from_str` for a pair of `u32`: the pair that the text
/// stands for, if it is the JSON text of one. The same text gives the same
/// result, and the text of a pair is read as that pair.
#[verifier::external_body]
pub(crate) fn json_to_pair(text: &str) -> (r: MaybePair)
    ensures
        r == pair_of_text(text@),
        forall|pair: Pair| text@ == pair_text(pair) ==> r == Some(pair),
{
    match serde_json::from_str::<Pair>(text) {
        Ok(pair) => Some(pair),
        Err(_) => None,
    }
}

} // verus!
