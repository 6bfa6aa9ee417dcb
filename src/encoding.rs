//! The string encoding of keys: one alphabet character per digit.
use vstd::prelude::*;
use crate::alphabet::{
    char_of, digit_of, lemma_char_round_trip, lemma_digit_round_trip, valid_char, valid_digit,
    MIN_CHAR,
};
use crate::digits::wf_digits;

verus! {

/// A string that encodes a key: non-empty, alphabet characters only, not ending in `'0'`.
pub open spec fn valid_str(cs: Seq<char>) -> bool {
    cs.len() > 0 && (forall|i: int| 0 <= i < cs.len() ==> valid_char(#[trigger] cs[i])) && cs.last()
        != MIN_CHAR
}

/// The digits that the characters of `cs` stand for.
pub open spec fn decode(cs: Seq<char>) -> Seq<u8> {
    cs.map_values(|c: char| digit_of(c))
}

/// The characters that render the digits of `ds`.
pub open spec fn encode(ds: Seq<u8>) -> Seq<char> {
    ds.map_values(|d: u8| char_of(d))
}

/// Rendering the key that a valid string parses to gives that string back.
pub proof fn lemma_parse_render(cs: Seq<char>)
    requires
        valid_str(cs),
    ensures
        wf_digits(decode(cs)),
        encode(decode(cs)) == cs,
{
    let ds = decode(cs);
    assert forall|i: int| 0 <= i < cs.len() implies valid_digit(#[trigger] ds[i]) && char_of(ds[i])
        == cs[i] by {
        lemma_char_round_trip(cs[i]);
    }
    let l = cs.len() - 1;
    lemma_char_round_trip(cs[l]);
    vstd::utf8::char_u32_cast(cs[l], cs[l] as u32);
    assert(encode(ds) =~= cs);
}

/// Parsing the rendering of a key gives the key back.
pub proof fn lemma_render_parse(ds: Seq<u8>)
    requires
        wf_digits(ds),
    ensures
        valid_str(encode(ds)),
        decode(encode(ds)) == ds,
{
    let cs = encode(ds);
    assert forall|i: int| 0 <= i < ds.len() implies valid_char(#[trigger] cs[i]) && digit_of(cs[i])
        == ds[i] by {
        lemma_digit_round_trip(ds[i]);
    }
    lemma_digit_round_trip(ds[ds.len() - 1]);
    assert(decode(cs) =~= ds);
}

} // verus!
