use vstd::prelude::*;
use num_bigint::BigInt;
use crate::bignum::{big_value, big_to_bytes_be, be_bytes_of};
use encoding_rs::WINDOWS_1251;

verus! {

/// What the fixed legacy code page makes of a byte string: the decoded
/// characters, or nothing when some byte sequence has no decoding. Like
/// the call it names, this covers byte-order-mark sniffing: input opening
/// with a UTF-8 or UTF-16 mark is read under that encoding instead, and
/// only such input can fail, since the code page itself maps every byte.
pub uninterp spec fn win1251_decode(bytes: Seq<u8>) -> Option<Seq<char>>;

/// Relies on encoding_rs::WINDOWS_1251.decode: the decoding, and whether it
/// hit malformed input, depend on the bytes alone; the tables are fixed.
/// This entry point sniffs byte-order marks, so input opening with one is
/// decoded under the marked encoding, not the code page.
#[verifier::external_body]
fn decode_win1251(bytes: &Vec<u8>) -> (r: (String, bool))
    ensures
        r.1 == win1251_decode(bytes@) is None,
        !r.1 ==> win1251_decode(bytes@) == Some(r.0@),
{
    let (cow, _, had_errors) = WINDOWS_1251.decode(bytes);
    (cow.into_owned(), had_errors)
}

/// What decoding one recovered block yields: the block rendered as its
/// shortest big-endian bytes, put through the legacy code page.
pub open spec fn decoded_block(m: int) -> Option<Seq<char>> {
    win1251_decode(be_bytes_of(m))
}

/// What decoding a whole sequence of recovered blocks yields: the fragments
/// in block order, or nothing as soon as any block fails. One bad block
/// invalidates the entire message.
pub open spec fn decoded_message(ms: Seq<int>) -> Option<Seq<char>>
    decreases ms.len(),
{
    if ms.len() == 0 {
        Some(Seq::empty())
    } else {
        match (decoded_message(ms.drop_last()), decoded_block(ms.last())) {
            (Some(head), Some(frag)) => Some(head + frag),
            _ => None,
        }
    }
}

/// If any single block fails to decode, the whole message decodes to nothing.
pub proof fn lemma_decoded_message_none(ms: Seq<int>, i: int)
    requires
        0 <= i < ms.len(),
        decoded_block(ms[i]) is None,
    ensures
        decoded_message(ms) is None,
    decreases ms.len(),
{
    if i == ms.len() - 1 {
    } else {
        lemma_decoded_message_none(ms.drop_last(), i);
    }
}

/// Render one recovered block as text under the legacy code page; `None`
/// signals that its bytes are invalid there, and the caller must fail the
/// whole recovery.
pub fn decode_block(m: &BigInt) -> (r: Option<String>)
    requires
        big_value(*m) >= 0,
    ensures
        r matches Some(s) ==> decoded_block(big_value(*m)) == Some(s@),
        r is Some <==> decoded_block(big_value(*m)) is Some,
{
    let bytes = big_to_bytes_be(m);
    let (text, had_errors) = decode_win1251(&bytes);
    if had_errors {
        None
    } else {
        Some(text)
    }
}

} // verus!
