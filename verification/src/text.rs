//! Text from octets.
use vstd::prelude::*;
use vstd::utf8::{decode_utf8, encode_utf8, valid_utf8};

verus! {

/// `String::from_utf8`: a string exactly when the octets are valid UTF-8, holding their
/// characters.
#[verifier::external_body]
pub(crate) fn string_from_utf8(b: Vec<u8>) -> (r: Option<String>)
    ensures
        r is Some <==> valid_utf8(b@),
        r matches Some(s) ==> s@ == decode_utf8(b@),
{
    String::from_utf8(b).ok()
}

/// ASCII octets as characters.
pub open spec fn ascii_chars(b: Seq<u8>) -> Seq<char> {
    Seq::new(b.len(), |i: int| b[i] as char)
}

pub open spec fn all_ascii(b: Seq<u8>) -> bool {
    forall|i: int| 0 <= i < b.len() ==> b[i] < 128
}

proof fn lemma_ascii_encode(b: Seq<u8>)
    requires
        all_ascii(b),
    ensures
        encode_utf8(ascii_chars(b)) == b,
    decreases b.len(),
{
    if b.len() > 0 {
        let c = b[0];
        assert(ascii_chars(b).drop_first() =~= ascii_chars(b.drop_first()));
        lemma_ascii_encode(b.drop_first());
        assert((c as char) as u32 == c as u32);
        let v = c as u32;
        assert(v < 128);
        assert((v & 0x7F) as u8 == c) by (bit_vector)
            requires
                v < 128,
                v == c as u32,
        ;
        assert(vstd::utf8::encode_scalar(v) =~= seq![c]);
        assert(b =~= seq![c] + b.drop_first());
    }
}

/// ASCII octets as a string.
pub fn ascii_string(b: Vec<u8>) -> (r: String)
    requires
        all_ascii(b@),
    ensures
        r@ == ascii_chars(b@),
{
    proof {
        lemma_ascii_encode(b@);
        vstd::utf8::encode_utf8_valid_utf8(ascii_chars(b@));
        vstd::utf8::encode_utf8_decode_utf8(ascii_chars(b@));
    }
    match string_from_utf8(b) {
        Some(s) => s,
        None => {
            assert(false);
            String::new()
        },
    }
}

} // verus!
