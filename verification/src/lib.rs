//! A BitTorrent announce library: a bencode codec, a metainfo model, the
//! info-hash derivation, announce-request construction, and decoding of the
//! tracker's reply with its compact peer list.

pub mod bencode;
pub mod torrent;
pub mod tracker;

use vstd::prelude::*;
use vstd::string::StringSliceAdditionalSpecFns;

verus! {

/// The bytes of an ASCII character sequence, one byte per character.
pub open spec fn ascii_bytes(s: Seq<char>) -> Seq<u8> {
    Seq::new(s.len(), |i: int| s[i] as u8)
}

/// The bytes of an ASCII string slice.
pub fn str_bytes(s: &str) -> (r: Vec<u8>)
    requires
        vstd::utf8::is_ascii_chars(s@),
    ensures
        r@ == ascii_bytes(s@),
{
    proof {
        vstd::utf8::is_ascii_chars_encode_utf8(s@);
        assert(s.spec_bytes() =~= ascii_bytes(s@));
    }
    vstd::slice::slice_to_vec(s.as_bytes())
}

} // verus!
