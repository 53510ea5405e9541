//! The wrapped-key codec.
//!
//! The physical key of every log record is the encoding of a pair: the name
//! of the cache the record belongs to, and the user key already turned into
//! bytes.  The encoding is a function of that pair, so equal logical keys
//! give byte-equal physical keys, and the round-trip and isolation lemmas
//! below show that it loses nothing and never lets two cache names collide.

use vstd::prelude::*;
use vstd::utf8::encode_utf8;
use crate::wire::{
    senc_str, senc_bytes, sdec_str, sdec_bytes, enc_str, enc_bytes, read_str, read_bytes,
    lemma_sdec_str_at, lemma_sdec_bytes_at, lemma_senc_bytes_len,
};

verus! {

/// The physical key of a log record: a cache name and the wire bytes of the
/// user key it wraps.
pub struct WrappedKey {
    name: String,
    key: Vec<u8>,
}

impl WrappedKey {
    /// The cache name, as characters.
    pub closed spec fn name_spec(&self) -> Seq<char> {
        self.name@
    }

    /// The wrapped user key, as bytes.
    pub closed spec fn key_spec(&self) -> Seq<u8> {
        self.key@
    }

    pub fn new(name: String, key: Vec<u8>) -> (r: WrappedKey)
        ensures
            r.name_spec() == name@,
            r.key_spec() == key@,
    {
        WrappedKey { name, key }
    }

    /// The cache this key belongs to.
    pub fn cache_name(&self) -> (r: &str)
        ensures
            r@ == self.name_spec(),
    {
        self.name.as_str()
    }

    /// The user key, still in its wire encoding.
    pub fn serialized_key(&self) -> (r: &[u8])
        ensures
            r@ == self.key_spec(),
    {
        self.key.as_slice()
    }
}

/// The on-log encoding of a `(cache_name, user_key_bytes)` pair.
pub open spec fn senc_wrapped(name: Seq<char>, key: Seq<u8>) -> Seq<u8> {
    senc_str(name) + senc_bytes(key)
}

/// Decodes a physical key; `None` unless the whole input is one wrapped key.
pub open spec fn sdec_wrapped(s: Seq<u8>) -> Option<(Seq<char>, Seq<u8>)> {
    match sdec_str(s, 0) {
        Some((name, p)) => match sdec_bytes(s, p) {
            Some((key, q)) => if q == s.len() {
                Some((name, key))
            } else {
                None
            },
            None => None,
        },
        None => None,
    }
}

/// Builds the physical key for `key` under the cache called `name`.
pub fn encode_wrapped_key(name: &str, key: &[u8]) -> (r: Vec<u8>)
    ensures
        r@ == senc_wrapped(name@, key@),
{
    let mut out: Vec<u8> = Vec::new();
    enc_str(&mut out, name);
    enc_bytes(&mut out, key);
    proof {
        assert(out@ =~= senc_wrapped(name@, key@));
    }
    out
}

/// Splits a physical key back into its cache name and user-key bytes.
pub fn decode_wrapped_key(buf: &[u8]) -> (r: Option<WrappedKey>)
    ensures
        match sdec_wrapped(buf@) {
            Some((name, key)) => r matches Some(w) && w.name_spec() == name && w.key_spec()
                == key,
            None => r is None,
        },
{
    match read_str(buf, 0) {
        Some((name, p)) => match read_bytes(buf, p) {
            Some((key, q)) => if q == buf.len() {
                Some(WrappedKey::new(name, key))
            } else {
                None
            },
            None => None,
        },
        None => None,
    }
}

/// Key-encoding round trip: decoding an encoded physical key yields exactly
/// the cache name and the user-key bytes that went in.  Since the encoder is
/// a function of the pair, equal inputs always give byte-equal physical keys.
pub proof fn lemma_wrapped_round_trip(name: Seq<char>, key: Seq<u8>)
    requires
        encode_utf8(name).len() <= u64::MAX,
        key.len() <= u64::MAX,
    ensures
        sdec_wrapped(senc_wrapped(name, key)) == Some((name, key)),
{
    let s = senc_wrapped(name, key);
    lemma_senc_bytes_len(encode_utf8(name));
    lemma_senc_bytes_len(key);
    let l1: int = 8 + encode_utf8(name).len() as int;
    assert(s.subrange(0, l1) =~= senc_str(name));
    lemma_sdec_str_at(s, 0, name);
    assert(s.subrange(l1, s.len() as int) =~= senc_bytes(key));
    lemma_sdec_bytes_at(s, l1, key);
}

/// Isolation by cache name: under distinct cache names, the same user key
/// gets distinct physical keys.
pub proof fn lemma_distinct_names_distinct_keys(a: Seq<char>, b: Seq<char>, key: Seq<u8>)
    requires
        a != b,
        encode_utf8(a).len() <= u64::MAX,
        encode_utf8(b).len() <= u64::MAX,
        key.len() <= u64::MAX,
    ensures
        senc_wrapped(a, key) != senc_wrapped(b, key),
{
    if senc_wrapped(a, key) == senc_wrapped(b, key) {
        lemma_wrapped_round_trip(a, key);
        lemma_wrapped_round_trip(b, key);
        assert(false);
    }
}

} // verus!
