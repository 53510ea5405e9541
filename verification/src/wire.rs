//! Byte-level primitives of the log's wire format.
//!
//! Every key and value that travels over the replication topic is built from
//! four primitives: a fixed-width little-endian `u64`, a sign-and-magnitude
//! `i64`, a length-prefixed byte string, and a length-prefixed UTF-8 string.
//! Composite values are sequences of length-prefixed chunks.  Each primitive
//! has a specification-level encoder and decoder, lemmas showing that decoding
//! inverts encoding, and executable functions proved against those
//! specifications.

use vstd::prelude::*;
use vstd::bytes::{
    spec_u64_from_le_bytes, spec_u64_to_le_bytes, lemma_auto_spec_u64_to_from_le_bytes,
    u64_from_le_bytes, u64_to_le_bytes,
};
use vstd::slice::{slice_subrange, slice_index_get, slice_to_vec};
use vstd::utf8::{
    decode_utf8, encode_utf8, valid_utf8, encode_utf8_valid_utf8, encode_utf8_decode_utf8,
};

verus! {

// ---------------------------------------------------------------------------
// u64, fixed width, little endian
// ---------------------------------------------------------------------------

/// The eight little-endian bytes of `n`.
pub open spec fn senc_u64(n: u64) -> Seq<u8> {
    spec_u64_to_le_bytes(n)
}

/// Reads a `u64` at `pos`; yields the value and the position after it.
pub open spec fn sdec_u64(s: Seq<u8>, pos: int) -> Option<(u64, int)> {
    if 0 <= pos && pos + 8 <= s.len() {
        Some((spec_u64_from_le_bytes(s.subrange(pos, pos + 8)), pos + 8))
    } else {
        None
    }
}

pub proof fn lemma_senc_u64_len(n: u64)
    ensures
        senc_u64(n).len() == 8,
{
    lemma_auto_spec_u64_to_from_le_bytes();
}

/// Decoding reads back exactly the encoded value.
pub proof fn lemma_sdec_u64_at(s: Seq<u8>, pos: int, n: u64)
    requires
        0 <= pos,
        pos + 8 <= s.len(),
        s.subrange(pos, pos + 8) == senc_u64(n),
    ensures
        sdec_u64(s, pos) == Some((n, pos + 8)),
{
    lemma_auto_spec_u64_to_from_le_bytes();
}

/// Appends the slice `b` to `out`.
pub fn push_bytes(out: &mut Vec<u8>, b: &[u8])
    ensures
        final(out)@ == old(out)@ + b@,
{
    let n = b.len();
    let mut i: usize = 0;
    while i < n
        invariant
            i <= n,
            n == b@.len(),
            out@ == old(out)@ + b@.take(i as int),
        decreases n - i,
    {
        let x = *slice_index_get(b, i);
        out.push(x);
        i = i + 1;
        proof {
            assert(old(out)@ + b@.take(i as int) =~= (old(out)@ + b@.take(i - 1)).push(
                b@[i - 1],
            ));
        }
    }
    proof {
        assert(b@.take(n as int) =~= b@);
    }
}

/// Compares two byte slices for equality.
pub fn bytes_eq(a: &[u8], b: &[u8]) -> (r: bool)
    ensures
        r == (a@ == b@),
{
    if a.len() != b.len() {
        proof {
            assert(a@ != b@);
        }
        return false;
    }
    let n = a.len();
    let mut i: usize = 0;
    while i < n
        invariant
            i <= n,
            n == a@.len(),
            n == b@.len(),
            forall|j: int| 0 <= j < i ==> a@[j] == b@[j],
        decreases n - i,
    {
        if *slice_index_get(a, i) != *slice_index_get(b, i) {
            proof {
                assert(a@[i as int] != b@[i as int]);
            }
            return false;
        }
        i = i + 1;
    }
    proof {
        assert(a@ =~= b@);
    }
    true
}

/// Appends the encoding of `n` to `out`.
pub fn enc_u64(out: &mut Vec<u8>, n: u64)
    ensures
        final(out)@ == old(out)@ + senc_u64(n),
{
    let bs = u64_to_le_bytes(n);
    push_bytes(out, bs.as_slice());
}

/// Reads a `u64` at `pos`, as `sdec_u64` describes.
pub fn read_u64(buf: &[u8], pos: usize) -> (r: Option<(u64, usize)>)
    ensures
        match r {
            Some((n, p)) => sdec_u64(buf@, pos as int) == Some((n, p as int)),
            None => sdec_u64(buf@, pos as int) is None,
        },
{
    if pos <= buf.len() && buf.len() - pos >= 8 {
        let chunk = slice_subrange(buf, pos, pos + 8);
        let n = u64_from_le_bytes(chunk);
        Some((n, pos + 8))
    } else {
        None
    }
}

// ---------------------------------------------------------------------------
// i64, sign and magnitude
// ---------------------------------------------------------------------------

/// A sign tag followed by the magnitude: `n` for `n >= 0`, `-(n + 1)` below.
pub open spec fn senc_i64(n: i64) -> Seq<u8> {
    if n >= 0 {
        seq![0u8] + senc_u64(n as u64)
    } else {
        seq![1u8] + senc_u64((-(n + 1)) as u64)
    }
}

/// Reads an `i64` at `pos`; yields the value and the position after it.
pub open spec fn sdec_i64(s: Seq<u8>, pos: int) -> Option<(i64, int)> {
    if 0 <= pos && pos + 1 <= s.len() {
        match sdec_u64(s, pos + 1) {
            Some((m, p)) => if s[pos] == 0u8 && m <= i64::MAX as u64 {
                Some((m as i64, p))
            } else if s[pos] == 1u8 && m <= i64::MAX as u64 {
                Some(((-(m as int) - 1) as i64, p))
            } else {
                None
            },
            None => None,
        }
    } else {
        None
    }
}

pub proof fn lemma_senc_i64_len(n: i64)
    ensures
        senc_i64(n).len() == 9,
{
    lemma_auto_spec_u64_to_from_le_bytes();
}

/// Decoding reads back exactly the encoded value.
pub proof fn lemma_sdec_i64_at(s: Seq<u8>, pos: int, n: i64)
    requires
        0 <= pos,
        pos + 9 <= s.len(),
        s.subrange(pos, pos + 9) == senc_i64(n),
    ensures
        sdec_i64(s, pos) == Some((n, pos + 9)),
{
    lemma_auto_spec_u64_to_from_le_bytes();
    let m: u64 = if n >= 0 {
        n as u64
    } else {
        (-(n + 1)) as u64
    };
    assert(s.subrange(pos, pos + 9)[0] == s[pos]);
    assert(s.subrange(pos + 1, pos + 9) =~= s.subrange(pos, pos + 9).subrange(1, 9));
    assert(s.subrange(pos + 1, pos + 9) == senc_u64(m));
    lemma_sdec_u64_at(s, pos + 1, m);
}

/// Appends the encoding of `n` to `out`.
pub fn enc_i64(out: &mut Vec<u8>, n: i64)
    ensures
        final(out)@ == old(out)@ + senc_i64(n),
{
    if n >= 0 {
        out.push(0u8);
        enc_u64(out, n as u64);
    } else {
        let m: i64 = -(n + 1);
        out.push(1u8);
        enc_u64(out, m as u64);
    }
    proof {
        assert(final(out)@ =~= old(out)@ + senc_i64(n));
    }
}

/// Reads an `i64` at `pos`, as `sdec_i64` describes.
pub fn read_i64(buf: &[u8], pos: usize) -> (r: Option<(i64, usize)>)
    ensures
        match r {
            Some((n, p)) => sdec_i64(buf@, pos as int) == Some((n, p as int)),
            None => sdec_i64(buf@, pos as int) is None,
        },
{
    if pos < buf.len() {
        let tag = *slice_index_get(buf, pos);
        match read_u64(buf, pos + 1) {
            Some((m, p)) => {
                if tag == 0u8 && m <= i64::MAX as u64 {
                    Some((m as i64, p))
                } else if tag == 1u8 && m <= i64::MAX as u64 {
                    let v: i64 = -(m as i64) - 1;
                    Some((v, p))
                } else {
                    None
                }
            },
            None => None,
        }
    } else {
        None
    }
}

// ---------------------------------------------------------------------------
// byte strings, length prefixed
// ---------------------------------------------------------------------------

/// The length of `b` as a `u64`, then `b` itself.
pub open spec fn senc_bytes(b: Seq<u8>) -> Seq<u8> {
    senc_u64(b.len() as u64) + b
}

/// Reads a byte string at `pos`; yields it and the position after it.
pub open spec fn sdec_bytes(s: Seq<u8>, pos: int) -> Option<(Seq<u8>, int)> {
    match sdec_u64(s, pos) {
        Some((m, p)) => if p + m <= s.len() {
            Some((s.subrange(p, p + m), p + m))
        } else {
            None
        },
        None => None,
    }
}

pub proof fn lemma_senc_bytes_len(b: Seq<u8>)
    ensures
        senc_bytes(b).len() == 8 + b.len(),
{
    lemma_auto_spec_u64_to_from_le_bytes();
}

/// Decoding reads back exactly the encoded byte string.
pub proof fn lemma_sdec_bytes_at(s: Seq<u8>, pos: int, b: Seq<u8>)
    requires
        0 <= pos,
        b.len() <= u64::MAX,
        pos + 8 + b.len() <= s.len(),
        s.subrange(pos, pos + 8 + b.len()) == senc_bytes(b),
    ensures
        sdec_bytes(s, pos) == Some((b, pos + 8 + b.len())),
{
    lemma_auto_spec_u64_to_from_le_bytes();
    let n: u64 = b.len() as u64;
    assert(s.subrange(pos, pos + 8) =~= s.subrange(pos, pos + 8 + b.len()).subrange(0, 8));
    assert(s.subrange(pos, pos + 8) == senc_u64(n));
    lemma_sdec_u64_at(s, pos, n);
    assert(s.subrange(pos + 8, pos + 8 + b.len()) =~= s.subrange(
        pos,
        pos + 8 + b.len(),
    ).subrange(8, 8 + b.len() as int));
    assert(s.subrange(pos + 8, pos + 8 + b.len()) =~= b);
}

/// Appends the encoding of `b` to `out`.
pub fn enc_bytes(out: &mut Vec<u8>, b: &[u8])
    ensures
        final(out)@ == old(out)@ + senc_bytes(b@),
{
    enc_u64(out, b.len() as u64);
    push_bytes(out, b);
    proof {
        assert(final(out)@ =~= old(out)@ + senc_bytes(b@));
    }
}

/// Reads a byte string at `pos`, as `sdec_bytes` describes.
pub fn read_bytes(buf: &[u8], pos: usize) -> (r: Option<(Vec<u8>, usize)>)
    ensures
        match r {
            Some((b, p)) => sdec_bytes(buf@, pos as int) == Some((b@, p as int)),
            None => sdec_bytes(buf@, pos as int) is None,
        },
{
    match read_u64(buf, pos) {
        Some((m, p)) => {
            if p <= buf.len() && m <= (buf.len() - p) as u64 {
                let q = p + (m as usize);
                let chunk = slice_subrange(buf, p, q);
                Some((slice_to_vec(chunk), q))
            } else {
                None
            }
        },
        None => None,
    }
}

// ---------------------------------------------------------------------------
// UTF-8 strings
// ---------------------------------------------------------------------------

/// The UTF-8 bytes of the characters, as a length-prefixed byte string.
pub open spec fn senc_str(cs: Seq<char>) -> Seq<u8> {
    senc_bytes(encode_utf8(cs))
}

/// Reads a string at `pos`; yields its characters and the position after it.
pub open spec fn sdec_str(s: Seq<u8>, pos: int) -> Option<(Seq<char>, int)> {
    match sdec_bytes(s, pos) {
        Some((b, p)) => if valid_utf8(b) {
            Some((decode_utf8(b), p))
        } else {
            None
        },
        None => None,
    }
}

/// Decoding reads back exactly the encoded characters.
pub proof fn lemma_sdec_str_at(s: Seq<u8>, pos: int, cs: Seq<char>)
    requires
        0 <= pos,
        encode_utf8(cs).len() <= u64::MAX,
        pos + 8 + encode_utf8(cs).len() <= s.len(),
        s.subrange(pos, pos + 8 + encode_utf8(cs).len()) == senc_str(cs),
    ensures
        sdec_str(s, pos) == Some((cs, pos + 8 + encode_utf8(cs).len())),
{
    lemma_sdec_bytes_at(s, pos, encode_utf8(cs));
    encode_utf8_valid_utf8(cs);
    encode_utf8_decode_utf8(cs);
}

/// Relies on `String::from_utf8`: it returns `Ok` exactly when the bytes are
/// valid UTF-8, and the returned string decodes those bytes.
#[verifier::external_body]
pub(crate) fn bytes_to_string(v: Vec<u8>) -> (r: Option<String>)
    ensures
        r is Some <==> valid_utf8(v@),
        r matches Some(s) ==> s@ == decode_utf8(v@),
{
    String::from_utf8(v).ok()
}

/// Appends the encoding of `s` to `out`.
pub fn enc_str(out: &mut Vec<u8>, s: &str)
    ensures
        final(out)@ == old(out)@ + senc_str(s@),
{
    enc_bytes(out, s.as_bytes());
}

/// Reads a string at `pos`, as `sdec_str` describes.
pub fn read_str(buf: &[u8], pos: usize) -> (r: Option<(String, usize)>)
    ensures
        match r {
            Some((t, p)) => sdec_str(buf@, pos as int) == Some((t@, p as int)),
            None => sdec_str(buf@, pos as int) is None,
        },
{
    match read_bytes(buf, pos) {
        Some((b, p)) => match bytes_to_string(b) {
            Some(t) => Some((t, p)),
            None => None,
        },
        None => None,
    }
}

// ---------------------------------------------------------------------------
// chunk lists: a count, then length-prefixed chunks
// ---------------------------------------------------------------------------

/// The chunks one after another, each length prefixed.
pub open spec fn senc_chunks_body(chunks: Seq<Seq<u8>>) -> Seq<u8>
    decreases chunks.len(),
{
    if chunks.len() == 0 {
        Seq::empty()
    } else {
        senc_bytes(chunks[0]) + senc_chunks_body(chunks.drop_first())
    }
}

/// The number of chunks as a `u64`, then the chunks themselves.
pub open spec fn senc_chunks(chunks: Seq<Seq<u8>>) -> Seq<u8> {
    senc_u64(chunks.len() as u64) + senc_chunks_body(chunks)
}

/// Reads `n` length-prefixed chunks starting at `pos`.
pub open spec fn sdec_chunks_body(s: Seq<u8>, pos: int, n: nat) -> Option<(Seq<Seq<u8>>, int)>
    decreases n,
{
    if n == 0 {
        Some((Seq::empty(), pos))
    } else {
        match sdec_bytes(s, pos) {
            Some((b, p)) => match sdec_chunks_body(s, p, (n - 1) as nat) {
                Some((rest, q)) => Some((seq![b] + rest, q)),
                None => None,
            },
            None => None,
        }
    }
}

/// Reads a chunk list at `pos`; yields the chunks and the position after them.
pub open spec fn sdec_chunks(s: Seq<u8>, pos: int) -> Option<(Seq<Seq<u8>>, int)> {
    match sdec_u64(s, pos) {
        Some((n, p)) => sdec_chunks_body(s, p, n as nat),
        None => None,
    }
}

/// Appending one chunk extends the body encoding by that chunk.
pub proof fn lemma_senc_chunks_body_push(chunks: Seq<Seq<u8>>, c: Seq<u8>)
    ensures
        senc_chunks_body(chunks.push(c)) == senc_chunks_body(chunks) + senc_bytes(c),
    decreases chunks.len(),
{
    if chunks.len() == 0 {
        let pc = chunks.push(c);
        assert(pc.drop_first() =~= Seq::<Seq<u8>>::empty());
        assert(pc[0] == c);
        assert(senc_chunks_body(pc.drop_first()) == Seq::<u8>::empty());
        assert(senc_chunks_body(pc) == senc_bytes(c) + senc_chunks_body(pc.drop_first()));
        assert(senc_bytes(c) + Seq::<u8>::empty() =~= senc_bytes(c));
        assert(senc_chunks_body(chunks) + senc_bytes(c) =~= senc_bytes(c));
    } else {
        lemma_senc_chunks_body_push(chunks.drop_first(), c);
        assert(chunks.push(c).drop_first() =~= chunks.drop_first().push(c));
        assert(chunks.push(c)[0] == chunks[0]);
        assert(senc_chunks_body(chunks.push(c)) =~= senc_chunks_body(chunks) + senc_bytes(c));
    }
}

/// Every chunk fits the length prefix.
pub open spec fn chunks_fit(chunks: Seq<Seq<u8>>) -> bool {
    forall|i: int| 0 <= i < chunks.len() ==> #[trigger] chunks[i].len() <= u64::MAX
}

/// Decoding reads back exactly the encoded chunks.
pub proof fn lemma_sdec_chunks_body_at(s: Seq<u8>, pos: int, chunks: Seq<Seq<u8>>)
    requires
        0 <= pos,
        chunks_fit(chunks),
        pos + senc_chunks_body(chunks).len() <= s.len(),
        s.subrange(pos, pos + senc_chunks_body(chunks).len()) == senc_chunks_body(chunks),
    ensures
        sdec_chunks_body(s, pos, chunks.len() as nat) == Some(
            (chunks, pos + senc_chunks_body(chunks).len()),
        ),
    decreases chunks.len(),
{
    if chunks.len() == 0 {
        assert(sdec_chunks_body(s, pos, 0) == Some((Seq::<Seq<u8>>::empty(), pos)));
        assert(chunks =~= Seq::<Seq<u8>>::empty());
    } else {
        let c = chunks[0];
        let rest = chunks.drop_first();
        lemma_senc_bytes_len(c);
        let l0: int = 8 + c.len() as int;
        let total: int = senc_chunks_body(chunks).len() as int;
        assert(senc_chunks_body(chunks) == senc_bytes(c) + senc_chunks_body(rest));
        assert(s.subrange(pos, pos + l0) =~= s.subrange(pos, pos + total).subrange(0, l0));
        assert(s.subrange(pos, pos + l0) == senc_bytes(c));
        lemma_sdec_bytes_at(s, pos, c);
        assert(s.subrange(pos + l0, pos + total) =~= s.subrange(pos, pos + total).subrange(
            l0,
            total,
        ));
        assert(s.subrange(pos + l0, pos + total) == senc_chunks_body(rest));
        lemma_sdec_chunks_body_at(s, pos + l0, rest);
        assert(seq![c] + rest =~= chunks);
    }
}

/// Decoding reads back exactly the encoded chunk list.
pub proof fn lemma_sdec_chunks_at(s: Seq<u8>, pos: int, chunks: Seq<Seq<u8>>)
    requires
        0 <= pos,
        chunks.len() <= u64::MAX,
        chunks_fit(chunks),
        pos + senc_chunks(chunks).len() <= s.len(),
        s.subrange(pos, pos + senc_chunks(chunks).len()) == senc_chunks(chunks),
    ensures
        sdec_chunks(s, pos) == Some((chunks, pos + senc_chunks(chunks).len())),
{
    lemma_auto_spec_u64_to_from_le_bytes();
    let n: u64 = chunks.len() as u64;
    let total: int = senc_chunks(chunks).len() as int;
    assert(s.subrange(pos, pos + 8) =~= s.subrange(pos, pos + total).subrange(0, 8));
    assert(s.subrange(pos, pos + 8) == senc_u64(n));
    lemma_sdec_u64_at(s, pos, n);
    assert(s.subrange(pos + 8, pos + total) =~= s.subrange(pos, pos + total).subrange(8, total));
    assert(s.subrange(pos + 8, pos + total) == senc_chunks_body(chunks));
    lemma_sdec_chunks_body_at(s, pos + 8, chunks);
}

} // verus!

