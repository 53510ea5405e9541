//! Typed values over the wire format.
//!
//! Everything a replicated map stores — keys and values alike — implements
//! [`Wire`]: an encoding of the value's deep view into bytes, a decoding of a
//! whole buffer back, and a proof that decoding inverts encoding.  Composite
//! values are encoded as chunk lists so that one generic implementation
//! serves every element type.

use vstd::prelude::*;
use vstd::utf8::encode_utf8;
use vstd::slice::slice_subrange;
use crate::wire::{
    senc_u64, sdec_u64, enc_u64, read_u64, lemma_sdec_u64_at, lemma_senc_u64_len,
    senc_i64, sdec_i64, enc_i64, read_i64, lemma_sdec_i64_at, lemma_senc_i64_len,
    senc_bytes, sdec_bytes, enc_bytes, read_bytes, lemma_sdec_bytes_at, lemma_senc_bytes_len,
    senc_str, sdec_str, enc_str, read_str, lemma_sdec_str_at,
    senc_chunks, sdec_chunks, senc_chunks_body, sdec_chunks_body, chunks_fit,
    lemma_senc_chunks_body_push, lemma_sdec_chunks_at, push_bytes,
};

verus! {

/// A value that can travel over the replication log.
///
/// `swire` is the wire encoding of the value's deep view; `from_wire` decodes
/// a whole buffer, or yields `None` when the buffer is not exactly one
/// encoded value.  `wire_fine` collects the size bounds (every length must
/// fit its 64-bit prefix) under which `lemma_round_trip` shows that decoding
/// inverts encoding.
pub trait Wire: Sized + DeepView {
    /// The wire bytes of a value with deep view `v`.
    spec fn swire(v: <Self as DeepView>::V) -> Seq<u8>;

    /// All lengths inside the encoding fit their 64-bit prefixes.
    spec fn wire_fine(v: <Self as DeepView>::V) -> bool;

    /// The deep view a whole buffer decodes to, if any.
    spec fn from_wire(b: Seq<u8>) -> Option<<Self as DeepView>::V>;

    /// Decoding inverts encoding.
    proof fn lemma_round_trip(v: <Self as DeepView>::V)
        requires
            Self::wire_fine(v),
        ensures
            Self::from_wire(Self::swire(v)) == Some(v),
    ;

    /// Encodes this value for the log.
    fn encode(&self) -> (r: Vec<u8>)
        ensures
            r@ == Self::swire(self.deep_view()),
    ;

    /// Decodes a whole buffer, as `from_wire` describes.
    fn decode(b: &[u8]) -> (r: Option<Self>)
        ensures
            match Self::from_wire(b@) {
                Some(v) => r matches Some(x) && x.deep_view() == v,
                None => r is None,
            },
    ;

    /// A duplicate with the same deep view.
    fn dup(&self) -> (r: Self)
        ensures
            r.deep_view() == self.deep_view(),
    ;
}

// ---------------------------------------------------------------------------
// scalars
// ---------------------------------------------------------------------------

impl Wire for u64 {
    open spec fn swire(v: u64) -> Seq<u8> {
        senc_u64(v)
    }

    open spec fn wire_fine(v: u64) -> bool {
        true
    }

    open spec fn from_wire(b: Seq<u8>) -> Option<u64> {
        match sdec_u64(b, 0) {
            Some((n, p)) => if p == b.len() {
                Some(n)
            } else {
                None
            },
            None => None,
        }
    }

    proof fn lemma_round_trip(v: u64) {
        lemma_senc_u64_len(v);
        assert(senc_u64(v).subrange(0, 8) =~= senc_u64(v));
        lemma_sdec_u64_at(senc_u64(v), 0, v);
    }

    fn encode(&self) -> (r: Vec<u8>) {
        let mut out: Vec<u8> = Vec::new();
        enc_u64(&mut out, *self);
        out
    }

    fn decode(b: &[u8]) -> (r: Option<u64>) {
        match read_u64(b, 0) {
            Some((n, p)) => if p == b.len() {
                Some(n)
            } else {
                None
            },
            None => None,
        }
    }

    fn dup(&self) -> (r: u64) {
        *self
    }
}

impl Wire for i64 {
    open spec fn swire(v: i64) -> Seq<u8> {
        senc_i64(v)
    }

    open spec fn wire_fine(v: i64) -> bool {
        true
    }

    open spec fn from_wire(b: Seq<u8>) -> Option<i64> {
        match sdec_i64(b, 0) {
            Some((n, p)) => if p == b.len() {
                Some(n)
            } else {
                None
            },
            None => None,
        }
    }

    proof fn lemma_round_trip(v: i64) {
        lemma_senc_i64_len(v);
        assert(senc_i64(v).subrange(0, 9) =~= senc_i64(v));
        lemma_sdec_i64_at(senc_i64(v), 0, v);
    }

    fn encode(&self) -> (r: Vec<u8>) {
        let mut out: Vec<u8> = Vec::new();
        enc_i64(&mut out, *self);
        out
    }

    fn decode(b: &[u8]) -> (r: Option<i64>) {
        match read_i64(b, 0) {
            Some((n, p)) => if p == b.len() {
                Some(n)
            } else {
                None
            },
            None => None,
        }
    }

    fn dup(&self) -> (r: i64) {
        *self
    }
}

impl Wire for i32 {
    open spec fn swire(v: i32) -> Seq<u8> {
        senc_i64(v as i64)
    }

    open spec fn wire_fine(v: i32) -> bool {
        true
    }

    open spec fn from_wire(b: Seq<u8>) -> Option<i32> {
        match <i64 as Wire>::from_wire(b) {
            Some(n) => if i32::MIN as i64 <= n <= i32::MAX as i64 {
                Some(n as i32)
            } else {
                None
            },
            None => None,
        }
    }

    proof fn lemma_round_trip(v: i32) {
        <i64 as Wire>::lemma_round_trip(v as i64);
    }

    fn encode(&self) -> (r: Vec<u8>) {
        let mut out: Vec<u8> = Vec::new();
        enc_i64(&mut out, *self as i64);
        out
    }

    fn decode(b: &[u8]) -> (r: Option<i32>) {
        match <i64 as Wire>::decode(b) {
            Some(n) => if i32::MIN as i64 <= n && n <= i32::MAX as i64 {
                Some(n as i32)
            } else {
                None
            },
            None => None,
        }
    }

    fn dup(&self) -> (r: i32) {
        *self
    }
}

impl Wire for String {
    open spec fn swire(v: Seq<char>) -> Seq<u8> {
        senc_str(v)
    }

    open spec fn wire_fine(v: Seq<char>) -> bool {
        encode_utf8(v).len() <= u64::MAX
    }

    open spec fn from_wire(b: Seq<u8>) -> Option<Seq<char>> {
        match sdec_str(b, 0) {
            Some((cs, p)) => if p == b.len() {
                Some(cs)
            } else {
                None
            },
            None => None,
        }
    }

    proof fn lemma_round_trip(v: Seq<char>) {
        lemma_senc_bytes_len(encode_utf8(v));
        assert(senc_str(v).subrange(0, senc_str(v).len() as int) =~= senc_str(v));
        lemma_sdec_str_at(senc_str(v), 0, v);
    }

    fn encode(&self) -> (r: Vec<u8>) {
        let mut out: Vec<u8> = Vec::new();
        enc_str(&mut out, self.as_str());
        out
    }

    fn decode(b: &[u8]) -> (r: Option<String>) {
        match read_str(b, 0) {
            Some((t, p)) => if p == b.len() {
                Some(t)
            } else {
                None
            },
            None => None,
        }
    }

    fn dup(&self) -> (r: String) {
        self.clone()
    }
}

/// Compares two string slices by their characters.
pub fn str_eq(a: &str, b: &str) -> (r: bool)
    ensures
        r == (a@ == b@),
{
    let r = crate::wire::bytes_eq(a.as_bytes(), b.as_bytes());
    proof {
        vstd::utf8::encode_utf8_decode_utf8(a@);
        vstd::utf8::encode_utf8_decode_utf8(b@);
    }
    r
}

// ---------------------------------------------------------------------------
// options: a presence tag, then the value
// ---------------------------------------------------------------------------

impl<T: Wire> Wire for Option<T> {
    open spec fn swire(v: Option<T::V>) -> Seq<u8> {
        match v {
            None => seq![0u8],
            Some(x) => seq![1u8] + T::swire(x),
        }
    }

    open spec fn wire_fine(v: Option<T::V>) -> bool {
        match v {
            None => true,
            Some(x) => T::wire_fine(x),
        }
    }

    open spec fn from_wire(b: Seq<u8>) -> Option<Option<T::V>> {
        if b.len() >= 1 && b[0] == 0u8 {
            if b.len() == 1 {
                Some(None)
            } else {
                None
            }
        } else if b.len() >= 1 && b[0] == 1u8 {
            match T::from_wire(b.skip(1)) {
                Some(x) => Some(Some(x)),
                None => None,
            }
        } else {
            None
        }
    }

    proof fn lemma_round_trip(v: Option<T::V>) {
        match v {
            None => {
                assert(Self::swire(v).len() == 1 && Self::swire(v)[0] == 0u8);
            },
            Some(x) => {
                let s = seq![1u8] + T::swire(x);
                assert(s[0] == 1u8);
                assert(s.skip(1) =~= T::swire(x));
                T::lemma_round_trip(x);
            },
        }
    }

    fn encode(&self) -> (r: Vec<u8>) {
        let mut out: Vec<u8> = Vec::new();
        match self {
            None => {
                out.push(0u8);
                proof {
                    assert(out@ =~= Self::swire(self.deep_view()));
                }
            },
            Some(x) => {
                out.push(1u8);
                let eb = x.encode();
                push_bytes(&mut out, eb.as_slice());
                proof {
                    assert(out@ =~= Self::swire(self.deep_view()));
                }
            },
        }
        out
    }

    fn decode(b: &[u8]) -> (r: Option<Option<T>>) {
        if b.len() >= 1 {
            let tag = *vstd::slice::slice_index_get(b, 0);
            if tag == 0u8 {
                if b.len() == 1 {
                    Some(None)
                } else {
                    None
                }
            } else if tag == 1u8 {
                let rest = slice_subrange(b, 1, b.len());
                proof {
                    assert(rest@ =~= b@.skip(1));
                }
                match T::decode(rest) {
                    Some(x) => Some(Some(x)),
                    None => None,
                }
            } else {
                None
            }
        } else {
            None
        }
    }

    fn dup(&self) -> (r: Option<T>) {
        match self {
            None => None,
            Some(x) => Some(x.dup()),
        }
    }
}

// ---------------------------------------------------------------------------
// pairs and triples: each component length prefixed
// ---------------------------------------------------------------------------

impl<A: Wire, B: Wire> Wire for (A, B) {
    open spec fn swire(v: (A::V, B::V)) -> Seq<u8> {
        senc_bytes(A::swire(v.0)) + senc_bytes(B::swire(v.1))
    }

    open spec fn wire_fine(v: (A::V, B::V)) -> bool {
        &&& A::wire_fine(v.0)
        &&& B::wire_fine(v.1)
        &&& A::swire(v.0).len() <= u64::MAX
        &&& B::swire(v.1).len() <= u64::MAX
    }

    open spec fn from_wire(b: Seq<u8>) -> Option<(A::V, B::V)> {
        match sdec_bytes(b, 0) {
            Some((c1, p)) => match sdec_bytes(b, p) {
                Some((c2, q)) => if q == b.len() {
                    match (A::from_wire(c1), B::from_wire(c2)) {
                        (Some(a), Some(bb)) => Some((a, bb)),
                        _ => None,
                    }
                } else {
                    None
                },
                None => None,
            },
            None => None,
        }
    }

    proof fn lemma_round_trip(v: (A::V, B::V)) {
        let ca = A::swire(v.0);
        let cb = B::swire(v.1);
        let s = senc_bytes(ca) + senc_bytes(cb);
        lemma_senc_bytes_len(ca);
        lemma_senc_bytes_len(cb);
        let l1: int = 8 + ca.len() as int;
        assert(s.subrange(0, l1) =~= senc_bytes(ca));
        lemma_sdec_bytes_at(s, 0, ca);
        assert(s.subrange(l1, s.len() as int) =~= senc_bytes(cb));
        lemma_sdec_bytes_at(s, l1, cb);
        A::lemma_round_trip(v.0);
        B::lemma_round_trip(v.1);
    }

    fn encode(&self) -> (r: Vec<u8>) {
        let mut out: Vec<u8> = Vec::new();
        let ea = self.0.encode();
        enc_bytes(&mut out, ea.as_slice());
        let eb = self.1.encode();
        enc_bytes(&mut out, eb.as_slice());
        proof {
            assert(out@ =~= Self::swire(self.deep_view()));
        }
        out
    }

    fn decode(b: &[u8]) -> (r: Option<(A, B)>) {
        match read_bytes(b, 0) {
            Some((c1, p)) => match read_bytes(b, p) {
                Some((c2, q)) => if q == b.len() {
                    match (A::decode(c1.as_slice()), B::decode(c2.as_slice())) {
                        (Some(a), Some(bb)) => Some((a, bb)),
                        _ => None,
                    }
                } else {
                    None
                },
                None => None,
            },
            None => None,
        }
    }

    fn dup(&self) -> (r: (A, B)) {
        (self.0.dup(), self.1.dup())
    }
}

impl<A: Wire, B: Wire, C: Wire> Wire for (A, B, C) {
    open spec fn swire(v: (A::V, B::V, C::V)) -> Seq<u8> {
        senc_bytes(A::swire(v.0)) + senc_bytes(B::swire(v.1)) + senc_bytes(C::swire(v.2))
    }

    open spec fn wire_fine(v: (A::V, B::V, C::V)) -> bool {
        &&& A::wire_fine(v.0)
        &&& B::wire_fine(v.1)
        &&& C::wire_fine(v.2)
        &&& A::swire(v.0).len() <= u64::MAX
        &&& B::swire(v.1).len() <= u64::MAX
        &&& C::swire(v.2).len() <= u64::MAX
    }

    open spec fn from_wire(b: Seq<u8>) -> Option<(A::V, B::V, C::V)> {
        match sdec_bytes(b, 0) {
            Some((c1, p)) => match sdec_bytes(b, p) {
                Some((c2, q)) => match sdec_bytes(b, q) {
                    Some((c3, w)) => if w == b.len() {
                        match (A::from_wire(c1), B::from_wire(c2), C::from_wire(c3)) {
                            (Some(a), Some(bb), Some(c)) => Some((a, bb, c)),
                            _ => None,
                        }
                    } else {
                        None
                    },
                    None => None,
                },
                None => None,
            },
            None => None,
        }
    }

    proof fn lemma_round_trip(v: (A::V, B::V, C::V)) {
        let ca = A::swire(v.0);
        let cb = B::swire(v.1);
        let cc = C::swire(v.2);
        let s = senc_bytes(ca) + senc_bytes(cb) + senc_bytes(cc);
        lemma_senc_bytes_len(ca);
        lemma_senc_bytes_len(cb);
        lemma_senc_bytes_len(cc);
        let l1: int = 8 + ca.len() as int;
        let l2: int = l1 + 8 + cb.len() as int;
        assert(s.subrange(0, l1) =~= senc_bytes(ca));
        lemma_sdec_bytes_at(s, 0, ca);
        assert(s.subrange(l1, l2) =~= senc_bytes(cb));
        lemma_sdec_bytes_at(s, l1, cb);
        assert(s.subrange(l2, s.len() as int) =~= senc_bytes(cc));
        lemma_sdec_bytes_at(s, l2, cc);
        A::lemma_round_trip(v.0);
        B::lemma_round_trip(v.1);
        C::lemma_round_trip(v.2);
    }

    fn encode(&self) -> (r: Vec<u8>) {
        let mut out: Vec<u8> = Vec::new();
        let ea = self.0.encode();
        enc_bytes(&mut out, ea.as_slice());
        let eb = self.1.encode();
        enc_bytes(&mut out, eb.as_slice());
        let ec = self.2.encode();
        enc_bytes(&mut out, ec.as_slice());
        proof {
            assert(out@ =~= Self::swire(self.deep_view()));
        }
        out
    }

    fn decode(b: &[u8]) -> (r: Option<(A, B, C)>) {
        match read_bytes(b, 0) {
            Some((c1, p)) => match read_bytes(b, p) {
                Some((c2, q)) => match read_bytes(b, q) {
                    Some((c3, w)) => if w == b.len() {
                        match (A::decode(c1.as_slice()), B::decode(c2.as_slice()), C::decode(
                            c3.as_slice(),
                        )) {
                            (Some(a), Some(bb), Some(c)) => Some((a, bb, c)),
                            _ => None,
                        }
                    } else {
                        None
                    },
                    None => None,
                },
                None => None,
            },
            None => None,
        }
    }

    fn dup(&self) -> (r: (A, B, C)) {
        (self.0.dup(), self.1.dup(), self.2.dup())
    }
}

// ---------------------------------------------------------------------------
// vectors: a count, then each element length prefixed
// ---------------------------------------------------------------------------

/// Decodes every chunk of a chunk list, in order; `None` if any chunk fails.
pub open spec fn from_chunks<T: Wire>(chunks: Seq<Seq<u8>>) -> Option<Seq<T::V>>
    decreases chunks.len(),
{
    if chunks.len() == 0 {
        Some(Seq::empty())
    } else {
        match T::from_wire(chunks[0]) {
            Some(v) => match from_chunks::<T>(chunks.drop_first()) {
                Some(rest) => Some(seq![v] + rest),
                None => None,
            },
            None => None,
        }
    }
}

/// `from_chunks` processes a concatenation front to back.
pub proof fn lemma_from_chunks_append<T: Wire>(c1: Seq<Seq<u8>>, c2: Seq<Seq<u8>>)
    ensures
        from_chunks::<T>(c1 + c2) == match from_chunks::<T>(c1) {
            Some(v1) => match from_chunks::<T>(c2) {
                Some(v2) => Some(v1 + v2),
                None => None,
            },
            None => None,
        },
    decreases c1.len(),
{
    if c1.len() == 0 {
        assert(c1 + c2 =~= c2);
        match from_chunks::<T>(c2) {
            Some(v2) => {
                assert(Seq::<T::V>::empty() + v2 =~= v2);
            },
            None => {},
        }
    } else {
        assert((c1 + c2)[0] == c1[0]);
        assert((c1 + c2).drop_first() =~= c1.drop_first() + c2);
        lemma_from_chunks_append::<T>(c1.drop_first(), c2);
        match (from_chunks::<T>(c1.drop_first()), from_chunks::<T>(c2)) {
            (Some(r1), Some(v2)) => {
                match T::from_wire(c1[0]) {
                    Some(v) => {
                        assert(seq![v] + (r1 + v2) =~= (seq![v] + r1) + v2);
                    },
                    None => {},
                }
            },
            _ => {},
        }
    }
}

/// Decoding the encodings of a sequence of values yields those values.
pub proof fn lemma_from_chunks_encoded<T: Wire>(v: Seq<T::V>)
    requires
        forall|i: int| 0 <= i < v.len() ==> T::wire_fine(#[trigger] v[i]),
    ensures
        from_chunks::<T>(v.map_values(|e: T::V| T::swire(e))) == Some(v),
    decreases v.len(),
{
    let chunks = v.map_values(|e: T::V| T::swire(e));
    if v.len() == 0 {
        assert(chunks.len() == 0);
        assert(Seq::<T::V>::empty() =~= v);
    } else {
        assert(chunks[0] == T::swire(v[0]));
        T::lemma_round_trip(v[0]);
        assert(chunks.drop_first() =~= v.drop_first().map_values(|e: T::V| T::swire(e)));
        lemma_from_chunks_encoded::<T>(v.drop_first());
        assert(seq![v[0]] + v.drop_first() =~= v);
    }
}

impl<T: Wire> Wire for Vec<T> {
    open spec fn swire(v: Seq<T::V>) -> Seq<u8> {
        senc_chunks(v.map_values(|e: T::V| T::swire(e)))
    }

    open spec fn wire_fine(v: Seq<T::V>) -> bool {
        &&& v.len() <= u64::MAX
        &&& forall|i: int|
            0 <= i < v.len() ==> T::wire_fine(#[trigger] v[i]) && T::swire(v[i]).len()
                <= u64::MAX
    }

    open spec fn from_wire(b: Seq<u8>) -> Option<Seq<T::V>> {
        match sdec_chunks(b, 0) {
            Some((chunks, p)) => if p == b.len() {
                from_chunks::<T>(chunks)
            } else {
                None
            },
            None => None,
        }
    }

    proof fn lemma_round_trip(v: Seq<T::V>) {
        let chunks = v.map_values(|e: T::V| T::swire(e));
        assert(chunks_fit(chunks)) by {
            assert(forall|i: int|
                0 <= i < chunks.len() ==> #[trigger] chunks[i].len() <= u64::MAX) by {
                assert(forall|i: int|
                    0 <= i < chunks.len() ==> #[trigger] chunks[i] == T::swire(v[i]));
            }
        }
        let s = senc_chunks(chunks);
        assert(s.subrange(0, s.len() as int) =~= s);
        lemma_sdec_chunks_at(s, 0, chunks);
        lemma_from_chunks_encoded::<T>(v);
    }

    fn encode(&self) -> (r: Vec<u8>) {
        let ghost dv = self.deep_view();
        let ghost chunks = dv.map_values(|e: T::V| T::swire(e));
        let mut out: Vec<u8> = Vec::new();
        let n = self.len();
        enc_u64(&mut out, n as u64);
        let mut i: usize = 0;
        while i < n
            invariant
                i <= n,
                n == self@.len(),
                dv == self.deep_view(),
                chunks == dv.map_values(|e: T::V| T::swire(e)),
                out@ == senc_u64(n as u64) + senc_chunks_body(chunks.take(i as int)),
            decreases n - i,
        {
            let elem: &T = &self[i];
            let eb = elem.encode();
            enc_bytes(&mut out, eb.as_slice());
            proof {
                assert(dv[i as int] == self@[i as int].deep_view());
                assert(chunks[i as int] == T::swire(dv[i as int]));
                lemma_senc_chunks_body_push(chunks.take(i as int), chunks[i as int]);
                assert(chunks.take(i + 1) =~= chunks.take(i as int).push(chunks[i as int]));
            }
            i = i + 1;
        }
        proof {
            assert(chunks.take(n as int) =~= chunks);
            assert(out@ =~= Self::swire(dv));
        }
        out
    }

    fn decode(b: &[u8]) -> (r: Option<Vec<T>>) {
        match read_u64(b, 0) {
            None => None,
            Some((n, p0)) => {
                let mut res: Vec<T> = Vec::new();
                let ghost mut got: Seq<Seq<u8>> = Seq::empty();
                let mut pos: usize = p0;
                let mut i: u64 = 0;
                while i < n
                    invariant
                        i <= n,
                        sdec_u64(b@, 0) == Some((n, p0 as int)),
                        sdec_chunks_body(b@, p0 as int, n as nat) == match sdec_chunks_body(
                            b@,
                            pos as int,
                            (n - i) as nat,
                        ) {
                            Some((rest, q)) => Some((got + rest, q)),
                            None => None::<(Seq<Seq<u8>>, int)>,
                        },
                        from_chunks::<T>(got) == Some(res.deep_view()),
                    decreases n - i,
                {
                    match read_bytes(b, pos) {
                        None => {
                            proof {
                                assert(sdec_chunks_body(b@, pos as int, (n - i) as nat)
                                    is None);
                            }
                            return None;
                        },
                        Some((chunk, p2)) => {
                            match T::decode(chunk.as_slice()) {
                                None => {
                                    proof {
                                        let rem = sdec_chunks_body(
                                            b@,
                                            p2 as int,
                                            (n - i - 1) as nat,
                                        );
                                        match rem {
                                            Some((rest, q)) => {
                                                lemma_from_chunks_append::<T>(
                                                    got,
                                                    seq![chunk@] + rest,
                                                );
                                                assert(from_chunks::<T>(seq![chunk@] + rest)
                                                    is None) by {
                                                    assert((seq![chunk@] + rest)[0]
                                                        == chunk@);
                                                }
                                                assert(got + (seq![chunk@] + rest) =~= (got
                                                    + seq![chunk@]) + rest);
                                            },
                                            None => {},
                                        }
                                    }
                                    return None;
                                },
                                Some(x) => {
                                    let ghost got0 = got;
                                    let ghost res_dv0 = res.deep_view();
                                    proof {
                                        let rem = sdec_chunks_body(
                                            b@,
                                            p2 as int,
                                            (n - i - 1) as nat,
                                        );
                                        match rem {
                                            Some((rest, q)) => {
                                                assert(got0 + (seq![chunk@] + rest) =~= (
                                                got0 + seq![chunk@]) + rest);
                                            },
                                            None => {},
                                        }
                                        lemma_from_chunks_append::<T>(got0, seq![chunk@]);
                                        assert(T::from_wire(chunk@) == Some(x.deep_view()));
                                        assert(from_chunks::<T>(seq![chunk@]) == Some(
                                            seq![x.deep_view()],
                                        )) by {
                                            assert(seq![chunk@][0] == chunk@);
                                            assert(seq![chunk@].drop_first()
                                                =~= Seq::<Seq<u8>>::empty());
                                            assert(from_chunks::<T>(Seq::<Seq<u8>>::empty())
                                                == Some(Seq::<T::V>::empty()));
                                            assert(seq![x.deep_view()]
                                                + Seq::<T::V>::empty()
                                                =~= seq![x.deep_view()]);
                                        }
                                    }
                                    res.push(x);
                                    proof {
                                        got = got0.push(chunk@);
                                        assert(got =~= got0 + seq![chunk@]);
                                        assert(res.deep_view() =~= res_dv0 + seq![
                                            x.deep_view(),
                                        ]);
                                    }
                                    pos = p2;
                                    i = i + 1;
                                },
                            }
                        },
                    }
                }
                proof {
                    assert(sdec_chunks_body(b@, pos as int, 0) == Some(
                        (Seq::<Seq<u8>>::empty(), pos as int),
                    ));
                    assert(got + Seq::<Seq<u8>>::empty() =~= got);
                }
                if pos == b.len() {
                    Some(res)
                } else {
                    None
                }
            },
        }
    }

    fn dup(&self) -> (r: Vec<T>) {
        let mut out: Vec<T> = Vec::new();
        let n = self.len();
        let mut i: usize = 0;
        while i < n
            invariant
                i <= n,
                n == self@.len(),
                out@.len() == i,
                out.deep_view() == self.deep_view().take(i as int),
            decreases n - i,
        {
            let elem: &T = &self[i];
            let ghost prev = out@;
            let ghost prev_dv = out.deep_view();
            let d = elem.dup();
            out.push(d);
            proof {
                assert(out@ == prev.push(d));
                assert(prev.len() == i);
                assert(self.deep_view()[i as int] == self@[i as int].deep_view());
                assert forall|j: int| 0 <= j < i + 1 implies out.deep_view()[j]
                    == self.deep_view().take(i + 1)[j] by {
                    if j < i {
                        assert(out@[j] == prev[j]);
                        assert(prev_dv[j] == prev[j].deep_view());
                        assert(prev_dv[j] == self.deep_view()[j]);
                    } else {
                        assert(out@[j] == d);
                    }
                }
                assert(out.deep_view() =~= self.deep_view().take(i + 1));
            }
            i = i + 1;
        }
        proof {
            assert(self.deep_view().take(n as int) =~= self.deep_view());
        }
        out
    }
}

} // verus!
