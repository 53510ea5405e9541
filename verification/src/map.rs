//! The replicated map.
//!
//! A named key/value map whose writes travel over the replication log.  The
//! map is viewed as a mathematical `Map` from the wire bytes of each key to
//! the deep view of its value.  A mutating insert happens in two steps, in
//! the order the log demands: `prepare_insert` builds the record to publish,
//! and only after the producer has accepted it does `sync_value_update` apply
//! the write locally.  `receive_update` applies updates arriving from the
//! log, including tombstones, which remove the key.  A `Put` stores, a
//! `Delete` removes.

use vstd::prelude::*;
use crate::types::Wire;
use crate::codec::senc_wrapped;
use crate::wire::bytes_eq;
use crate::codec::encode_wrapped_key;
use crate::CacheError;

verus! {

/// An update delivered by the replication log, with the user key and the
/// payload still in their wire encodings.
pub enum ReplicaCacheUpdate {
    /// The key now carries this payload.
    Put { key: Vec<u8>, payload: Vec<u8> },
    /// A tombstone: the key is gone.
    Delete { key: Vec<u8> },
}

/// The mathematical shape of an update: the key and payload as byte strings.
pub enum UpdateView {
    /// The key now carries this payload.
    Put { key: Seq<u8>, payload: Seq<u8> },
    /// A tombstone: the key is gone.
    Delete { key: Seq<u8> },
}

impl View for ReplicaCacheUpdate {
    type V = UpdateView;

    open spec fn view(&self) -> UpdateView {
        match self {
            ReplicaCacheUpdate::Put { key, payload } => UpdateView::Put {
                key: key@,
                payload: payload@,
            },
            ReplicaCacheUpdate::Delete { key } => UpdateView::Delete { key: key@ },
        }
    }
}

/// Holds of two mapping states when `update` landed between them with
/// outcome `r`: a decodable `Put` stores, a decodable `Delete` removes, and
/// bytes that do not decode change nothing and report a decode failure.
pub open spec fn applied<K: Wire, T: Wire>(
    m0: Map<Seq<u8>, <T as DeepView>::V>,
    m1: Map<Seq<u8>, <T as DeepView>::V>,
    update: UpdateView,
    r: Result<(), CacheError>,
) -> bool {
    match update {
        UpdateView::Put { key, payload } => match (K::from_wire(key), T::from_wire(payload)) {
            (Some(kv), Some(vv)) => r is Ok && m1 == m0.insert(K::swire(kv), vv),
            _ => r == Err::<(), CacheError>(CacheError::DecodeError) && m1 == m0,
        },
        UpdateView::Delete { key } => match K::from_wire(key) {
            Some(kv) => r is Ok && m1 == m0.remove(K::swire(kv)),
            None => r == Err::<(), CacheError>(CacheError::DecodeError) && m1 == m0,
        },
    }
}

/// A record ready for publication on the replication topic.
pub struct LogRecord {
    /// The encoded wrapped key.
    pub key: Vec<u8>,
    /// The encoded value; absent for a tombstone.
    pub payload: Option<Vec<u8>>,
}

/// Producer-side cap on one record, the topic's `message.max.bytes`.
pub const MAX_MESSAGE_BYTES: usize = 10000000;

/// The mapping a list of entries stands for, keyed by the wire bytes of each
/// key; a later entry overrides an earlier one with the same key.
pub open spec fn map_of<K: Wire, T: Wire>(entries: Seq<(K, T)>) -> Map<
    Seq<u8>,
    <T as DeepView>::V,
>
    decreases entries.len(),
{
    if entries.len() == 0 {
        Map::empty()
    } else {
        map_of(entries.drop_last()).insert(
            K::swire(entries.last().0.deep_view()),
            entries.last().1.deep_view(),
        )
    }
}

/// No two entries share a key.
pub open spec fn keys_distinct<K: Wire, T: Wire>(entries: Seq<(K, T)>) -> bool {
    forall|i: int, j: int|
        0 <= i < j < entries.len() ==> K::swire(#[trigger] entries[i].0.deep_view()) != K::swire(
            #[trigger] entries[j].0.deep_view(),
        )
}

/// A key is in the mapping exactly when some entry carries it.
pub proof fn lemma_map_of_contains<K: Wire, T: Wire>(entries: Seq<(K, T)>, kb: Seq<u8>)
    ensures
        map_of(entries).contains_key(kb) <==> exists|i: int|
            0 <= i < entries.len() && K::swire(#[trigger] entries[i].0.deep_view()) == kb,
    decreases entries.len(),
{
    if entries.len() == 0 {
    } else {
        let short = entries.drop_last();
        lemma_map_of_contains::<K, T>(short, kb);
        let lastk = K::swire(entries.last().0.deep_view());
        assert(entries.last() == entries[entries.len() - 1]);
        if lastk == kb {
            assert(K::swire(entries[entries.len() - 1].0.deep_view()) == kb);
        } else {
            assert forall|i: int|
                0 <= i < short.len() && K::swire(#[trigger] short[i].0.deep_view())
                    == kb implies exists|j: int|
                0 <= j < entries.len() && K::swire(#[trigger] entries[j].0.deep_view()) == kb by {
                assert(entries[i] == short[i]);
            }
            assert forall|j: int|
                0 <= j < entries.len() && K::swire(#[trigger] entries[j].0.deep_view())
                    == kb implies exists|i: int|
                0 <= i < short.len() && K::swire(#[trigger] short[i].0.deep_view()) == kb by {
                assert(j < entries.len() - 1);
                assert(short[j] == entries[j]);
            }
        }
    }
}

/// With distinct keys, the entry holding a key gives its value in the mapping.
pub proof fn lemma_map_of_at<K: Wire, T: Wire>(entries: Seq<(K, T)>, i: int)
    requires
        keys_distinct(entries),
        0 <= i < entries.len(),
    ensures
        map_of(entries).contains_key(K::swire(entries[i].0.deep_view())),
        map_of(entries)[K::swire(entries[i].0.deep_view())] == entries[i].1.deep_view(),
    decreases entries.len(),
{
    let kb = K::swire(entries[i].0.deep_view());
    assert(entries.last() == entries[entries.len() - 1]);
    if i == entries.len() - 1 {
    } else {
        let short = entries.drop_last();
        assert(short[i] == entries[i]);
        assert(keys_distinct(short)) by {
            assert forall|a: int, b: int|
                0 <= a < b < short.len() implies K::swire(#[trigger] short[a].0.deep_view())
                != K::swire(#[trigger] short[b].0.deep_view()) by {
                assert(short[a] == entries[a]);
                assert(short[b] == entries[b]);
            }
        }
        lemma_map_of_at::<K, T>(short, i);
        assert(K::swire(entries[entries.len() - 1].0.deep_view()) != kb);
    }
}

/// Updating the entry that holds a key re-points the mapping at the new value.
pub proof fn lemma_map_of_update<K: Wire, T: Wire>(entries: Seq<(K, T)>, i: int, key: K, value: T)
    requires
        keys_distinct(entries),
        0 <= i < entries.len(),
        K::swire(key.deep_view()) == K::swire(entries[i].0.deep_view()),
    ensures
        map_of(entries.update(i, (key, value))) == map_of(entries).insert(
            K::swire(key.deep_view()),
            value.deep_view(),
        ),
        keys_distinct(entries.update(i, (key, value))),
    decreases entries.len(),
{
    let kb = K::swire(key.deep_view());
    let upd = entries.update(i, (key, value));
    assert(entries.last() == entries[entries.len() - 1]);
    assert(upd.last() == upd[entries.len() - 1]);
    assert(keys_distinct(upd)) by {
        assert forall|a: int, b: int|
            0 <= a < b < upd.len() implies K::swire(#[trigger] upd[a].0.deep_view()) != K::swire(
            #[trigger] upd[b].0.deep_view(),
        ) by {
            assert(K::swire(entries[a].0.deep_view()) != K::swire(entries[b].0.deep_view()));
            if a == i {
                assert(upd[a].0.deep_view() == key.deep_view());
                assert(upd[b] == entries[b]);
            } else if b == i {
                assert(upd[b].0.deep_view() == key.deep_view());
                assert(upd[a] == entries[a]);
            } else {
                assert(upd[a] == entries[a]);
                assert(upd[b] == entries[b]);
            }
        }
    }
    if i == entries.len() - 1 {
        assert(upd.drop_last() =~= entries.drop_last());
        assert(map_of(upd) == map_of(entries.drop_last()).insert(kb, value.deep_view()));
        assert(map_of(entries).insert(kb, value.deep_view()) =~= map_of(entries.drop_last()).insert(
            kb,
            value.deep_view(),
        ));
    } else {
        let short = entries.drop_last();
        assert(short[i] == entries[i]);
        assert(keys_distinct(short)) by {
            assert forall|a: int, b: int|
                0 <= a < b < short.len() implies K::swire(#[trigger] short[a].0.deep_view())
                != K::swire(#[trigger] short[b].0.deep_view()) by {
                assert(short[a] == entries[a]);
                assert(short[b] == entries[b]);
            }
        }
        lemma_map_of_update::<K, T>(short, i, key, value);
        assert(upd.drop_last() =~= short.update(i, (key, value)));
        let lastk = K::swire(entries[entries.len() - 1].0.deep_view());
        assert(lastk != kb);
        assert(map_of(upd) == map_of(short).insert(kb, value.deep_view()).insert(
            lastk,
            entries.last().1.deep_view(),
        ));
        assert(map_of(short).insert(kb, value.deep_view()).insert(
            lastk,
            entries.last().1.deep_view(),
        ) =~= map_of(short).insert(lastk, entries.last().1.deep_view()).insert(
            kb,
            value.deep_view(),
        ));
    }
}

/// Removing the entry that holds a key removes the key from the mapping.
pub proof fn lemma_map_of_remove<K: Wire, T: Wire>(entries: Seq<(K, T)>, i: int)
    requires
        keys_distinct(entries),
        0 <= i < entries.len(),
    ensures
        map_of(entries.remove(i)) == map_of(entries).remove(K::swire(entries[i].0.deep_view())),
        keys_distinct(entries.remove(i)),
    decreases entries.len(),
{
    let kb = K::swire(entries[i].0.deep_view());
    let rem = entries.remove(i);
    assert(entries.last() == entries[entries.len() - 1]);
    assert(keys_distinct(rem)) by {
        assert forall|a: int, b: int|
            0 <= a < b < rem.len() implies K::swire(#[trigger] rem[a].0.deep_view()) != K::swire(
            #[trigger] rem[b].0.deep_view(),
        ) by {
            let a0: int = if a < i {
                a
            } else {
                a + 1
            };
            let b0: int = if b < i {
                b
            } else {
                b + 1
            };
            assert(rem[a] == entries[a0]);
            assert(rem[b] == entries[b0]);
            assert(K::swire(entries[a0].0.deep_view()) != K::swire(entries[b0].0.deep_view()));
        }
    }
    let short = entries.drop_last();
    if i == entries.len() - 1 {
        assert(rem =~= short);
        lemma_map_of_contains::<K, T>(short, kb);
        assert(!map_of(short).contains_key(kb)) by {
            if exists|j: int|
                0 <= j < short.len() && K::swire(#[trigger] short[j].0.deep_view()) == kb {
                let j = choose|j: int|
                    0 <= j < short.len() && K::swire(#[trigger] short[j].0.deep_view()) == kb;
                assert(short[j] == entries[j]);
                assert(false);
            }
        }
        assert(map_of(entries).remove(kb) =~= map_of(short));
    } else {
        assert(keys_distinct(short)) by {
            assert forall|a: int, b: int|
                0 <= a < b < short.len() implies K::swire(#[trigger] short[a].0.deep_view())
                != K::swire(#[trigger] short[b].0.deep_view()) by {
                assert(short[a] == entries[a]);
                assert(short[b] == entries[b]);
            }
        }
        assert(short[i] == entries[i]);
        lemma_map_of_remove::<K, T>(short, i);
        assert(rem.drop_last() =~= short.remove(i));
        assert(rem.last() == entries.last()) by {
            assert(rem[rem.len() - 1] == entries[entries.len() - 1]);
        }
        let lastk = K::swire(entries[entries.len() - 1].0.deep_view());
        assert(lastk != kb);
        assert(map_of(rem) == map_of(short).remove(kb).insert(
            lastk,
            entries.last().1.deep_view(),
        ));
        assert(map_of(short).remove(kb).insert(lastk, entries.last().1.deep_view())
            =~= map_of(short).insert(lastk, entries.last().1.deep_view()).remove(kb));
    }
}

/// A named map replicated through the log.  The view is the mapping from the
/// wire bytes of each key to the deep view of its value.
pub struct ReplicatedMap<K: Wire, T: Wire> {
    name: String,
    entries: Vec<(K, T)>,
}

impl<K: Wire, T: Wire> View for ReplicatedMap<K, T> {
    type V = Map<Seq<u8>, <T as DeepView>::V>;

    closed spec fn view(&self) -> Map<Seq<u8>, <T as DeepView>::V> {
        map_of(self.entries@)
    }
}

impl<K: Wire, T: Wire> ReplicatedMap<K, T> {
    /// The map's name, as characters.
    pub closed spec fn name_spec(&self) -> Seq<char> {
        self.name@
    }

    /// The map holds no two entries for one key.
    pub closed spec fn wf(&self) -> bool {
        keys_distinct(self.entries@)
    }

    /// The wire bytes of each stored key, in storage order.
    pub closed spec fn key_wires(&self) -> Seq<Seq<u8>> {
        self.entries@.map_values(|e: (K, T)| K::swire(e.0.deep_view()))
    }

    /// An empty map under the given name.
    pub fn new(name: &str) -> (r: ReplicatedMap<K, T>)
        ensures
            r.wf(),
            r@ == Map::<Seq<u8>, <T as DeepView>::V>::empty(),
            r.name_spec() == name@,
    {
        ReplicatedMap { name: name.to_owned(), entries: Vec::new() }
    }

    /// The map's name, chosen at construction.
    pub fn name(&self) -> (r: &str)
        ensures
            r@ == self.name_spec(),
    {
        self.name.as_str()
    }

    /// The position of the entry carrying this encoded key, if any.
    fn position_of(&self, kb: &[u8]) -> (r: Option<usize>)
        ensures
            match r {
                Some(i) => i < self.entries@.len() && K::swire(
                    self.entries@[i as int].0.deep_view(),
                ) == kb@,
                None => forall|i: int|
                    0 <= i < self.entries@.len() ==> K::swire(
                        #[trigger] self.entries@[i].0.deep_view(),
                    ) != kb@,
            },
    {
        let n = self.entries.len();
        let mut i: usize = 0;
        while i < n
            invariant
                i <= n,
                n == self.entries@.len(),
                forall|j: int|
                    0 <= j < i ==> K::swire(#[trigger] self.entries@[j].0.deep_view()) != kb@,
            decreases n - i,
        {
            let entry: &(K, T) = &self.entries[i];
            let enc = entry.0.encode();
            if bytes_eq(enc.as_slice(), kb) {
                return Some(i);
            }
            i = i + 1;
        }
        None
    }

    /// A snapshot of the value stored under `key`, if any.
    pub fn get(&self, key: &K) -> (r: Option<T>)
        requires
            self.wf(),
        ensures
            match r {
                Some(v) => self@.contains_key(K::swire(key.deep_view())) && v.deep_view()
                    == self@[K::swire(key.deep_view())],
                None => !self@.contains_key(K::swire(key.deep_view())),
            },
    {
        let kb = key.encode();
        match self.position_of(kb.as_slice()) {
            Some(i) => {
                proof {
                    lemma_map_of_at::<K, T>(self.entries@, i as int);
                }
                let entry: &(K, T) = &self.entries[i];
                Some(entry.1.dup())
            },
            None => {
                proof {
                    lemma_map_of_contains::<K, T>(self.entries@, K::swire(key.deep_view()));
                }
                None
            },
        }
    }

    /// Applies `map[key] := value` locally.  This is the local half of an
    /// insert — it runs only after the log accepted the record — and also
    /// how a `Set` arriving from the log lands; applying the same update
    /// twice leaves the same mapping.
    pub fn sync_value_update(&mut self, key: K, value: T)
        requires
            old(self).wf(),
        ensures
            final(self).wf(),
            final(self).name_spec() == old(self).name_spec(),
            final(self)@ == old(self)@.insert(K::swire(key.deep_view()), value.deep_view()),
    {
        let kb = key.encode();
        match self.position_of(kb.as_slice()) {
            Some(i) => {
                proof {
                    lemma_map_of_update::<K, T>(self.entries@, i as int, key, value);
                }
                self.entries[i] = (key, value);
            },
            None => {
                let ghost prev = self.entries@;
                self.entries.push((key, value));
                proof {
                    assert(self.entries@.drop_last() =~= prev);
                    assert(self.entries@.last() == (key, value));
                    assert(keys_distinct(self.entries@)) by {
                        assert forall|a: int, b: int|
                            0 <= a < b < self.entries@.len() implies K::swire(
                            #[trigger] self.entries@[a].0.deep_view(),
                        ) != K::swire(#[trigger] self.entries@[b].0.deep_view()) by {
                            if b == self.entries@.len() - 1 {
                                assert(self.entries@[a] == prev[a]);
                                assert(K::swire(prev[a].0.deep_view()) != kb@);
                            } else {
                                assert(self.entries@[a] == prev[a]);
                                assert(self.entries@[b] == prev[b]);
                            }
                        }
                    }
                }
            },
        }
    }

    /// Removes `key` from the local mapping; how a tombstone lands.
    pub fn sync_value_delete(&mut self, key: K)
        requires
            old(self).wf(),
        ensures
            final(self).wf(),
            final(self).name_spec() == old(self).name_spec(),
            final(self)@ == old(self)@.remove(K::swire(key.deep_view())),
    {
        let kb = key.encode();
        match self.position_of(kb.as_slice()) {
            Some(i) => {
                proof {
                    lemma_map_of_remove::<K, T>(self.entries@, i as int);
                }
                self.entries.remove(i);
            },
            None => {
                proof {
                    lemma_map_of_contains::<K, T>(self.entries@, K::swire(key.deep_view()));
                    assert(old(self)@.remove(K::swire(key.deep_view())) =~= old(self)@);
                }
            },
        }
    }

    /// Builds the record that publishes `(key, value)` under this map's name.
    /// The record is rejected, and nothing may be applied locally, when it
    /// would not fit the producer's size cap.
    pub fn prepare_insert(&self, key: &K, value: &T) -> (r: Result<LogRecord, CacheError>)
        ensures
            match r {
                Ok(rec) => {
                    &&& rec.key@ == senc_wrapped(self.name_spec(), K::swire(key.deep_view()))
                    &&& rec.payload matches Some(p) && p@ == T::swire(value.deep_view())
                    &&& rec.key@.len() + T::swire(value.deep_view()).len() <= MAX_MESSAGE_BYTES
                },
                Err(e) => e == CacheError::ProduceError && senc_wrapped(
                    self.name_spec(),
                    K::swire(key.deep_view()),
                ).len() + T::swire(value.deep_view()).len() > MAX_MESSAGE_BYTES,
            },
    {
        let user_key = key.encode();
        let wrapped = encode_wrapped_key(self.name.as_str(), user_key.as_slice());
        let payload = value.encode();
        if wrapped.len() > MAX_MESSAGE_BYTES || payload.len() > MAX_MESSAGE_BYTES - wrapped.len() {
            return Err(CacheError::ProduceError);
        }
        Ok(LogRecord { key: wrapped, payload: Some(payload) })
    }

    /// Applies one update arriving from the log: a `Set` stores the decoded
    /// value under the decoded key, a `Delete` removes the key.  Bytes that
    /// do not decode leave the map unchanged and report a decode failure.
    pub fn receive_update(&mut self, update: ReplicaCacheUpdate) -> (r: Result<(), CacheError>)
        requires
            old(self).wf(),
        ensures
            final(self).wf(),
            final(self).name_spec() == old(self).name_spec(),
            applied::<K, T>(old(self)@, final(self)@, update@, r),
    {
        match update {
            ReplicaCacheUpdate::Put { key, payload } => {
                let k = match K::decode(key.as_slice()) {
                    Some(k) => k,
                    None => {
                        return Err(CacheError::DecodeError);
                    },
                };
                let v = match T::decode(payload.as_slice()) {
                    Some(v) => v,
                    None => {
                        return Err(CacheError::DecodeError);
                    },
                };
                self.sync_value_update(k, v);
                Ok(())
            },
            ReplicaCacheUpdate::Delete { key } => {
                let k = match K::decode(key.as_slice()) {
                    Some(k) => k,
                    None => {
                        return Err(CacheError::DecodeError);
                    },
                };
                self.sync_value_delete(k);
                Ok(())
            },
        }
    }

    /// A snapshot of every entry: each stored key with its value.  Callers
    /// derive filtered or projected lists from this without holding the map.
    pub fn items(&self) -> (r: Vec<(K, T)>)
        requires
            self.wf(),
        ensures
            r@.len() == self.key_wires().len(),
            forall|i: int|
                0 <= i < r@.len() ==> {
                    &&& K::swire((#[trigger] r@[i]).0.deep_view()) == self.key_wires()[i]
                    &&& self@.contains_key(self.key_wires()[i])
                    &&& r@[i].1.deep_view() == self@[self.key_wires()[i]]
                },
    {
        let n = self.entries.len();
        let mut out: Vec<(K, T)> = Vec::new();
        let mut i: usize = 0;
        while i < n
            invariant
                i <= n,
                n == self.entries@.len(),
                out@.len() == i,
                forall|j: int|
                    0 <= j < i ==> {
                        &&& K::swire((#[trigger] out@[j]).0.deep_view()) == K::swire(
                            self.entries@[j].0.deep_view(),
                        )
                        &&& out@[j].1.deep_view() == self.entries@[j].1.deep_view()
                    },
            decreases n - i,
        {
            let entry: &(K, T) = &self.entries[i];
            out.push((entry.0.dup(), entry.1.dup()));
            i = i + 1;
        }
        proof {
            assert forall|i2: int| 0 <= i2 < out@.len() implies {
                &&& K::swire((#[trigger] out@[i2]).0.deep_view()) == self.key_wires()[i2]
                &&& self@.contains_key(self.key_wires()[i2])
                &&& out@[i2].1.deep_view() == self@[self.key_wires()[i2]]
            } by {
                lemma_map_of_at::<K, T>(self.entries@, i2);
            }
        }
        out
    }

    /// A snapshot of the keys, one for each key in the mapping.
    pub fn keys(&self) -> (r: Vec<K>)
        requires
            self.wf(),
        ensures
            r@.len() == self.key_wires().len(),
            forall|i: int|
                0 <= i < r@.len() ==> self@.contains_key(K::swire(#[trigger] r@[i].deep_view()))
                    && K::swire(r@[i].deep_view()) == self.key_wires()[i],
            forall|kb: Seq<u8>|
                self@.contains_key(kb) ==> exists|i: int|
                    0 <= i < r@.len() && K::swire(#[trigger] r@[i].deep_view()) == kb,
    {
        let n = self.entries.len();
        let mut out: Vec<K> = Vec::new();
        let mut i: usize = 0;
        while i < n
            invariant
                i <= n,
                n == self.entries@.len(),
                out@.len() == i,
                forall|j: int|
                    0 <= j < i ==> K::swire(#[trigger] out@[j].deep_view()) == K::swire(
                        self.entries@[j].0.deep_view(),
                    ),
            decreases n - i,
        {
            let entry: &(K, T) = &self.entries[i];
            out.push(entry.0.dup());
            i = i + 1;
        }
        proof {
            assert forall|i: int| 0 <= i < out@.len() implies self@.contains_key(
                K::swire(#[trigger] out@[i].deep_view()),
            ) by {
                lemma_map_of_at::<K, T>(self.entries@, i);
            }
            assert forall|kb: Seq<u8>| self@.contains_key(kb) implies exists|i: int|
                0 <= i < out@.len() && K::swire(#[trigger] out@[i].deep_view()) == kb by {
                lemma_map_of_contains::<K, T>(self.entries@, kb);
                let i = choose|i: int|
                    0 <= i < self.entries@.len() && K::swire(
                        #[trigger] self.entries@[i].0.deep_view(),
                    ) == kb;
                assert(K::swire(out@[i].deep_view()) == kb);
            }
        }
        out
    }
}

/// Write-through visibility: once an insert lands in the mapping, reading
/// the same key yields exactly the inserted value, with no log round trip.
pub proof fn lemma_write_through<K: Wire, T: Wire>(
    before: Map<Seq<u8>, <T as DeepView>::V>,
    key: K,
    value: T,
)
    ensures
        before.insert(K::swire(key.deep_view()), value.deep_view()).contains_key(
            K::swire(key.deep_view()),
        ),
        before.insert(K::swire(key.deep_view()), value.deep_view())[K::swire(key.deep_view())]
            == value.deep_view(),
{
}

/// Applying the same write twice leaves the same mapping, so the log
/// delivering an insert back to its writer changes nothing.
pub proof fn lemma_reapply_idempotent<K: Wire, T: Wire>(
    before: Map<Seq<u8>, <T as DeepView>::V>,
    key: K,
    value: T,
)
    ensures
        before.insert(K::swire(key.deep_view()), value.deep_view()).insert(
            K::swire(key.deep_view()),
            value.deep_view(),
        ) == before.insert(K::swire(key.deep_view()), value.deep_view()),
{
    let kb = K::swire(key.deep_view());
    let vv = value.deep_view();
    assert(before.insert(kb, vv).insert(kb, vv) =~= before.insert(kb, vv));
}

} // verus!

