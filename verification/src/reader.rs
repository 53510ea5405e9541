//! The replica reader: the decision core of bootstrap and tailing.
//!
//! The embedding program owns the consumer, polls it, and hands every stream
//! item to [`ReplicaReader::on_event`]: a record is decoded and dispatched to
//! the aggregate, an end-of-partition marker is folded into the EOF set, and
//! anything else is reported and skipped.  Bootstrap is complete exactly
//! when every partition of the topic has reported EOF at least once; the
//! loop keeps calling `on_event` afterwards to tail the log.  A record whose
//! key is missing or undecodable is skipped without touching the aggregate,
//! so one bad record never aborts bootstrap.

use vstd::prelude::*;
use crate::cache::{Cache, dispatched, cache_unchanged};
use crate::codec::sdec_wrapped;
use crate::map::{ReplicaCacheUpdate, UpdateView};
use crate::CacheError;

verus! {

/// One item handed back by the log consumer.
pub enum StreamEvent {
    /// A record: its partition, its physical key and its payload, each as
    /// the log carried them; an absent payload is a tombstone.
    Record { partition: i32, key: Option<Vec<u8>>, payload: Option<Vec<u8>> },
    /// The consumer reached the current end of this partition.
    PartitionEof { partition: i32 },
    /// A stream-level failure; carries nothing the cache could use.
    StreamError,
}

/// What one event did.
pub enum EventOutcome {
    /// A record was dispatched to the aggregate, with this outcome.
    Dispatched(Result<(), CacheError>),
    /// The record had no key, or its wrapped key did not decode; skipped.
    BadRecord,
    /// An end-of-partition marker was folded into the EOF set.
    EndOfPartition,
    /// A stream-level error; nothing changed.
    Skipped,
}

/// The update a record stands for: a `Put` of its payload, or a tombstone.
pub open spec fn record_update(user_key: Seq<u8>, payload: Option<Seq<u8>>) -> UpdateView {
    match payload {
        Some(p) => UpdateView::Put { key: user_key, payload: p },
        None => UpdateView::Delete { key: user_key },
    }
}

/// The reader's bootstrap state: which partitions the topic has, and which
/// of them have reported EOF so far.
pub struct ReplicaReader {
    partitions: Vec<i32>,
    eof: Vec<i32>,
}

impl ReplicaReader {
    /// The partitions of the replication topic.
    pub closed spec fn partitions_spec(&self) -> Seq<i32> {
        self.partitions@
    }

    /// The partitions that have reported EOF at least once.
    pub closed spec fn eof_marked(&self) -> Set<i32> {
        Set::new(|p: i32| self.eof@.contains(p))
    }

    /// Bootstrap is complete: every partition has reported EOF at least once.
    pub open spec fn complete_spec(&self) -> bool {
        forall|i: int|
            0 <= i < self.partitions_spec().len() ==> self.eof_marked().contains(
                #[trigger] self.partitions_spec()[i],
            )
    }

    /// A reader for a topic with these partitions, none of them at EOF yet.
    pub fn new(partitions: Vec<i32>) -> (r: ReplicaReader)
        ensures
            r.partitions_spec() == partitions@,
            r.eof_marked() == Set::<i32>::empty(),
    {
        let r = ReplicaReader { partitions, eof: Vec::new() };
        proof {
            assert(r.eof_marked() =~= Set::<i32>::empty());
        }
        r
    }

    /// Whether every partition has reported EOF at least once.  During
    /// bootstrap the loop stops consuming as soon as this holds.
    pub fn bootstrap_complete(&self) -> (r: bool)
        ensures
            r == self.complete_spec(),
    {
        let n = self.partitions.len();
        let mut i: usize = 0;
        while i < n
            invariant
                i <= n,
                n == self.partitions@.len(),
                forall|j: int|
                    0 <= j < i ==> self.eof_marked().contains(#[trigger] self.partitions@[j]),
            decreases n - i,
        {
            let p = self.partitions[i];
            if !contains_i32(&self.eof, p) {
                proof {
                    assert(!self.eof_marked().contains(p));
                    assert(self.partitions_spec()[i as int] == p);
                    assert(!self.complete_spec());
                }
                return false;
            }
            proof {
                assert(self.eof_marked().contains(self.partitions@[i as int]));
            }
            i = i + 1;
        }
        true
    }

    /// Feeds one stream item through the reader.
    ///
    /// A record with a decodable wrapped key is dispatched to the aggregate
    /// under the cache name the key carries; a record without a key, or with
    /// an undecodable one, is skipped and nothing changes.  An EOF marker
    /// adds its partition to the EOF set.  Stream errors change nothing.
    pub fn on_event(&mut self, cache: &mut Cache, ev: StreamEvent) -> (r: EventOutcome)
        requires
            old(cache).wf(),
        ensures
            final(cache).wf(),
            final(self).partitions_spec() == old(self).partitions_spec(),
            match ev {
                StreamEvent::Record { partition, key, payload } => {
                    &&& final(self).eof_marked() == old(self).eof_marked()
                    &&& match key {
                        Some(kb) => match sdec_wrapped(kb@) {
                            Some((name, user_key)) => r matches EventOutcome::Dispatched(r0)
                                && dispatched(
                                *old(cache),
                                *final(cache),
                                name,
                                record_update(user_key, payload.deep_view()),
                                r0,
                            ),
                            None => r == EventOutcome::BadRecord && cache_unchanged(
                                *old(cache),
                                *final(cache),
                            ),
                        },
                        None => r == EventOutcome::BadRecord && cache_unchanged(
                            *old(cache),
                            *final(cache),
                        ),
                    }
                },
                StreamEvent::PartitionEof { partition } => {
                    &&& r == EventOutcome::EndOfPartition
                    &&& final(self).eof_marked() == old(self).eof_marked().insert(partition)
                    &&& cache_unchanged(*old(cache), *final(cache))
                },
                StreamEvent::StreamError => {
                    &&& r == EventOutcome::Skipped
                    &&& final(self).eof_marked() == old(self).eof_marked()
                    &&& cache_unchanged(*old(cache), *final(cache))
                },
            },
    {
        match ev {
            StreamEvent::Record { partition: _, key, payload } => {
                let kb = match key {
                    Some(kb) => kb,
                    None => {
                        return EventOutcome::BadRecord;
                    },
                };
                let wrapped = match crate::codec::decode_wrapped_key(kb.as_slice()) {
                    Some(w) => w,
                    None => {
                        return EventOutcome::BadRecord;
                    },
                };
                let update = match payload {
                    Some(p) => {
                        proof {
                            assert(p.deep_view() =~= p@);
                        }
                        ReplicaCacheUpdate::Put {
                            key: vstd::slice::slice_to_vec(wrapped.serialized_key()),
                            payload: p,
                        }
                    },
                    None => ReplicaCacheUpdate::Delete {
                        key: vstd::slice::slice_to_vec(wrapped.serialized_key()),
                    },
                };
                let r0 = cache.receive_update(wrapped.cache_name(), update);
                EventOutcome::Dispatched(r0)
            },
            StreamEvent::PartitionEof { partition } => {
                if !contains_i32(&self.eof, partition) {
                    let ghost prev = self.eof@;
                    self.eof.push(partition);
                    proof {
                        assert forall|x: i32| self.eof@.contains(x) == (prev.contains(x) || x
                            == partition) by {
                            if prev.contains(x) {
                                let j = choose|j: int| 0 <= j < prev.len() && prev[j] == x;
                                assert(self.eof@[j] == x);
                            }
                            if x == partition {
                                assert(self.eof@[prev.len() as int] == x);
                            }
                            if self.eof@.contains(x) {
                                let j = choose|j: int|
                                    0 <= j < self.eof@.len() && self.eof@[j] == x;
                                if j < prev.len() {
                                    assert(prev[j] == x);
                                }
                            }
                        }
                        assert(self.eof_marked() =~= old(self).eof_marked().insert(partition));
                    }
                } else {
                    proof {
                        assert(self.eof_marked() =~= old(self).eof_marked().insert(partition));
                    }
                }
                EventOutcome::EndOfPartition
            },
            StreamEvent::StreamError => EventOutcome::Skipped,
        }
    }
}

/// Whether the vector holds this value.
fn contains_i32(v: &Vec<i32>, x: i32) -> (r: bool)
    ensures
        r == v@.contains(x),
{
    let n = v.len();
    let mut i: usize = 0;
    while i < n
        invariant
            i <= n,
            n == v@.len(),
            forall|j: int| 0 <= j < i ==> v@[j] != x,
        decreases n - i,
    {
        if v[i] == x {
            return true;
        }
        i = i + 1;
    }
    proof {
        if v@.contains(x) {
            let j = choose|j: int| 0 <= j < v@.len() && v@[j] == x;
            assert(false);
        }
    }
    false
}

/// The mapping after a list of `(key, value)` writes lands in order.
pub open spec fn apply_puts<V>(m0: Map<Seq<u8>, V>, log: Seq<(Seq<u8>, V)>) -> Map<Seq<u8>, V>
    decreases log.len(),
{
    if log.len() == 0 {
        m0
    } else {
        apply_puts(m0, log.drop_last()).insert(log.last().0, log.last().1)
    }
}

/// The value of the last write to a key in a log, if the key was written.
pub open spec fn last_put<V>(log: Seq<(Seq<u8>, V)>, kb: Seq<u8>) -> Option<V>
    decreases log.len(),
{
    if log.len() == 0 {
        None
    } else if log.last().0 == kb {
        Some(log.last().1)
    } else {
        last_put(log.drop_last(), kb)
    }
}

/// Bootstrap materializes the last write per key: replaying a log over a
/// mapping leaves each written key at its last written value, and every
/// unwritten key as it was.
pub proof fn lemma_bootstrap_last_write<V>(m0: Map<Seq<u8>, V>, log: Seq<(Seq<u8>, V)>, kb: Seq<u8>)
    ensures
        match last_put(log, kb) {
            Some(v) => apply_puts(m0, log).contains_key(kb) && apply_puts(m0, log)[kb] == v,
            None => {
                &&& apply_puts(m0, log).contains_key(kb) == m0.contains_key(kb)
                &&& m0.contains_key(kb) ==> apply_puts(m0, log)[kb] == m0[kb]
            },
        },
    decreases log.len(),
{
    if log.len() == 0 {
    } else {
        lemma_bootstrap_last_write(m0, log.drop_last(), kb);
    }
}

} // verus!
