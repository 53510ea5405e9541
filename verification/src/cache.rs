//! The aggregate cache: five named replicated maps.
//!
//! The aggregate is the update receiver of the log reader.  Given an update
//! and the cache name carried by its wrapped key, it forwards to the map of
//! that name and rejects unknown names without touching any map.

use vstd::prelude::*;
use crate::map::{ReplicatedMap, ReplicaCacheUpdate, UpdateView, applied};
use crate::metadata::{ClusterId, TopicName, BrokerId, Broker, Partition, Group, BrokerMetrics};
use crate::types::{Wire, str_eq};
use crate::CacheError;

verus! {

/// Broker throughput, by cluster and broker.
pub type MetricsCache = ReplicatedMap<(ClusterId, BrokerId), BrokerMetrics>;

/// Committed offsets, by cluster, group and topic; the index is the partition.
pub type OffsetsCache = ReplicatedMap<(ClusterId, String, TopicName), Vec<i64>>;

/// The brokers of each cluster.
pub type BrokerCache = ReplicatedMap<ClusterId, Vec<Broker>>;

/// The partitions of each topic.
pub type TopicCache = ReplicatedMap<(ClusterId, TopicName), Vec<Partition>>;

/// The consumer groups, by cluster and group name.
pub type GroupCache = ReplicatedMap<(ClusterId, String), Group>;

/// The aggregate of the five named maps.
pub struct Cache {
    pub metrics: MetricsCache,
    pub offsets: OffsetsCache,
    pub brokers: BrokerCache,
    pub topics: TopicCache,
    pub groups: GroupCache,
}

impl Cache {
    /// Every map is well formed and carries its fixed name.
    pub open spec fn wf(&self) -> bool {
        &&& self.metrics.wf() && self.metrics.name_spec() == "metrics"@
        &&& self.offsets.wf() && self.offsets.name_spec() == "offsets"@
        &&& self.brokers.wf() && self.brokers.name_spec() == "brokers"@
        &&& self.topics.wf() && self.topics.name_spec() == "topics"@
        &&& self.groups.wf() && self.groups.name_spec() == "groups"@
    }

    /// An empty aggregate with the five fixed map names.
    pub fn new() -> (r: Cache)
        ensures
            r.wf(),
            r.metrics@ == Map::<Seq<u8>, <BrokerMetrics as DeepView>::V>::empty(),
            r.offsets@ == Map::<Seq<u8>, Seq<i64>>::empty(),
            r.brokers@ == Map::<Seq<u8>, Seq<(i32, Seq<char>)>>::empty(),
            r.topics@ == Map::<Seq<u8>, <Vec<Partition> as DeepView>::V>::empty(),
            r.groups@ == Map::<Seq<u8>, <Group as DeepView>::V>::empty(),
    {
        Cache {
            metrics: ReplicatedMap::new("metrics"),
            offsets: ReplicatedMap::new("offsets"),
            brokers: ReplicatedMap::new("brokers"),
            topics: ReplicatedMap::new("topics"),
            groups: ReplicatedMap::new("groups"),
        }
    }

    /// Dispatches one update to the map named by its wrapped key.  Exactly
    /// the named map changes, as its own update rule says; any name other
    /// than the five is rejected with `UnknownCacheName` and nothing changes.
    pub fn receive_update(&mut self, cache_name: &str, update: ReplicaCacheUpdate) -> (r: Result<
        (),
        CacheError,
    >)
        requires
            old(self).wf(),
        ensures
            final(self).wf(),
            dispatched(*old(self), *final(self), cache_name@, update@, r),
    {
        if str_eq(cache_name, "metrics") {
            self.metrics.receive_update(update)
        } else if str_eq(cache_name, "offsets") {
            self.offsets.receive_update(update)
        } else if str_eq(cache_name, "brokers") {
            self.brokers.receive_update(update)
        } else if str_eq(cache_name, "topics") {
            self.topics.receive_update(update)
        } else if str_eq(cache_name, "groups") {
            self.groups.receive_update(update)
        } else {
            Err(CacheError::UnknownCacheName)
        }
    }
}

/// Holds when `c1` is `c0` after one update was dispatched by `name` with
/// outcome `r`: exactly the map called `name` changes, as its own update
/// rule says, and a name other than the five is rejected with
/// `UnknownCacheName`.
pub open spec fn dispatched(
    c0: Cache,
    c1: Cache,
    name: Seq<char>,
    update: UpdateView,
    r: Result<(), CacheError>,
) -> bool {
    if name == "metrics"@ {
        &&& applied::<(ClusterId, BrokerId), BrokerMetrics>(c0.metrics@, c1.metrics@, update, r)
        &&& c1.offsets@ == c0.offsets@
        &&& c1.brokers@ == c0.brokers@
        &&& c1.topics@ == c0.topics@
        &&& c1.groups@ == c0.groups@
    } else if name == "offsets"@ {
        &&& applied::<(ClusterId, String, TopicName), Vec<i64>>(c0.offsets@, c1.offsets@, update, r)
        &&& c1.metrics@ == c0.metrics@
        &&& c1.brokers@ == c0.brokers@
        &&& c1.topics@ == c0.topics@
        &&& c1.groups@ == c0.groups@
    } else if name == "brokers"@ {
        &&& applied::<ClusterId, Vec<Broker>>(c0.brokers@, c1.brokers@, update, r)
        &&& c1.metrics@ == c0.metrics@
        &&& c1.offsets@ == c0.offsets@
        &&& c1.topics@ == c0.topics@
        &&& c1.groups@ == c0.groups@
    } else if name == "topics"@ {
        &&& applied::<(ClusterId, TopicName), Vec<Partition>>(c0.topics@, c1.topics@, update, r)
        &&& c1.metrics@ == c0.metrics@
        &&& c1.offsets@ == c0.offsets@
        &&& c1.brokers@ == c0.brokers@
        &&& c1.groups@ == c0.groups@
    } else if name == "groups"@ {
        &&& applied::<(ClusterId, String), Group>(c0.groups@, c1.groups@, update, r)
        &&& c1.metrics@ == c0.metrics@
        &&& c1.offsets@ == c0.offsets@
        &&& c1.brokers@ == c0.brokers@
        &&& c1.topics@ == c0.topics@
    } else {
        &&& r == Err::<(), CacheError>(CacheError::UnknownCacheName)
        &&& cache_unchanged(c0, c1)
    }
}

/// The five mappings agree between the two aggregate states.
pub open spec fn cache_unchanged(c0: Cache, c1: Cache) -> bool {
    &&& c1.metrics@ == c0.metrics@
    &&& c1.offsets@ == c0.offsets@
    &&& c1.brokers@ == c0.brokers@
    &&& c1.topics@ == c0.topics@
    &&& c1.groups@ == c0.groups@
}

} // verus!
