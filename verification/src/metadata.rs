//! The cluster metadata the cache mirrors.
//!
//! These are the key and value shapes of the five named maps: broker and
//! partition records, consumer groups and their members, committed offsets,
//! and broker throughput metrics.  Each one implements [`Wire`] by delegating
//! to the tuple of its fields, so the generic codecs and their round-trip
//! proofs carry over unchanged.

use vstd::prelude::*;
use crate::types::Wire;

verus! {

/// Identifies a cluster in the console's configuration.
pub type ClusterId = String;

/// A topic's name.
pub type TopicName = String;

/// A broker's numeric id.
pub type BrokerId = i32;

/// Throughput of one topic on one broker: the byte rate and the message
/// rate, both as IEEE 754 bit patterns.  The cache stores and replicates
/// them; arithmetic on the rates happens outside this crate.
pub type TopicRates = (u64, u64);

/// A Kafka broker.
pub struct Broker {
    pub id: BrokerId,
    pub hostname: String,
}

impl View for Broker {
    type V = (i32, Seq<char>);

    open spec fn view(&self) -> (i32, Seq<char>) {
        (self.id, self.hostname@)
    }
}

impl DeepView for Broker {
    type V = (i32, Seq<char>);

    open spec fn deep_view(&self) -> (i32, Seq<char>) {
        self@
    }
}

impl Wire for Broker {
    open spec fn swire(v: (i32, Seq<char>)) -> Seq<u8> {
        <(i32, String) as Wire>::swire(v)
    }

    open spec fn wire_fine(v: (i32, Seq<char>)) -> bool {
        <(i32, String) as Wire>::wire_fine(v)
    }

    open spec fn from_wire(b: Seq<u8>) -> Option<(i32, Seq<char>)> {
        <(i32, String) as Wire>::from_wire(b)
    }

    proof fn lemma_round_trip(v: (i32, Seq<char>)) {
        <(i32, String) as Wire>::lemma_round_trip(v);
    }

    fn encode(&self) -> (r: Vec<u8>) {
        let t: (i32, String) = (self.id, self.hostname.clone());
        t.encode()
    }

    fn decode(b: &[u8]) -> (r: Option<Broker>) {
        match <(i32, String) as Wire>::decode(b) {
            Some(t) => Some(Broker { id: t.0, hostname: t.1 }),
            None => None,
        }
    }

    fn dup(&self) -> (r: Broker) {
        Broker { id: self.id, hostname: self.hostname.clone() }
    }
}

/// One partition of a topic, with its replication state.
pub struct Partition {
    pub id: i32,
    pub leader: BrokerId,
    pub replicas: Vec<BrokerId>,
    pub isr: Vec<BrokerId>,
    pub error: Option<String>,
}

impl View for Partition {
    type V = ((i32, i32), (Seq<i32>, Seq<i32>, Option<Seq<char>>));

    open spec fn view(&self) -> ((i32, i32), (Seq<i32>, Seq<i32>, Option<Seq<char>>)) {
        ((self.id, self.leader), (self.replicas.deep_view(), self.isr.deep_view(), self.error.deep_view()))
    }
}

impl DeepView for Partition {
    type V = ((i32, i32), (Seq<i32>, Seq<i32>, Option<Seq<char>>));

    open spec fn deep_view(&self) -> ((i32, i32), (Seq<i32>, Seq<i32>, Option<Seq<char>>)) {
        self@
    }
}

impl Wire for Partition {
    open spec fn swire(v: ((i32, i32), (Seq<i32>, Seq<i32>, Option<Seq<char>>))) -> Seq<u8> {
        <((i32, i32), (Vec<i32>, Vec<i32>, Option<String>)) as Wire>::swire(v)
    }

    open spec fn wire_fine(v: ((i32, i32), (Seq<i32>, Seq<i32>, Option<Seq<char>>))) -> bool {
        <((i32, i32), (Vec<i32>, Vec<i32>, Option<String>)) as Wire>::wire_fine(v)
    }

    open spec fn from_wire(b: Seq<u8>) -> Option<
        ((i32, i32), (Seq<i32>, Seq<i32>, Option<Seq<char>>)),
    > {
        <((i32, i32), (Vec<i32>, Vec<i32>, Option<String>)) as Wire>::from_wire(b)
    }

    proof fn lemma_round_trip(v: ((i32, i32), (Seq<i32>, Seq<i32>, Option<Seq<char>>))) {
        <((i32, i32), (Vec<i32>, Vec<i32>, Option<String>)) as Wire>::lemma_round_trip(v);
    }

    fn encode(&self) -> (r: Vec<u8>) {
        let t: ((i32, i32), (Vec<i32>, Vec<i32>, Option<String>)) = (
            (self.id, self.leader),
            (self.replicas.dup(), self.isr.dup(), self.error.dup()),
        );
        t.encode()
    }

    fn decode(b: &[u8]) -> (r: Option<Partition>) {
        match <((i32, i32), (Vec<i32>, Vec<i32>, Option<String>)) as Wire>::decode(b) {
            Some(t) => Some(
                Partition {
                    id: t.0.0,
                    leader: t.0.1,
                    replicas: t.1.0,
                    isr: t.1.1,
                    error: t.1.2,
                },
            ),
            None => None,
        }
    }

    fn dup(&self) -> (r: Partition) {
        Partition {
            id: self.id,
            leader: self.leader,
            replicas: self.replicas.dup(),
            isr: self.isr.dup(),
            error: self.error.dup(),
        }
    }
}

/// A member of a consumer group.
pub struct GroupMember {
    pub id: String,
    pub client_id: String,
    pub client_host: String,
}

impl View for GroupMember {
    type V = (Seq<char>, Seq<char>, Seq<char>);

    open spec fn view(&self) -> (Seq<char>, Seq<char>, Seq<char>) {
        (self.id@, self.client_id@, self.client_host@)
    }
}

impl DeepView for GroupMember {
    type V = (Seq<char>, Seq<char>, Seq<char>);

    open spec fn deep_view(&self) -> (Seq<char>, Seq<char>, Seq<char>) {
        self@
    }
}

impl Wire for GroupMember {
    open spec fn swire(v: (Seq<char>, Seq<char>, Seq<char>)) -> Seq<u8> {
        <(String, String, String) as Wire>::swire(v)
    }

    open spec fn wire_fine(v: (Seq<char>, Seq<char>, Seq<char>)) -> bool {
        <(String, String, String) as Wire>::wire_fine(v)
    }

    open spec fn from_wire(b: Seq<u8>) -> Option<(Seq<char>, Seq<char>, Seq<char>)> {
        <(String, String, String) as Wire>::from_wire(b)
    }

    proof fn lemma_round_trip(v: (Seq<char>, Seq<char>, Seq<char>)) {
        <(String, String, String) as Wire>::lemma_round_trip(v);
    }

    fn encode(&self) -> (r: Vec<u8>) {
        let t: (String, String, String) = (
            self.id.clone(),
            self.client_id.clone(),
            self.client_host.clone(),
        );
        t.encode()
    }

    fn decode(b: &[u8]) -> (r: Option<GroupMember>) {
        match <(String, String, String) as Wire>::decode(b) {
            Some(t) => Some(GroupMember { id: t.0, client_id: t.1, client_host: t.2 }),
            None => None,
        }
    }

    fn dup(&self) -> (r: GroupMember) {
        GroupMember {
            id: self.id.clone(),
            client_id: self.client_id.clone(),
            client_host: self.client_host.clone(),
        }
    }
}

/// A consumer group: its name, state, and registered members.
pub struct Group {
    pub name: String,
    pub state: String,
    pub members: Vec<GroupMember>,
}

impl View for Group {
    type V = (Seq<char>, Seq<char>, Seq<(Seq<char>, Seq<char>, Seq<char>)>);

    open spec fn view(&self) -> (Seq<char>, Seq<char>, Seq<(Seq<char>, Seq<char>, Seq<char>)>) {
        (self.name@, self.state@, self.members.deep_view())
    }
}

impl DeepView for Group {
    type V = (Seq<char>, Seq<char>, Seq<(Seq<char>, Seq<char>, Seq<char>)>);

    open spec fn deep_view(&self) -> (
        Seq<char>,
        Seq<char>,
        Seq<(Seq<char>, Seq<char>, Seq<char>)>,
    ) {
        self@
    }
}

impl Wire for Group {
    open spec fn swire(
        v: (Seq<char>, Seq<char>, Seq<(Seq<char>, Seq<char>, Seq<char>)>),
    ) -> Seq<u8> {
        <(String, String, Vec<GroupMember>) as Wire>::swire(v)
    }

    open spec fn wire_fine(
        v: (Seq<char>, Seq<char>, Seq<(Seq<char>, Seq<char>, Seq<char>)>),
    ) -> bool {
        <(String, String, Vec<GroupMember>) as Wire>::wire_fine(v)
    }

    open spec fn from_wire(b: Seq<u8>) -> Option<
        (Seq<char>, Seq<char>, Seq<(Seq<char>, Seq<char>, Seq<char>)>),
    > {
        <(String, String, Vec<GroupMember>) as Wire>::from_wire(b)
    }

    proof fn lemma_round_trip(v: (Seq<char>, Seq<char>, Seq<(Seq<char>, Seq<char>, Seq<char>)>)) {
        <(String, String, Vec<GroupMember>) as Wire>::lemma_round_trip(v);
    }

    fn encode(&self) -> (r: Vec<u8>) {
        let t: (String, String, Vec<GroupMember>) = (
            self.name.clone(),
            self.state.clone(),
            self.members.dup(),
        );
        t.encode()
    }

    fn decode(b: &[u8]) -> (r: Option<Group>) {
        match <(String, String, Vec<GroupMember>) as Wire>::decode(b) {
            Some(t) => Some(Group { name: t.0, state: t.1, members: t.2 }),
            None => None,
        }
    }

    fn dup(&self) -> (r: Group) {
        Group { name: self.name.clone(), state: self.state.clone(), members: self.members.dup() }
    }
}

/// Per-broker throughput: a rate pair for each topic on the broker, plus the
/// broker-wide aggregate entry that the scraper stores under its own name.
pub struct BrokerMetrics {
    pub topics: Vec<(TopicName, TopicRates)>,
}

impl View for BrokerMetrics {
    type V = Seq<(Seq<char>, (u64, u64))>;

    open spec fn view(&self) -> Seq<(Seq<char>, (u64, u64))> {
        self.topics.deep_view()
    }
}

impl DeepView for BrokerMetrics {
    type V = Seq<(Seq<char>, (u64, u64))>;

    open spec fn deep_view(&self) -> Seq<(Seq<char>, (u64, u64))> {
        self@
    }
}

impl Wire for BrokerMetrics {
    open spec fn swire(v: Seq<(Seq<char>, (u64, u64))>) -> Seq<u8> {
        <Vec<(String, (u64, u64))> as Wire>::swire(v)
    }

    open spec fn wire_fine(v: Seq<(Seq<char>, (u64, u64))>) -> bool {
        <Vec<(String, (u64, u64))> as Wire>::wire_fine(v)
    }

    open spec fn from_wire(b: Seq<u8>) -> Option<Seq<(Seq<char>, (u64, u64))>> {
        <Vec<(String, (u64, u64))> as Wire>::from_wire(b)
    }

    proof fn lemma_round_trip(v: Seq<(Seq<char>, (u64, u64))>) {
        <Vec<(String, (u64, u64))> as Wire>::lemma_round_trip(v);
    }

    fn encode(&self) -> (r: Vec<u8>) {
        self.topics.encode()
    }

    fn decode(b: &[u8]) -> (r: Option<BrokerMetrics>) {
        match <Vec<(String, (u64, u64))> as Wire>::decode(b) {
            Some(t) => Some(BrokerMetrics { topics: t }),
            None => None,
        }
    }

    fn dup(&self) -> (r: BrokerMetrics) {
        BrokerMetrics { topics: self.topics.dup() }
    }
}

impl BrokerMetrics {
    /// The rate pair stored for `topic`, from the first entry with that name.
    pub fn topic_rates(&self, topic: &str) -> (r: Option<TopicRates>)
        ensures
            match r {
                Some(rates) => exists|i: int|
                    0 <= i < self@.len() && #[trigger] self@[i] == (topic@, rates),
                None => forall|i: int| 0 <= i < self@.len() ==> (#[trigger] self@[i]).0 != topic@,
            },
    {
        let n = self.topics.len();
        let mut i: usize = 0;
        while i < n
            invariant
                i <= n,
                n == self.topics@.len(),
                self@.len() == n,
                forall|j: int| 0 <= j < i ==> (#[trigger] self@[j]).0 != topic@,
            decreases n - i,
        {
            let entry: &(String, TopicRates) = &self.topics[i];
            proof {
                assert(self@[i as int] == (self.topics@[i as int].0@, self.topics@[i as int].1));
            }
            if crate::types::str_eq(entry.0.as_str(), topic) {
                return Some(entry.1);
            }
            i = i + 1;
        }
        None
    }
}

} // verus!
