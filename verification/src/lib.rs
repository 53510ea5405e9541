//! Core of a replicated in-memory cache for Kafka cluster metadata.
//!
//! Many web-server replicas mirror the same state (brokers, topics,
//! partitions, consumer groups, committed offsets, broker metrics) by using a
//! single compacted Kafka topic as a replication log.  Every replica rebuilds
//! its state from the log at startup and then tails it for live updates; any
//! replica may write, and a write becomes visible everywhere once the log
//! delivers it back.
//!
//! This crate holds the verified part of that design: the wire codec for keys
//! and values, the named replicated maps, the aggregate cache with its
//! dispatch by cache name, the bootstrap state machine of the log reader, and
//! the computation of consumer lag from watermarks.  The Kafka client calls
//! themselves (produce, poll, metadata and watermark queries) are I/O and are
//! driven by the embedding program, which feeds their results into the
//! functions of this crate.

use vstd::prelude::*;

pub mod wire;
pub mod codec;
pub mod types;
pub mod metadata;
pub mod map;
pub mod cache;
pub mod reader;
pub mod offsets;
pub mod search;

verus! {

/// The failures of the cache layer.
#[derive(Clone, Copy, Debug, PartialEq, Eq, Structural)]
pub enum CacheError {
    /// A key or value could not be turned into bytes for the log.
    SerializationError,
    /// The producer rejected a record, or the record is over the size cap.
    ProduceError,
    /// The log consumer could not be created.
    ConsumerCreationError,
    /// Topic metadata could not be fetched.
    MetadataFetchError,
    /// Bytes from the log do not decode to a key or value.
    DecodeError,
    /// An update names a cache that the aggregate does not hold.
    UnknownCacheName,
    /// No consumer handle is registered for the requested cluster.
    NoConsumer,
}

} // verus!
