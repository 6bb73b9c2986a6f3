//! Replication core of a peer-to-peer messenger.
//!
//! Every participant keeps its own replica of channels and messages. The
//! types here make replicas converge without a server: hybrid logical and
//! vector clocks stamp events, a last-write-wins register and an
//! observed-remove set carry channel metadata, a message graph keeps the
//! causal order of messages, and the sync engine decides which frames to
//! emit in answer to which events.

pub mod outside;
pub mod collect;
pub mod setmap;
pub mod sorted;
pub mod ids;
pub mod crdt;
pub mod vector_clock;
pub mod message;
pub mod channel;
pub mod dag;
pub mod network;
pub mod protocol;
pub mod sync;
pub mod notify;
pub mod peer;

pub use ids::{ChannelId, MessageId, PeerId};
pub use vector_clock::VectorClock;
pub use message::{Message, MessageContent};
pub use channel::{Channel, ChannelType};
pub use dag::{DagError, MessageDAG};
