//! The core of an Ethereum sentry node, with machine-checked contracts.
//!
//! A sentry speaks Ethereum's peer-to-peer protocols, keeps a population of
//! peers, and hands what they send to a service behind it.  This library is
//! the part that decides: it holds no socket and no channel, and every
//! function says what it returns and what it changes.
//!
//! * [`primitives`], [`peer_id`], [`types`], [`node_record`]: who a peer
//!   is and where it is reached; the `enode://` form of a node record.
//! * [`util`], [`wire`]: digests, hexadecimal text, and the frames of the
//!   wire format.
//! * [`events`], [`eth`]: what travels between the transport and the
//!   capability server, and the status handshake of the `eth` capability.
//! * [`keyed`], [`block_tracker`], [`pipes`]: the containers of the
//!   server's state.
//! * [`server`], [`lifecycle`]: the capability server as a state machine,
//!   and what holds of it over whole runs.
//! * [`swarm`], [`discovery`]: who may connect, and which source of peer
//!   addresses is served next.
//! * [`config`]: what the node is started with.

pub mod block_tracker;
pub mod config;
pub mod discovery;
pub mod eth;
pub mod events;
pub mod keyed;
pub mod lifecycle;
pub mod node_record;
pub mod peer_id;
pub mod pipes;
pub mod primitives;
pub mod server;
pub mod swarm;
pub mod types;
pub mod util;
pub mod wire;
