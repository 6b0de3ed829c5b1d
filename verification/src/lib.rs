//! Core of a multiplayer game-state replication engine.
//!
//! A server walks an entity-component world each tick and packs what changed
//! into two message classes: *updates* (spawns, despawns, insertions, removals
//! and entity mappings, sent reliably and in order) and *mutations* (pure
//! component-value changes, sent unordered). A client decodes both, reconciles
//! out-of-order mutations against a per-entity confirmed-tick history, and
//! mutates its local world, acknowledging every mutate message it received.
//!
//! The wire format, the tick arithmetic, the reconciliation rules and the
//! channel bookkeeping are all verified here. The entity-component store
//! itself and the datagram transport are outside collaborators: their data is
//! modelled as plain values, and the few byte-encoding primitives taken from
//! outside crates are declared with explicit contracts.

pub mod acks;
pub mod applier;
pub mod archetypes;
pub mod buffer;
pub mod buffered;
pub mod builder;
pub mod channels;
pub mod codec;
pub mod confirmed;
pub mod connected_clients;
pub mod ctx;
pub mod entity;
pub mod entity_serde;
pub mod idempotence;
pub mod messages;
pub mod registry;
pub mod replicon_client;
pub mod replicon_server;
pub mod server_entity_map;
pub mod shared_bytes;
pub mod tick;
pub mod world;
