//! Core of a real-time conversational messaging service.
//!
//! Clients post messages addressed to a named conversation or to a peer's
//! default mailbox.  Accepted envelopes go to a durable queue; batched
//! workers drain the queue into the persistent store with idempotent
//! semantics; a session registry routes payloads to currently connected
//! recipients; and a receipt sub-pipeline mirrors the same design for
//! delivery, read and reaction events.
//!
//! This crate holds the verified rules of that pipeline: the data model,
//! the store semantics (idempotent message insert, monotone receipt merge,
//! filtered retrieval), the durable-queue and batch-worker model, the
//! session registry and session state machine, the participant cache, the
//! write-path decisions, and the wire encoding of envelopes and receipts.
//! The unverified chassis (HTTP routing, SQL, Redis, sockets) lives outside
//! and exchanges plain values with these functions.
//!
//! The guarantees the pipeline rests on are stated as contracts and proof
//! functions: duplicate publishes collapse to one row
//! ([`store::lemma_idempotent_persistence`]); receipts never regress and
//! reactions are last-non-null-writer-wins
//! ([`receipts::lemma_receipt_monotonicity`]); everything published before
//! a worker crash is persisted by the next pass and then fetchable
//! ([`queue::lemma_at_least_once`], [`queue::lemma_published_is_fetchable`]);
//! a post is accepted exactly when its source participates, and fans out
//! to exactly the other participants ([`write_path::post_message`]); the
//! registry holds at most one sink per principal
//! ([`registry::lemma_session_uniqueness`]); a persisted message is
//! returned exactly once by a fetch of its mailbox
//! ([`store::lemma_post_then_fetch`]); and the receipts fetched after a
//! reaction sequence show the last non-null reaction
//! ([`receipts::lemma_react_then_get_receipts`]).

pub mod cache;
pub mod directory;
pub mod models;
pub mod queue;
pub mod receipts;
pub mod registry;
pub mod session;
pub mod store;
pub mod wire;
pub mod write_path;
