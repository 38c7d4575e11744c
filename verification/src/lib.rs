//! Unlocking of contested owned objects.
//!
//! Two mechanisms stand side by side. Snapper runs inside consensus: the
//! authorities declare in their blocks where they stand on each object version,
//! and certificates are read off the block graph. FastUnlock (the modules named
//! `cuttlefish`) runs beside consensus: a client collects votes to unlock an
//! object version, and consensus only sequences the certificate.
//!
//! - [`keys`], [`protocol`], [`envelope`], [`block`]: what blocks and
//!   transactions carry.
//! - [`order`], [`order_laws`], [`sorted_map`], [`sorted_set`], [`seqs`],
//!   [`bytes`]: ordered collections and bytes.
//! - [`committee`]: stakes and quorums.
//! - [`state`], [`recovery`], [`state_laws`]: what an authority has learnt, and
//!   what it never forgets.
//! - [`dag`], [`block_graph`], [`graph_laws`]: Snapper's predicates on the block
//!   graph, their evaluation, and what they mean.
//! - [`resolution`], [`tracker_model`], [`vote_tracker`],
//!   [`transaction_vote_tracker`], [`tracker_laws`], [`casting_laws`],
//!   [`anchor_laws`], [`reject_laws`]: how votes are counted and cast, and
//!   objects decided.
//! - [`cuttlefish`], [`cuttlefish_wire`], [`cuttlefish_exchange`],
//!   [`cuttlefish_laws`]: FastUnlock and its messages.
//! - [`evaluation`], [`evaluation_laws`]: the workload of the comparison and its
//!   accounting.

pub mod anchor_laws;
pub mod block;
pub mod block_graph;
pub mod bytes;
pub mod casting_laws;
pub mod committee;
pub mod cuttlefish;
pub mod cuttlefish_exchange;
pub mod cuttlefish_laws;
pub mod cuttlefish_wire;
pub mod dag;
pub mod envelope;
pub mod evaluation;
pub mod evaluation_laws;
pub mod graph_laws;
pub mod keys;
pub mod order;
pub mod order_laws;
pub mod protocol;
pub mod recovery;
pub mod reject_laws;
pub mod resolution;
pub mod seqs;
pub mod sorted_map;
pub mod sorted_set;
pub mod state;
pub mod state_laws;
pub mod tracker_laws;
pub mod tracker_model;
pub mod transaction_vote_tracker;
pub mod vote_tracker;
