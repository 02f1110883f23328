//! The segment layer of a blob store: how segments are filled, sealed, found,
//! repaired and recovered.
//!
//! Blobs are appended to active segments in pools ([`pool`], [`buffer`]). A full
//! or idle segment is sealed into a data file ([`seal_pipeline`], [`header`],
//! [`parity_section`]). Each segment's life is kept in a registry
//! ([`lifecycle`]) whose transitions are written to an event log
//! ([`coordinator`], [`event_wal`], [`event_checkpoint`]) and folded back at
//! start-up ([`recovery`], [`startup`], [`data_pass`]). Everything here works on
//! values; reading and writing files is left to the caller.

pub mod append_laws;
pub mod buf;
pub mod buffer;
pub mod checksum;
pub mod codec;
pub mod coordinator;
pub mod coordinator_laws;
pub mod dat_name;
pub mod data_pass;
pub mod data_store;
pub mod encoding;
pub mod error;
pub mod event_checkpoint;
pub mod event_laws;
pub mod event_reader;
pub mod event_record;
pub mod event_wal;
pub mod handle;
pub mod header;
pub mod index;
pub mod layout_laws;
pub mod lifecycle;
pub mod lifecycle_laws;
pub mod metadata_codec;
pub mod mirror;
pub mod mirror_laws;
pub mod node_list;
pub mod parity_section;
pub mod pool;
pub mod pool_laws;
pub mod recovery;
pub mod recovery_laws;
pub mod relocate;
pub mod repair;
pub mod repair_laws;
pub mod replay_laws;
pub mod route_write;
pub mod seal_batch;
pub mod seal_laws;
pub mod seal_pipeline;
pub mod startup;
pub mod startup_laws;
pub mod text;
pub mod types;
pub mod verify_laws;
