//! Durable first-in first-out queues kept as segmented append-only logs.

pub mod api_laws;
pub mod append;
pub mod append_laws;
pub mod backfill;
pub mod backlog;
pub mod bytes;
pub mod cbor;
pub mod checksum;
pub mod crash;
pub mod cursors;
pub mod damage_laws;
pub mod disk;
pub mod drain_laws;
pub mod error;
pub mod faults;
pub mod files;
pub mod format_laws;
pub mod head;
pub mod io;
pub mod laws;
pub mod log;
pub mod memory;
pub mod name_map;
pub mod names;
pub mod open;
pub mod pos;
pub mod queue;
pub mod read;
pub mod read_laws;
pub mod reader;
pub mod record;
pub mod recovery;
pub mod repo;
pub mod repo_laws;
pub mod repo_ops;
pub mod repo_runs;
pub mod scan;
pub mod shards;
pub mod storage;
pub mod storage_laws;
pub mod storage_open;
pub mod workers;
