//! Snapshot save and load for a live entity store.
//!
//! Entities carry typed attachments (components) and may reference one
//! another.  Saving captures a filtered snapshot of the store, encodes it to
//! bytes and restores the store; loading decodes bytes, clears the entities
//! that are to be replaced, instantiates the snapshot under fresh identities
//! and rewrites every reference into the new identity space.

pub mod entity;
pub mod table;
pub mod value;
pub mod filter;
pub mod world;
pub mod mapper;
pub mod snapshot;
pub mod codec;
pub mod save;
pub mod load;
