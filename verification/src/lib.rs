//! Verified core of the MuduDB installer and version manager.

pub mod text;
pub mod remote;
pub mod checksum;
pub mod libs;
pub mod archive;
pub mod toolchain;
pub mod self_update;
