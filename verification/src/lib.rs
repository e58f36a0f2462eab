//! A self-hosted file-vault synchronization backend.
//!
//! A client reconciles its local file set against an authoritative per-user
//! store on the server, exchanging minimal deltas so that only files that
//! actually differ are transferred. The core is the metadata reconciliation
//! algorithm together with the per-user store that backs it and the
//! session/authentication layer that gates access to a user's store.

pub mod db;
pub mod error;
pub mod file_process;
pub mod laws;
pub mod protocol;
pub mod request;
pub mod user;
