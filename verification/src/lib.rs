//! Packages a project's own source tree into a gzip-compressed tar archive
//! and exposes the bytes through a single fixed HTTP route.
//!
//! The pipeline is linear: select files under a root directory, build one
//! archive blob in memory, persist it once at build time, and serve the
//! embedded bytes verbatim at request time.

pub mod archive;
pub mod respond;
pub mod selector;
