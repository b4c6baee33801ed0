//! A binary-patch engine for a legacy game-archive ecosystem.
//!
//! The library ingests an ordered stream of patch packages (a legacy tagged
//! format or ZIP), demultiplexes each package's entries into a monolithic
//! container file in the install tree and loose files on disk, and merges
//! container-destined entries by appending payloads and rewriting the trailing
//! entry table. Applied patches are tracked in a small local cache so that
//! later runs apply only the delta.
//!
//! The host around the library performs all I/O: it fetches the manifest and
//! the packages, reads and writes the container image and the loose files,
//! and persists the cache. Everything the library decides — parsing, routing,
//! merging, ordering, cache arithmetic — is verified.

pub mod codec;
pub mod config;
pub mod engine;
pub mod fmt;
pub mod grf;
pub mod laws;
pub mod patch_list;
pub mod thor;
pub mod zip_pkg;
pub mod zlib;
