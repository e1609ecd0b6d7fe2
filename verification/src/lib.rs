//! The decisions behind linking plugin static archives into a macOS loadable
//! bundle: how an archive is read, which of its members are kept, how the linker
//! is called, and in which order the work is done.
//!
//! The library works on plain values. Files and tools are for its caller.

pub mod archive;
pub mod archive_laws;
pub mod dedupe;
pub mod dedupe_laws;
pub mod link;
pub mod link_laws;
pub mod reading_laws;
pub mod run_laws;
pub mod text;
pub mod text_laws;
pub mod tool;
