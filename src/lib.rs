//! Keeps a Wayland clipboard and an X11 clipboard mirrored.
//!
//! The library holds the decisions: which value seeds the backends at
//! startup, which backend changed and who must be written to, and which
//! session is probed next while looking for a live display. The program
//! around it performs the reads, writes, probes and pauses.
pub mod clipboard;
pub mod discovery;
pub mod sync;
