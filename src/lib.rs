//! Incremental mirroring of IMAP mailboxes into append-only mbox archives.
//!
//! The library holds the archive codec (record boundaries on read, record
//! framing on write), the message-id index built from an archive, and the
//! decisions of a synchronisation run; the program around it performs the
//! network and file operations.

pub mod parser;
pub mod file;
pub mod writer;
pub mod index;
pub mod sync;
pub mod layout;
pub mod session;
