//! Reconciles a directory of torrent descriptors with a directory of
//! downloaded content.
//!
//! A descriptor names the content that it stands for; the content lies in
//! the source directory under that name. The library reads the names out of
//! the descriptors, collects the names that a walk through the source
//! directory found, and sorts them into three classes: content that a
//! descriptor speaks of (known), content that none speaks of (orphaned), and
//! descriptors whose content is not there (missed).
//!
//! Nothing here touches the file system. The caller walks the directories
//! and reads the files, and hands over what it found as plain values: see
//! [`walk`]. What comes back is a report as a list of messages, or the error
//! that ended the run: see [`actions::inspect`].

pub mod actions;
pub mod bencode;
pub mod encoding;
pub mod errors;
pub mod framing;
pub mod layout;
pub mod names;
pub mod report;
pub mod scan;
pub mod text;
pub mod torrent;
pub mod walk;
