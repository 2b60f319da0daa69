//! Duplicate-file detection for a single directory.
//!
//! Files are narrowed down in stages: first by byte size, then, in strict
//! mode, by a SHA-256 content digest. The crate also resolves previews of
//! listed files and aggregates the outcome of moving files to the trash.
//!
//! Nothing here touches the filesystem. The caller lists the directory, reads
//! and deletes files, and hands over what it observed as plain values; every
//! decision on those values is made, and proved, in this crate.

pub mod grouper;
pub mod hasher;
pub mod lines;
pub mod order;
pub mod partition;
pub mod preview;
pub mod scan;
pub mod stages;
pub mod text;
pub mod theorems;
pub mod trash;

pub use crate::hasher::{hash_bytes, ContentHasher};
pub use crate::preview::{get_preview, FilePreview, PreviewError, PreviewStep};
pub use crate::scan::{
    hash_candidates, scan_for_duplicates, DirectoryListing, DuplicateGroup, FileInfo, ListedEntry,
    ScanError,
};
pub use crate::trash::{
    delete_files_to_trash, trash_step, DeleteError, DeleteResult, TrashAttempt, TrashOutcome,
    TrashStep,
};
