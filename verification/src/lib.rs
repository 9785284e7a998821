//! Content-level change detection for directory trees.
//!
//! A file is cut into content-defined chunks, each chunk is identified by
//! the lowercase hexadecimal form of its BLAKE3 digest, and the ordered
//! digests of a file are its fingerprint. Two scans of a tree are compared
//! path by path, which yields the create, delete and copy operations that
//! bring a mirror of the first scan up to the second.

pub mod chunker;
pub mod diff;
pub mod fingerprint;
pub mod fingerprinter;
pub mod hasher;
pub mod hex;
pub mod priority;
pub mod report;
pub mod scanner;
pub mod scheduler;
