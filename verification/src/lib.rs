//! Recursively classifies filesystem entries as directories, text files or
//! non-text files, tallies how often each character occurs in the text files,
//! and prepares a frequency table sorted by descending count.
//!
//! The crate works on plain values: a directory tree is handed in as an
//! [`tree::Entry`], where each regular file carries its decoded contents
//! (`Some`) or the mark that it could not be read or decoded (`None`).
//! Reading the filesystem, timing and printing stay outside the library.

pub mod counter;
pub mod report;
pub mod tree;
