//! Trigram-indexed regex search over source trees.
//!
//! The library turns file contents into an inverted index of three-byte
//! substrings, lays that index out in bytes, reads it back, decomposes a regular
//! expression into trigram lookups, and narrows a search to the files that can
//! match. Reading directories and files, running ripgrep and printing are left
//! to the program around it.
//!
//! - Building: [`ngram`], [`indexer`], [`freshness`], [`sorting`], [`walk`]
//! - Layout: [`postings`], [`storage`], [`filemeta`], [`metadata`]
//! - Queries: [`pattern`], [`query`], [`candidates`]
//! - Searching: [`matching`], [`scan`], [`filter`], [`ordering`], [`search`],
//!   [`unindexed`], [`rg`]
//! - Output: [`render`], [`report`], [`command`]
//! - Why it works: [`narrowing`], [`completeness`], [`laws`], [`trees`], [`agreement`],
//!   [`reported`], [`shown`], [`json`], [`finding`],
//!   [`layout`], [`messages`], [`events`], [`models`]

pub mod agreement;
pub mod candidates;
pub mod command;
pub mod completeness;
pub mod error;
pub mod events;
pub mod filemeta;
pub mod filter;
pub mod finding;
pub mod freshness;
pub mod indexer;
pub mod json;
pub mod laws;
pub mod layout;
pub mod matching;
pub mod messages;
pub mod metadata;
pub mod models;
pub mod narrowing;
pub mod ngram;
pub mod ordering;
pub mod pattern;
pub mod postings;
pub mod query;
pub mod render;
pub mod report;
pub mod reported;
pub mod rg;
pub mod scan;
pub mod search;
pub mod shown;
pub mod sorting;
pub mod storage;
pub mod text;
pub mod trees;
pub mod unindexed;
pub mod walk;
