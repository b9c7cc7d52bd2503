//! Basic extensions for Rust programs: ordered searches, bounded top-N
//! queues, insertion-ordered maps, histograms, path and directory helpers
//! on path text, replacement tables and tab-separated records, HTML
//! element trees and the searches over them, narrowing down addresses in
//! binary data, AES encryption and identifiers.

pub mod algo;
pub mod collections;
pub mod m;
pub mod text;
pub mod fs;
pub mod encryptor;
pub mod app;
pub mod complete_by;
pub mod int_enum;
pub mod id;
pub mod html;
pub mod dom;
pub mod encoding;
pub mod searcher;
pub mod c;
pub mod dir;
pub mod req;
pub mod db;
pub mod book;
