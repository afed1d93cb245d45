//! Full-text search in word processor, PDF and plain text documents.

pub mod archive;
pub mod boundary;
pub mod bytes;
pub mod cache;
pub mod cache_shard;
pub mod csv;
pub mod desktop;
pub mod extract;
pub mod extract_error;
pub mod filters;
pub mod folding;
pub mod language;
pub mod locations;
pub mod matching;
pub mod numbers;
pub mod office;
pub mod options;
pub mod order;
pub mod path;
pub mod pdf;
pub mod pdf_stream;
pub mod plain_text;
pub mod prefix;
pub mod process;
pub mod results;
pub mod scan;
pub mod screen;
pub mod semaphore;
pub mod session;
pub mod shared;
pub mod text;
pub mod time;
pub mod ui_text;
pub mod xml_reader;
pub mod xml_text;
