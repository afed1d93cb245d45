//! What is searched for, and where.

use crate::language::AppLanguage;
use crate::path::FilePath;
use crate::time::Timestamp;
use vstd::prelude::*;
use vstd::string::*;

verus! {

/// What is searched for, and where.
#[derive(Debug)]
pub struct SearchOptions {
    pub directory: FilePath,
    pub query: String,
    pub ignore_case: bool,
    pub recursive: bool,
    pub search_hidden: bool,
    pub use_cache: bool,
    pub context_size: usize,
    pub search_docx: bool,
    pub search_odt: bool,
    pub search_pdf: bool,
    pub search_txt: bool,
    pub max_file_size_mb: Option<u64>,
    pub modified_after: Option<Timestamp>,
    pub lang: AppLanguage,
}

impl Default for SearchOptions {
    fn default() -> (r: SearchOptions)
        ensures
            r.directory@ == ".".spec_bytes(),
            r.query@ == Seq::<char>::empty(),
            !r.ignore_case,
            r.recursive,
            !r.search_hidden,
            r.use_cache,
            r.context_size == 150,
            r.search_docx,
            r.search_odt,
            r.search_pdf,
            r.search_txt,
            r.max_file_size_mb is None,
            r.modified_after is None,
            r.lang == AppLanguage::English,
    {
        SearchOptions {
            directory: FilePath::from_text("."),
            query: String::new(),
            ignore_case: false,
            recursive: true,
            search_hidden: false,
            use_cache: true,
            context_size: 150,
            search_docx: true,
            search_odt: true,
            search_pdf: true,
            search_txt: true,
            max_file_size_mb: None,
            modified_after: None,
            lang: AppLanguage::English,
        }
    }
}

/// A file that a search looks into: its path, and its extension in lower case.
#[derive(Debug)]
pub struct SearchCandidate {
    pub path: FilePath,
    pub ext: String,
}

/// What a search did: how many files it looked into, how many of them it knew from the cache,
/// and how many milliseconds it took.
#[derive(Clone, Copy, Debug, PartialEq, Eq, Structural)]
pub struct SearchStats {
    pub cached_count: usize,
    pub total_count: usize,
    pub millis: u64,
}

impl Default for SearchStats {
    fn default() -> (r: SearchStats)
        ensures
            r == (SearchStats { cached_count: 0, total_count: 0, millis: 0 }),
    {
        SearchStats { cached_count: 0, total_count: 0, millis: 0 }
    }
}

} // verus!
