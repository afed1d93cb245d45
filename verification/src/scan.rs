//! Which files of a directory tree are searched.

use crate::folding;
use crate::options::SearchCandidate;
use crate::options::SearchOptions;
use crate::path;
use crate::path::FilePath;
use crate::text;
use vstd::prelude::*;
use vstd::utf8::*;

verus! {

/// The kinds of documents whose text can be had.
#[derive(Clone, Copy, Debug, PartialEq, Eq, Structural)]
pub enum DocumentKind {
    /// A WordprocessingML file.
    Docx,
    /// An OpenDocument file.
    Odt,
    /// A flat OpenDocument file.
    FlatOdt,
    /// A PDF file.
    Pdf,
    /// A plain text file.
    PlainText,
}

/// The kind of documents with an extension in lower case.
pub open spec fn kind_of(ext: Seq<char>) -> Option<DocumentKind> {
    if ext == "docx"@ || ext == "docm"@ || ext == "dotx"@ || ext == "dotm"@ {
        Some(DocumentKind::Docx)
    } else if ext == "odt"@ || ext == "ott"@ || ext == "ods"@ || ext == "odp"@ {
        Some(DocumentKind::Odt)
    } else if ext == "fodt"@ || ext == "fods"@ {
        Some(DocumentKind::FlatOdt)
    } else if ext == "pdf"@ {
        Some(DocumentKind::Pdf)
    } else if ext == "txt"@ || ext == "text"@ {
        Some(DocumentKind::PlainText)
    } else {
        None
    }
}

/// The documents with an extension are searched.
pub open spec fn is_searched(ext: Seq<char>, opts: SearchOptions) -> bool {
    match kind_of(ext) {
        Some(DocumentKind::Docx) => opts.search_docx,
        Some(DocumentKind::Odt) => opts.search_odt,
        Some(DocumentKind::FlatOdt) => opts.search_odt,
        Some(DocumentKind::Pdf) => opts.search_pdf,
        Some(DocumentKind::PlainText) => opts.search_txt,
        None => false,
    }
}

/// The extension of a path as a text, or the empty text where there is none.
pub open spec fn extension_text(p: Seq<u8>) -> Seq<char> {
    match path::extension_of(p) {
        Some(ext) => if valid_utf8(ext) {
            decode_utf8(ext)
        } else {
            Seq::empty()
        },
        None => Seq::empty(),
    }
}

/// The extension of a path in lower case.
pub open spec fn lower_extension(p: Seq<u8>) -> Seq<char> {
    folding::lowercase(extension_text(p))
}

/// Directories that are not looked into.
pub open spec fn is_ignored_directory(name: Seq<char>) -> bool {
    ||| name == "node_modules"@ || name == "target"@ || name == "__pycache__"@ || name == "venv"@
    ||| name == ".venv"@ || name == ".cargo"@ || name == ".rustup"@ || name == ".local"@
    ||| name == ".cache"@ || name == ".var"@ || name == ".mozilla"@ || name == ".steam"@
    ||| name == ".wine"@ || name == ".flatpak"@ || name == "build"@
}

/// What is known of a directory entry. What a link leads to counts for links only.
#[derive(Clone, Copy, Debug, PartialEq, Eq, Structural)]
pub struct EntryType {
    pub is_dir: bool,
    pub is_file: bool,
    pub is_symlink: bool,
    pub leads_to_dir: bool,
    pub leads_to_file: bool,
}

/// The entry is a directory, or a link to one.
pub open spec fn acts_as_dir(t: EntryType) -> bool {
    t.is_dir || (t.is_symlink && t.leads_to_dir)
}

/// The entry is a file, or a link to one.
pub open spec fn acts_as_file(t: EntryType) -> bool {
    t.is_file || (t.is_symlink && t.leads_to_file)
}

/// An entry of a directory is walked to: hidden ones only where asked for, directories
/// unless they are ignored, and files that are searched.
pub open spec fn is_walked(name: Seq<u8>, t: EntryType, opts: SearchOptions) -> bool {
    let shown = path::path_text(name);
    if !opts.search_hidden && shown.len() > 0 && shown[0] == '.' {
        false
    } else if acts_as_dir(t) {
        !is_ignored_directory(shown)
    } else if acts_as_file(t) {
        is_searched(lower_extension(name), opts)
    } else {
        true
    }
}

/// The number of bytes in a number of megabytes.
pub open spec fn megabytes(mb: u64) -> int {
    if mb * 1_048_576 <= u64::MAX {
        mb * 1_048_576
    } else {
        u64::MAX as int
    }
}

/// A file of that size is searched.
pub open spec fn fits_size(size: u64, opts: SearchOptions) -> bool {
    match opts.max_file_size_mb {
        Some(mb) => size <= megabytes(mb),
        None => true,
    }
}

/// An entry that was walked to: its path, its type and its size, where that is known.
#[derive(Debug)]
pub struct WalkedEntry {
    pub path: FilePath,
    pub entry_type: EntryType,
    pub size: Option<u64>,
}

/// The mathematical view of a `SearchCandidate`.
pub struct CandidateView {
    pub path: Seq<u8>,
    pub ext: Seq<char>,
}

impl View for SearchCandidate {
    type V = CandidateView;

    open spec fn view(&self) -> CandidateView {
        CandidateView { path: self.path@, ext: self.ext@ }
    }
}

/// The size of an entry; where it is not known, zero.
pub open spec fn known_size(size: Option<u64>) -> u64 {
    match size {
        Some(n) => n,
        None => 0,
    }
}

/// The candidate that a walked entry makes, if it makes one.
pub open spec fn candidate_view(entry: WalkedEntry, opts: SearchOptions) -> Option<CandidateView> {
    let p = path::cleaned(entry.path@);
    if acts_as_file(entry.entry_type) && is_searched(lower_extension(p), opts) && fits_size(
        known_size(entry.size),
        opts,
    ) {
        Some(CandidateView { path: p, ext: lower_extension(p) })
    } else {
        None
    }
}

/// The candidates that walked entries make, in order.
pub open spec fn candidate_views(entries: Seq<WalkedEntry>, opts: SearchOptions) -> Seq<
    CandidateView,
>
    decreases entries.len(),
{
    if entries.len() == 0 {
        Seq::empty()
    } else {
        match candidate_view(entries.last(), opts) {
            Some(c) => candidate_views(entries.drop_last(), opts).push(c),
            None => candidate_views(entries.drop_last(), opts),
        }
    }
}

/// The kind of documents with an extension in lower case.
pub fn document_kind(ext: &str) -> (r: Option<DocumentKind>)
    ensures
        r == kind_of(ext@),
{
    if text::same_text(ext, "docx") || text::same_text(ext, "docm") || text::same_text(ext, "dotx")
        || text::same_text(ext, "dotm") {
        Some(DocumentKind::Docx)
    } else if text::same_text(ext, "odt") || text::same_text(ext, "ott") || text::same_text(
        ext,
        "ods",
    ) || text::same_text(ext, "odp") {
        Some(DocumentKind::Odt)
    } else if text::same_text(ext, "fodt") || text::same_text(ext, "fods") {
        Some(DocumentKind::FlatOdt)
    } else if text::same_text(ext, "pdf") {
        Some(DocumentKind::Pdf)
    } else if text::same_text(ext, "txt") || text::same_text(ext, "text") {
        Some(DocumentKind::PlainText)
    } else {
        None
    }
}

/// Whether documents with an extension in lower case are searched.
pub fn matches_type(ext: &str, opts: &SearchOptions) -> (r: bool)
    ensures
        r == is_searched(ext@, *opts),
{
    match document_kind(ext) {
        Some(DocumentKind::Docx) => opts.search_docx,
        Some(DocumentKind::Odt) => opts.search_odt,
        Some(DocumentKind::FlatOdt) => opts.search_odt,
        Some(DocumentKind::Pdf) => opts.search_pdf,
        Some(DocumentKind::PlainText) => opts.search_txt,
        None => false,
    }
}

/// The extension of a path as a text.
pub fn raw_extension(p: &FilePath) -> (r: String)
    ensures
        r@ == extension_text(p@),
{
    match p.extension() {
        Some(ext) => match text::utf8_text(ext.as_slice()) {
            Some(t) => t.to_owned(),
            None => String::new(),
        },
        None => String::new(),
    }
}

fn lowered_extension(p: &FilePath) -> (r: String)
    ensures
        r@ == lower_extension(p@),
{
    folding::to_lower(raw_extension(p).as_str())
}

fn ignored_directory(name: &str) -> (r: bool)
    ensures
        r == is_ignored_directory(name@),
{
    text::same_text(name, "node_modules") || text::same_text(name, "target") || text::same_text(
        name,
        "__pycache__",
    ) || text::same_text(name, "venv") || text::same_text(name, ".venv") || text::same_text(
        name,
        ".cargo",
    ) || text::same_text(name, ".rustup") || text::same_text(name, ".local") || text::same_text(
        name,
        ".cache",
    ) || text::same_text(name, ".var") || text::same_text(name, ".mozilla") || text::same_text(
        name,
        ".steam",
    ) || text::same_text(name, ".wine") || text::same_text(name, ".flatpak") || text::same_text(
        name,
        "build",
    )
}

/// Whether an entry of a directory is walked to.
pub fn keeps_entry(name: &FilePath, t: EntryType, opts: &SearchOptions) -> (r: bool)
    ensures
        r == is_walked(name@, t, *opts),
{
    let shown = name.to_text();
    proof {
        reveal_strlit(".");
        assert("."@.is_prefix_of(shown@) <==> shown@.len() > 0 && shown@[0] == '.') by {
            if shown@.len() > 0 && shown@[0] == '.' {
                assert("."@ =~= shown@.subrange(0, 1));
            }
            if "."@.is_prefix_of(shown@) {
                assert(shown@.subrange(0, 1)[0] == '.');
            }
        }
    }
    if !opts.search_hidden && text::begins_with(shown.as_str(), ".") {
        return false;
    }
    if t.is_dir || (t.is_symlink && t.leads_to_dir) {
        !ignored_directory(shown.as_str())
    } else if t.is_file || (t.is_symlink && t.leads_to_file) {
        matches_type(lowered_extension(name).as_str(), opts)
    } else {
        true
    }
}

/// How deep the tree below a directory is walked.
pub fn max_depth(opts: &SearchOptions) -> (r: usize)
    ensures
        r == if opts.recursive {
            usize::MAX
        } else {
            1
        },
{
    if opts.recursive {
        usize::MAX
    } else {
        1
    }
}

/// The number of bytes in a number of megabytes.
pub fn bytes_of_megabytes(mb: u64) -> (r: u64)
    ensures
        r == megabytes(mb),
{
    if mb <= u64::MAX / 1_048_576 {
        mb * 1_048_576
    } else {
        u64::MAX
    }
}

fn size_fits(size: u64, opts: &SearchOptions) -> (r: bool)
    ensures
        r == fits_size(size, *opts),
{
    match opts.max_file_size_mb {
        Some(mb) => size <= bytes_of_megabytes(mb),
        None => true,
    }
}

/// The candidate that a walked entry makes, if it makes one.
pub fn candidate_of(entry: &WalkedEntry, opts: &SearchOptions) -> (r: Option<SearchCandidate>)
    ensures
        match r {
            Some(c) => candidate_view(*entry, *opts) == Some(c@),
            None => candidate_view(*entry, *opts) is None,
        },
{
    let t = entry.entry_type;
    if !(t.is_file || (t.is_symlink && t.leads_to_file)) {
        return None;
    }
    let path = path::clean_path(entry.path.duplicate());
    let ext = lowered_extension(&path);
    if !matches_type(ext.as_str(), opts) {
        return None;
    }
    let size: u64 = match entry.size {
        Some(n) => n,
        None => 0,
    };
    if !size_fits(size, opts) {
        return None;
    }
    Some(SearchCandidate { path, ext })
}

/// The candidates that walked entries make, in order.
pub fn scan_candidates(entries: &Vec<WalkedEntry>, opts: &SearchOptions) -> (r: Vec<
    SearchCandidate,
>)
    ensures
        r@.map_values(|c: SearchCandidate| c@) == candidate_views(entries@, *opts),
{
    let ghost view = |c: SearchCandidate| c@;
    let mut r: Vec<SearchCandidate> = Vec::new();
    let mut i: usize = 0;
    assert(r@.map_values(view) =~= candidate_views(entries@.take(0), *opts));
    while i < entries.len()
        invariant
            i <= entries@.len(),
            view == (|c: SearchCandidate| c@),
            r@.map_values(view) == candidate_views(entries@.take(i as int), *opts),
        decreases entries@.len() - i,
    {
        assert(entries@.take(i + 1).drop_last() =~= entries@.take(i as int));
        assert(entries@.take(i + 1).last() == entries@[i as int]);
        let ghost before = r@.map_values(view);
        if let Some(c) = candidate_of(&entries[i], opts) {
            let ghost added = c@;
            r.push(c);
            assert(r@.map_values(view) =~= before.push(added));
        }
        i = i + 1;
    }
    assert(entries@.take(i as int) =~= entries@);
    r
}

/// Every candidate is a document of a kind that is searched.
pub proof fn candidates_are_searched(entries: Seq<WalkedEntry>, opts: SearchOptions, i: int)
    requires
        0 <= i < candidate_views(entries, opts).len(),
    ensures
        is_searched(candidate_views(entries, opts)[i].ext, opts),
        kind_of(candidate_views(entries, opts)[i].ext) is Some,
        candidate_views(entries, opts)[i].ext == lower_extension(
            candidate_views(entries, opts)[i].path,
        ),
    decreases entries.len(),
{
    if entries.len() > 0 {
        let front = candidate_views(entries.drop_last(), opts);
        if i < front.len() {
            candidates_are_searched(entries.drop_last(), opts, i);
        }
    }
}

/// No limit in megabytes is so large that it wraps around: a larger limit never lets fewer
/// bytes through.
pub proof fn size_limit_is_monotonic(a: u64, b: u64)
    requires
        a <= b,
    ensures
        megabytes(a) <= megabytes(b),
{
}

/// Where no type of document is searched, there are no candidates.
pub proof fn no_types_no_candidates(entries: Seq<WalkedEntry>, opts: SearchOptions)
    requires
        !opts.search_docx,
        !opts.search_odt,
        !opts.search_pdf,
        !opts.search_txt,
    ensures
        candidate_views(entries, opts).len() == 0,
    decreases entries.len(),
{
    if entries.len() > 0 {
        no_types_no_candidates(entries.drop_last(), opts);
    }
}

proof fn lemma_extensions_differ()
    ensures
        forall|ext: Seq<char>|
            #![trigger kind_of(ext)]
            ext == "docx"@ || ext == "docm"@ || ext == "dotx"@ || ext == "dotm"@ || ext == "fodt"@
                || ext == "fods"@ || ext == "text"@ ==> ext.len() == 4,
        forall|ext: Seq<char>|
            #![trigger kind_of(ext)]
            ext == "odt"@ || ext == "ott"@ || ext == "ods"@ || ext == "odp"@ || ext == "pdf"@ || ext
                == "txt"@ ==> ext.len() == 3,
        "docx"@[0] == 'd' && "docm"@[0] == 'd' && "dotx"@[0] == 'd' && "dotm"@[0] == 'd',
        "odt"@[0] == 'o' && "ott"@[0] == 'o' && "ods"@[0] == 'o' && "odp"@[0] == 'o',
        "fodt"@[0] == 'f' && "fods"@[0] == 'f' && "pdf"@[0] == 'p',
        "txt"@[0] == 't' && "text"@[0] == 't',
{
    reveal_strlit("docx");
    reveal_strlit("docm");
    reveal_strlit("dotx");
    reveal_strlit("dotm");
    reveal_strlit("odt");
    reveal_strlit("ott");
    reveal_strlit("ods");
    reveal_strlit("odp");
    reveal_strlit("fodt");
    reveal_strlit("fods");
    reveal_strlit("pdf");
    reveal_strlit("txt");
    reveal_strlit("text");
}

/// Whether a type of document is searched depends on its own choice alone: each extension has
/// one option that decides, and extensions of no known type are never searched.
pub proof fn each_type_has_its_own_option(ext: Seq<char>, opts: SearchOptions)
    ensures
        ext == "docx"@ || ext == "docm"@ || ext == "dotx"@ || ext == "dotm"@ ==> is_searched(
            ext,
            opts,
        ) == opts.search_docx,
        ext == "odt"@ || ext == "ott"@ || ext == "ods"@ || ext == "odp"@ || ext == "fodt"@ || ext
            == "fods"@ ==> is_searched(ext, opts) == opts.search_odt,
        ext == "pdf"@ ==> is_searched(ext, opts) == opts.search_pdf,
        ext == "txt"@ || ext == "text"@ ==> is_searched(ext, opts) == opts.search_txt,
        is_searched(ext, opts) ==> ext == "docx"@ || ext == "docm"@ || ext == "dotx"@ || ext
            == "dotm"@ || ext == "odt"@ || ext == "ott"@ || ext == "ods"@ || ext == "odp"@ || ext
            == "fodt"@ || ext == "fods"@ || ext == "pdf"@ || ext == "txt"@ || ext == "text"@,
{
    lemma_extensions_differ();
}

/// The kind of a document goes by its extension: packed and flat OpenDocument files are two
/// kinds, though one option chooses both.
pub proof fn extensions_name_kinds(ext: Seq<char>)
    ensures
        kind_of(ext) == Some(DocumentKind::Docx) <==> ext == "docx"@ || ext == "docm"@ || ext
            == "dotx"@ || ext == "dotm"@,
        kind_of(ext) == Some(DocumentKind::Odt) <==> ext == "odt"@ || ext == "ott"@ || ext
            == "ods"@ || ext == "odp"@,
        kind_of(ext) == Some(DocumentKind::FlatOdt) <==> ext == "fodt"@ || ext == "fods"@,
        kind_of(ext) == Some(DocumentKind::Pdf) <==> ext == "pdf"@,
        kind_of(ext) == Some(DocumentKind::PlainText) <==> ext == "txt"@ || ext == "text"@,
{
    lemma_extensions_differ();
}

/// Options that agree on the choice for a type agree on every file of that type, whatever
/// else they choose.
pub proof fn other_options_do_not_matter(
    ext: Seq<char>,
    one: SearchOptions,
    other: SearchOptions,
)
    ensures
        one.search_docx == other.search_docx && (ext == "docx"@ || ext == "docm"@ || ext == "dotx"@
            || ext == "dotm"@) ==> is_searched(ext, one) == is_searched(ext, other),
        one.search_odt == other.search_odt && (ext == "odt"@ || ext == "ott"@ || ext == "ods"@
            || ext == "odp"@ || ext == "fodt"@ || ext == "fods"@) ==> is_searched(ext, one)
            == is_searched(ext, other),
        one.search_pdf == other.search_pdf && ext == "pdf"@ ==> is_searched(ext, one)
            == is_searched(ext, other),
        one.search_txt == other.search_txt && (ext == "txt"@ || ext == "text"@) ==> is_searched(
            ext,
            one,
        ) == is_searched(ext, other),
{
    each_type_has_its_own_option(ext, one);
    each_type_has_its_own_option(ext, other);
}

/// A file, or a link to one, whose type is chosen and whose size is within the limit, makes a
/// candidate of its path, whatever the other options are; nothing else makes one.
pub proof fn chosen_files_are_candidates(entry: WalkedEntry, opts: SearchOptions, ext: Seq<char>)
    requires
        ext == lower_extension(path::cleaned(entry.path@)),
    ensures
        candidate_view(entry, opts) matches Some(c) ==> c.path == path::cleaned(entry.path@)
            && c.ext == ext,
        candidate_view(entry, opts) is Some <==> {
            &&& entry.entry_type.is_file || (entry.entry_type.is_symlink
                && entry.entry_type.leads_to_file)
            &&& (opts.max_file_size_mb, entry.size) matches (Some(mb), Some(size)) ==> size
                <= mb * 1_048_576
            &&& {
                ||| opts.search_docx && (ext == "docx"@ || ext == "docm"@ || ext == "dotx"@ || ext
                    == "dotm"@)
                ||| opts.search_odt && (ext == "odt"@ || ext == "ott"@ || ext == "ods"@ || ext
                    == "odp"@ || ext == "fodt"@ || ext == "fods"@)
                ||| opts.search_pdf && ext == "pdf"@
                ||| opts.search_txt && (ext == "txt"@ || ext == "text"@)
            }
        },
{
    each_type_has_its_own_option(ext, opts);
}

/// Each entry makes its candidate by itself, and candidates come in the order of entries.
pub proof fn candidates_come_entry_by_entry(
    before: Seq<WalkedEntry>,
    entry: WalkedEntry,
    after: Seq<WalkedEntry>,
    opts: SearchOptions,
)
    ensures
        candidate_views(before + after, opts) == candidate_views(before, opts) + candidate_views(
            after,
            opts,
        ),
        candidate_views(seq![entry], opts) == match candidate_view(entry, opts) {
            Some(c) => seq![c],
            None => Seq::empty(),
        },
    decreases after.len(),
{
    assert(seq![entry].drop_last() =~= Seq::<WalkedEntry>::empty());
    assert(candidate_views(seq![entry].drop_last(), opts) =~= Seq::<CandidateView>::empty());
    assert(seq![entry].last() == entry);
    assert(candidate_views(seq![entry], opts) =~= match candidate_view(entry, opts) {
        Some(c) => seq![c],
        None => Seq::empty(),
    });
    if after.len() == 0 {
        assert(before + after =~= before);
        assert(candidate_views(before, opts) + candidate_views(after, opts) =~= candidate_views(
            before,
            opts,
        ));
    } else {
        candidates_come_entry_by_entry(before, entry, after.drop_last(), opts);
        assert((before + after).drop_last() =~= before + after.drop_last());
        assert((before + after).last() == after.last());
        assert(candidate_views(before + after, opts) =~= candidate_views(before, opts)
            + candidate_views(after, opts));
    }
}

/// What is passed over on the way: what begins with a dot, unless hidden files are searched,
/// and of directories those of tools and caches alone. Other directories are walked into
/// whatever types are searched, and files go by their own type. Links go by what they lead to.
pub proof fn what_is_walked(t: Seq<char>, kind: EntryType, opts: SearchOptions)
    requires
        t.len() > 0,
        opts.search_hidden || t[0] != '.',
    ensures
        kind.is_dir || (kind.is_symlink && kind.leads_to_dir) ==> is_walked(
            encode_utf8(t),
            kind,
            opts,
        ) == !(t == "node_modules"@ || t == "target"@ || t == "__pycache__"@ || t == "venv"@ || t
            == ".venv"@ || t == ".cargo"@ || t == ".rustup"@ || t == ".local"@ || t == ".cache"@
            || t == ".var"@ || t == ".mozilla"@ || t == ".steam"@ || t == ".wine"@ || t
            == ".flatpak"@ || t == "build"@),
        !kind.is_dir && kind.is_file && !kind.is_symlink ==> is_walked(encode_utf8(t), kind, opts)
            == is_searched(lower_extension(encode_utf8(t)), opts),
        !kind.is_dir && kind.is_symlink && !kind.leads_to_dir && kind.leads_to_file ==> is_walked(
            encode_utf8(t),
            kind,
            opts,
        ) == is_searched(lower_extension(encode_utf8(t)), opts),
        !kind.is_dir && !kind.is_file && !kind.is_symlink ==> is_walked(encode_utf8(t), kind, opts),
        !kind.is_dir && !kind.is_file && !kind.leads_to_dir && !kind.leads_to_file ==> is_walked(
            encode_utf8(t),
            kind,
            opts,
        ),
{
    text::lemma_text_of_encoded(t);
}

/// Hidden files and directories are passed over unless they are asked for.
pub proof fn hidden_entries_are_passed_over(t: Seq<char>, kind: EntryType, opts: SearchOptions)
    requires
        t.len() > 0,
        t[0] == '.',
        !opts.search_hidden,
    ensures
        !is_walked(encode_utf8(t), kind, opts),
{
    text::lemma_text_of_encoded(t);
}

/// A file in a directory has the extension of its name, put in lower case.
pub proof fn extension_in_lower_case(dir: Seq<u8>, stem: Seq<u8>, ext: Seq<char>)
    requires
        stem.len() > 0,
        !stem.contains(0x2f),
        ext.len() > 0,
        !encode_utf8(ext).contains(0x2f),
        !encode_utf8(ext).contains(0x2e),
    ensures
        extension_text(path::joined(dir, stem.push(0x2e) + encode_utf8(ext))) == ext,
        lower_extension(path::joined(dir, stem.push(0x2e) + encode_utf8(ext)))
            == folding::lowercase(ext),
{
    text::lemma_last_byte(ext);
    path::extension_is_that_of_the_name(dir, stem, encode_utf8(ext));
    encode_utf8_valid_utf8(ext);
    encode_utf8_decode_utf8(ext);
}

/// A limit in megabytes lets through the files with no more than that many times 1048576
/// bytes; without a limit every size fits.
pub proof fn size_limit_is_in_megabytes(size: u64, mb: u64, opts: SearchOptions)
    ensures
        opts.max_file_size_mb == Some(mb) ==> (fits_size(size, opts) <==> size <= mb * 1_048_576),
        opts.max_file_size_mb is None ==> fits_size(size, opts),
{
}

/// A file without an extension, or with one that is no text, has the empty extension.
pub proof fn other_extensions_are_empty(p: Seq<u8>)
    ensures
        path::extension_of(p) is None ==> extension_text(p).len() == 0,
        path::extension_of(p) matches Some(ext) ==> !valid_utf8(ext) ==> extension_text(p).len()
            == 0,
        lower_extension(p) == folding::lowercase(extension_text(p)),
{
}

} // verus!
