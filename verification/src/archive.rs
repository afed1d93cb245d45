//! ZIP archives: the container of word processor files.

use std::io::Cursor;
use std::io::Read;
use vstd::prelude::*;
use zip::read::ZipFile;
use zip::ZipArchive;

verus! {

/// An archive of the `zip` crate.
#[verifier::external_type_specification]
#[verifier::external_body]
#[verifier::reject_recursive_types(R)]
pub struct ExZipArchive<R>(ZipArchive<R>);

/// A position in bytes held in memory.
#[verifier::external_type_specification]
#[verifier::external_body]
#[verifier::reject_recursive_types(T)]
pub struct ExCursor<T>(Cursor<T>);

/// A part of an archive that is being read.
#[verifier::external_type_specification]
#[verifier::external_body]
pub struct ExZipFile<'a>(ZipFile<'a>);

/// The number of bytes that are asked for at a time: 8 KB.
pub const CHUNK_BYTES: usize = 8192;

/// What reading a part gave: its bytes, and whether it was read to its end.
#[derive(Debug)]
pub struct PartContents {
    pub bytes: Vec<u8>,
    pub intact: bool,
}

/// A part of an archive.
pub enum Part {
    /// It cannot be opened.
    Unreadable,
    /// It cannot be read to its end: the bytes that come before the failure.
    Broken(Seq<u8>),
    /// Its bytes.
    Readable(Seq<u8>),
}

/// The part that gives bytes, all of them or those before a failure.
pub open spec fn part_of(contents: (Seq<u8>, bool)) -> Part {
    if contents.1 {
        Part::Readable(contents.0)
    } else {
        Part::Broken(contents.0)
    }
}

/// What reading a part gave, as a part.
pub open spec fn part_view(read: Option<PartContents>) -> Part {
    match read {
        Some(c) => part_of((c.bytes@, c.intact)),
        None => Part::Unreadable,
    }
}

/// The parts that the `zip` crate finds in an archive, by name, with the bytes that it gives
/// when it is asked for `CHUNK_BYTES` at a time; `None` where it finds that the bytes are no
/// archive.
pub uninterp spec fn archive_parts(contents: Seq<u8>) -> Option<Map<Seq<char>, Part>>;

/// The parts of an open archive, by name.
pub uninterp spec fn parts_of(archive: ZipArchive<Cursor<&[u8]>>) -> Map<Seq<char>, Part>;

/// The part of a name; one that is not there cannot be opened.
pub open spec fn part_named(parts: Map<Seq<char>, Part>, name: Seq<char>) -> Part {
    if parts.dom().contains(name) {
        parts[name]
    } else {
        Part::Unreadable
    }
}

/// The views of names.
pub open spec fn names_view(names: Seq<String>) -> Seq<Seq<char>> {
    names.map_values(|s: String| s@)
}

/// The names of all parts, each once, in some order.
pub open spec fn lists_parts(names: Seq<Seq<char>>, parts: Map<Seq<char>, Part>) -> bool {
    names.no_duplicates() && names.to_set() == parts.dom()
}

/// Calls `ZipArchive::new` on bytes in memory. Trusted: whether they are an archive, and
/// what its parts are, depends on the bytes alone.
#[verifier::external_body]
pub(crate) fn open_archive<'a>(contents: &'a [u8]) -> (r: Option<ZipArchive<Cursor<&'a [u8]>>>)
    ensures
        match r {
            Some(archive) => archive_parts(contents@) == Some(parts_of(archive)),
            None => archive_parts(contents@) is None,
        },
{
    ZipArchive::new(Cursor::new(contents)).ok()
}

/// Calls `ZipArchive::file_names`. Trusted: it gives the name of each part once. In what
/// order is left open, for the crate walks a hash map.
#[verifier::external_body]
pub(crate) fn part_names(archive: &ZipArchive<Cursor<&[u8]>>) -> (r: Vec<String>)
    ensures
        lists_parts(names_view(r@), parts_of(*archive)),
{
    archive.file_names().map(String::from).collect()
}

/// The bytes that a part has still to give when it is asked for so many at a time, and whether
/// it gives them without a failure.
pub uninterp spec fn pending_contents(part: ZipFile<'_>, size: usize) -> (Seq<u8>, bool);

/// Calls `ZipArchive::by_name`. Trusted: it gives the part of that name from its beginning, and
/// the archive stays as it is. `by_name` panics on a part that is marked as encrypted in one
/// place only; `by_name_decrypt` tells such a part apart, so it is asked first, and the part
/// counts as one that cannot be opened.
#[verifier::external_body]
fn open_part<'a>(archive: &'a mut ZipArchive<Cursor<&[u8]>>, name: &str) -> (r: Option<ZipFile<'a>>)
    ensures
        parts_of(*final(archive)) == parts_of(*old(archive)),
        part_named(parts_of(*old(archive)), name@) == match r {
            Some(part) => part_of(pending_contents(part, CHUNK_BYTES)),
            None => Part::Unreadable,
        },
{
    if !matches!(archive.by_name_decrypt(name, &[]), Ok(Ok(_))) {
        return None;
    }
    archive.by_name(name).ok()
}

/// Calls `read` on a `ZipFile`. Trusted: it gives the first of the pending bytes, no more than
/// were asked for, and leaves the others pending; it gives none at the end, and fails where a
/// failure is all that is pending.
#[verifier::external_body]
fn read_chunk(part: &mut ZipFile<'_>, size: usize) -> (r: Option<Vec<u8>>)
    requires
        size > 0,
    ensures
        match r {
            Some(chunk) => chunk@.len() <= size && if chunk@.len() > 0 {
                &&& pending_contents(*old(part), size).0 == chunk@ + pending_contents(
                    *final(part),
                    size,
                ).0
                &&& pending_contents(*old(part), size).1 == pending_contents(*final(part), size).1
            } else {
                pending_contents(*old(part), size) == (Seq::<u8>::empty(), true)
            },
            None => pending_contents(*old(part), size) == (Seq::<u8>::empty(), false),
        },
{
    let mut chunk = vec![0; size];
    let read = part.read(&mut chunk).ok()?;
    chunk.truncate(read);
    Some(chunk)
}

/// Reads a part to its end, or to a failure.
fn read_rest(opened: ZipFile<'_>) -> (r: PartContents)
    ensures
        (r.bytes@, r.intact) == pending_contents(opened, CHUNK_BYTES),
{
    let ghost all = pending_contents(opened, CHUNK_BYTES);
    let mut part = opened;
    let mut bytes: Vec<u8> = Vec::new();
    assert(bytes@ + all.0 =~= all.0);
    loop
        invariant
            all.0 == bytes@ + pending_contents(part, CHUNK_BYTES).0,
            all.1 == pending_contents(part, CHUNK_BYTES).1,
            all == pending_contents(opened, CHUNK_BYTES),
        decreases pending_contents(part, CHUNK_BYTES).0.len(),
    {
        let ghost before = bytes@;
        match read_chunk(&mut part, CHUNK_BYTES) {
            Some(chunk) => {
                if chunk.len() == 0 {
                    assert(bytes@ =~= all.0);
                    return PartContents { bytes, intact: true };
                }
                let mut chunk = chunk;
                let ghost added = chunk@;
                bytes.append(&mut chunk);
                assert(before + (added + pending_contents(part, CHUNK_BYTES).0) =~= bytes@
                    + pending_contents(part, CHUNK_BYTES).0);
            },
            None => {
                assert(bytes@ =~= all.0);
                return PartContents { bytes, intact: false };
            },
        }
    }
}

/// Reads the part of a name, to its end or to a failure.
pub(crate) fn read_part(archive: &mut ZipArchive<Cursor<&[u8]>>, name: &str) -> (r: Option<
    PartContents,
>)
    ensures
        parts_of(*final(archive)) == parts_of(*old(archive)),
        part_view(r) == part_named(parts_of(*old(archive)), name@),
{
    match open_part(archive, name) {
        Some(part) => Some(read_rest(part)),
        None => None,
    }
}

/// A part is what the archive holds under its exact name, and one of another name cannot be
/// opened. What was read to the end is readable, and else broken, with the bytes before.
pub proof fn parts_go_by_their_name(
    parts: Map<Seq<char>, Part>,
    name: Seq<char>,
    part: Part,
    other: Seq<char>,
    bytes: Seq<u8>,
)
    ensures
        part_named(parts.insert(name, part), name) == part,
        name != other ==> part_named(parts.insert(name, part), other) == part_named(parts, other),
        part_named(Map::empty(), name) == Part::Unreadable,
        part_of((bytes, true)) == Part::Readable(bytes),
        part_of((bytes, false)) == Part::Broken(bytes),
{
}

} // verus!
