//! Text of word processor files: WordprocessingML and OpenDocument.

use crate::archive;
use crate::archive::Part;
use crate::archive::PartContents;
use crate::extract_error;
use crate::extract_error::ExtractError;
use crate::extract_error::Failure;
use crate::folding;
use crate::language::AppLanguage;
use crate::order;
use crate::path::FilePath;
use crate::results;
use crate::text;
use crate::xml_reader;
use std::io::Cursor;
use vstd::prelude::*;
use zip::ZipArchive;

verus! {

/// A part name with slashes for backslashes.
pub open spec fn slashed(name: Seq<char>) -> Seq<char> {
    name.map_values(
        |c: char|
            if c == '\\' {
                '/'
            } else {
                c
            },
    )
}

/// The form of a part name by which parts are known: with slashes, in lower case.
pub open spec fn normal_name(name: Seq<char>) -> Seq<char> {
    folding::lowercase(slashed(name))
}

/// The part of a normal name holds text: the body, or headers, footers, notes and comments.
pub open spec fn names_text_part(normal: Seq<char>) -> bool {
    &&& "word/"@.is_prefix_of(normal)
    &&& ".xml"@.is_suffix_of(normal)
    &&& {
        ||| normal == "word/document.xml"@
        ||| "word/header"@.is_prefix_of(normal)
        ||| "word/footer"@.is_prefix_of(normal)
        ||| "word/footnotes"@.is_prefix_of(normal)
        ||| "word/endnotes"@.is_prefix_of(normal)
        ||| "word/comments"@.is_prefix_of(normal)
    }
}

/// Where the part of a normal name stands: the body comes first, and the others follow by
/// name.
pub open spec fn part_key(normal: Seq<char>) -> Seq<Seq<u64>> {
    seq![
        seq![
            if normal == "word/document.xml"@ {
                0u64
            } else {
                1u64
            },
        ],
        normal.map_values(|c: char| c as u64),
    ]
}

/// The parts that hold text, as they are listed.
pub open spec fn text_parts(names: Seq<Seq<char>>) -> Seq<Seq<char>> {
    names.filter(|name: Seq<char>| names_text_part(normal_name(name)))
}

/// The keys of listed parts.
pub open spec fn part_keys(names: Seq<Seq<char>>) -> Seq<Seq<Seq<u64>>> {
    names.map_values(|name: Seq<char>| part_key(normal_name(name)))
}

/// The items of a list in another order.
pub open spec fn arranged(names: Seq<Seq<char>>, order: Seq<usize>) -> Seq<Seq<char>> {
    order.map_values(|k: usize| names[k as int])
}

/// The list that a stable sort by place makes of listed parts.
pub open spec fn is_sorted_list(names: Seq<Seq<char>>, sorted: Seq<Seq<char>>) -> bool {
    exists|order: Seq<usize>| #[trigger]
        order::is_stable_order(part_keys(names), order) && sorted == arranged(names, order)
}

/// Ends the last line of what a part added to a text, if it added anything.
pub open spec fn line_ended(before: Seq<char>, after: Seq<char>) -> Seq<char> {
    if after.len() > before.len() && after.last() != '\n' {
        after.push('\n')
    } else {
        after
    }
}

/// What comes of one more part, after the text collected so far.
pub open spec fn part_outcome(name: Seq<char>, part: Part, before: Seq<char>) -> Result<
    Seq<char>,
    Failure,
> {
    match part {
        Part::Unreadable => Err(Failure::PartUnreadable(name)),
        Part::Broken(_) => Err(Failure::PartMalformed(name)),
        Part::Readable(bytes) => {
            let (after, error) = xml_reader::document_text(bytes, true, before);
            if error is Some {
                Err(Failure::PartMalformed(name))
            } else {
                Ok(line_ended(before, after))
            }
        },
    }
}

/// The text of the parts from `i` on, after the text collected so far.
pub open spec fn parts_text(
    parts: Map<Seq<char>, Part>,
    names: Seq<Seq<char>>,
    i: int,
    before: Seq<char>,
) -> Result<Seq<char>, Failure>
    decreases names.len() - i,
{
    if i < 0 || i >= names.len() {
        Ok(before)
    } else {
        match part_outcome(names[i], archive::part_named(parts, names[i]), before) {
            Ok(after) => parts_text(parts, names, i + 1, after),
            Err(failure) => Err(failure),
        }
    }
}

/// `r` is what comes of a WordprocessingML file whose parts are listed as `names`.
pub open spec fn is_docx_outcome(
    parts: Map<Seq<char>, Part>,
    names: Seq<Seq<char>>,
    r: Result<Seq<char>, Failure>,
) -> bool {
    let chosen = text_parts(names);
    if chosen.len() == 0 {
        r == Err::<Seq<char>, Failure>(Failure::DocumentMissing)
    } else {
        exists|sorted: Seq<Seq<char>>| #[trigger]
            is_sorted_list(chosen, sorted) && r == parts_text(parts, sorted, 0, Seq::empty())
    }
}

/// `r` is what comes of the parts of a WordprocessingML file. The order in which they are
/// listed is left open; it shows only where two parts have the same normal name.
pub open spec fn docx_parts_outcome(
    parts: Map<Seq<char>, Part>,
    r: Result<Seq<char>, Failure>,
) -> bool {
    exists|names: Seq<Seq<char>>| #[trigger]
        archive::lists_parts(names, parts) && is_docx_outcome(parts, names, r)
}

/// `r` is what comes of a WordprocessingML file.
pub open spec fn docx_outcome(contents: Seq<u8>, r: Result<Seq<char>, Failure>) -> bool {
    match archive::archive_parts(contents) {
        None => r == Err::<Seq<char>, Failure>(Failure::NoArchive),
        Some(parts) => docx_parts_outcome(parts, r),
    }
}

/// Puts a line break after a line that has none.
pub open spec fn on_new_line(t: Seq<char>) -> Seq<char> {
    if t.len() > 0 && t.last() != '\n' {
        t.push('\n')
    } else {
        t
    }
}

/// What comes of the contents and the styles of an OpenDocument file: the text of the one and
/// then of the other, which holds headers and footers. Errors in the styles count for nothing,
/// and what comes before them counts.
pub open spec fn odt_parts_outcome(content: Part, styles: Part) -> Result<Seq<char>, Failure> {
    match content {
        Part::Unreadable => Err(Failure::ContentMissing),
        Part::Broken(_) => Err(Failure::ContentMalformed),
        Part::Readable(bytes) => {
            let (body, error) = xml_reader::document_text(bytes, false, Seq::empty());
            if error is Some {
                Err(Failure::ContentMalformed)
            } else {
                match styles {
                    Part::Unreadable => Ok(body),
                    Part::Broken(more) => Ok(
                        xml_reader::beginning_text(more, false, on_new_line(body)),
                    ),
                    Part::Readable(more) => Ok(
                        xml_reader::document_text(more, false, on_new_line(body)).0,
                    ),
                }
            }
        },
    }
}

/// What comes of an OpenDocument file.
pub open spec fn odt_outcome(contents: Seq<u8>) -> Result<Seq<char>, Failure> {
    match archive::archive_parts(contents) {
        None => Err(Failure::NoArchive),
        Some(parts) => odt_parts_outcome(
            archive::part_named(parts, "content.xml"@),
            archive::part_named(parts, "styles.xml"@),
        ),
    }
}

/// What comes of a flat OpenDocument file.
pub open spec fn flat_outcome(contents: Seq<u8>) -> Result<Seq<char>, Failure> {
    let (t, error) = xml_reader::document_text(contents, false, Seq::empty());
    if error is Some {
        Err(Failure::FlatMalformed)
    } else {
        Ok(t)
    }
}

/// The form of a part name by which parts are known.
pub fn normalize_part_name(name: &str) -> (r: String)
    ensures
        r@ == normal_name(name@),
{
    let mut s = String::new();
    for c in it: name.chars()
        invariant
            it.seq() == name@,
            s@ == slashed(name@.take(it.index() as int)),
    {
        s.push(
            if c == '\\' {
                '/'
            } else {
                c
            },
        );
        assert(slashed(name@.take(it.index() as int + 1)) =~= slashed(
            name@.take(it.index() as int),
        ).push(s@.last()));
    }
    assert(name@.take(name@.len() as int) =~= name@);
    folding::to_lower(s.as_str())
}

/// Whether the part of a normal name holds text.
pub fn is_text_part(normal: &str) -> (r: bool)
    ensures
        r == names_text_part(normal@),
{
    text::begins_with(normal, "word/") && text::ends_with(normal, ".xml") && (text::same_text(
        normal,
        "word/document.xml",
    ) || text::begins_with(normal, "word/header") || text::begins_with(normal, "word/footer")
        || text::begins_with(normal, "word/footnotes") || text::begins_with(
        normal,
        "word/endnotes",
    ) || text::begins_with(normal, "word/comments"))
}

/// Where the part of a normal name stands.
pub fn place_of_part(normal: &str) -> (r: Vec<order::Word>)
    ensures
        order::key_view(r@) == part_key(normal@),
{
    let mut kind: Vec<u64> = Vec::new();
    let mut rank: u64 = 1;
    if text::same_text(normal, "word/document.xml") {
        rank = 0;
    }
    kind.push(rank);
    let mut name: Vec<u64> = Vec::new();
    for c in it: normal.chars()
        invariant
            it.seq() == normal@,
            name@ == normal@.take(it.index() as int).map_values(|c: char| c as u64),
    {
        name.push(c as u64);
        assert(normal@.take(it.index() as int + 1).map_values(|c: char| c as u64) =~= normal@.take(
            it.index() as int,
        ).map_values(|c: char| c as u64).push(c as u64));
    }
    assert(normal@.take(normal@.len() as int) =~= normal@);
    let ghost kind_view = kind@;
    let ghost name_view = name@;
    let mut r: Vec<order::Word> = Vec::new();
    r.push(kind);
    r.push(name);
    assert(kind_view =~= part_key(normal@)[0]);
    assert(name_view =~= part_key(normal@)[1]);
    assert(order::key_view(r@) =~= part_key(normal@));
    r
}

/// The parts that hold text, sorted by place.
pub fn sorted_text_parts(names: &Vec<String>) -> (r: Vec<String>)
    ensures
        is_sorted_list(text_parts(archive::names_view(names@)), archive::names_view(r@)),
{
    let ghost all = archive::names_view(names@);
    let ghost pred = |name: Seq<char>| names_text_part(normal_name(name));
    let mut chosen: Vec<&String> = Vec::new();
    let mut keys: Vec<Vec<order::Word>> = Vec::new();
    let mut i: usize = 0;
    proof {
        reveal(Seq::filter);
        assert(all.take(0).filter(pred) =~= Seq::empty());
    }
    while i < names.len()
        invariant
            i <= names@.len(),
            all == archive::names_view(names@),
            pred == (|name: Seq<char>| names_text_part(normal_name(name))),
            refs_view(chosen@) == all.take(i as int).filter(pred),
            order::keys_view(keys@) == part_keys(refs_view(chosen@)),
        decreases names@.len() - i,
    {
        proof {
            reveal(Seq::filter);
            assert(all.take(i + 1).drop_last() =~= all.take(i as int));
            assert(all.take(i + 1).last() == names@[i as int]@);
        }
        let ghost before = refs_view(chosen@);
        let ghost before_keys = order::keys_view(keys@);
        let normal = normalize_part_name(names[i].as_str());
        if is_text_part(normal.as_str()) {
            let key = place_of_part(normal.as_str());
            chosen.push(&names[i]);
            keys.push(key);
            assert(refs_view(chosen@) =~= before.push(names@[i as int]@));
            assert(order::keys_view(keys@) =~= before_keys.push(part_key(normal@)));
            assert(part_keys(refs_view(chosen@)) =~= part_keys(before).push(part_key(normal@)));
        }
        i = i + 1;
    }
    assert(all.take(i as int) =~= all);
    let order = order::stable_order(&keys);
    let mut r: Vec<String> = Vec::new();
    let ghost listed = refs_view(chosen@);
    assert(order@.len() == chosen@.len());
    let mut k: usize = 0;
    while k < order.len()
        invariant
            k <= order@.len(),
            order@.len() == chosen@.len(),
            listed == refs_view(chosen@),
            forall|j: int| 0 <= j < order@.len() ==> 0 <= #[trigger] order@[j] < chosen@.len(),
            archive::names_view(r@) == arranged(listed, order@.take(k as int)),
        decreases order@.len() - k,
    {
        let ghost before = archive::names_view(r@);
        let name: String = chosen[order[k]].as_str().to_owned();
        let ghost added = name@;
        r.push(name);
        assert(archive::names_view(r@) =~= before.push(added));
        assert(arranged(listed, order@.take(k + 1)) =~= arranged(listed, order@.take(k as int)).push(
            listed[order@[k as int] as int],
        ));
        k = k + 1;
    }
    assert(order@.take(k as int) =~= order@);
    assert(order::is_stable_order(part_keys(listed), order@));
    r
}

/// The views of borrowed names.
pub open spec fn refs_view(names: Seq<&String>) -> Seq<Seq<char>> {
    names.map_values(|s: &String| s@)
}

/// Appends the text of a part, and ends its last line. Where that fails, the text is left
/// unfinished.
pub fn append_part(name: &str, part: &Option<PartContents>, collected: &mut String) -> (r: Result<
    (),
    ExtractError,
>)
    ensures
        match (r, part_outcome(name@, archive::part_view(*part), old(collected)@)) {
            (Ok(_), Ok(after)) => final(collected)@ == after,
            (Err(e), Err(failure)) => e@ == failure,
            _ => false,
        },
{
    let part = match part {
        Some(part) => part,
        None => {
            return Err(ExtractError::PartUnreadable(name.to_owned()));
        },
    };
    let before: usize = text::byte_len(collected.as_str());
    let parsed = xml_reader::extract_text_from_xml_reader_into(
        part.bytes.as_slice(),
        true,
        collected,
    );
    proof {
        xml_reader::lemma_collected_extends(
            xml_reader::xml_tokens(part.bytes@),
            xml_reader::outside_text(),
            true,
            old(collected)@,
        );
        text::lemma_longer_text(old(collected)@, collected@);
    }
    if parsed.is_err() || !part.intact {
        return Err(ExtractError::PartMalformed(name.to_owned()));
    }
    if text::byte_len(collected.as_str()) > before && !text::at_line_start(collected.as_str()) {
        collected.push('\n');
    }
    Ok(())
}

/// The text of the parts of an open archive, in the given order.
fn collect_parts(
    opened: &mut ZipArchive<Cursor<&[u8]>>,
    names: &Vec<String>,
) -> (r: Result<String, ExtractError>)
    ensures
        extract_error::outcome(r) == parts_text(
            archive::parts_of(*old(opened)),
            archive::names_view(names@),
            0,
            Seq::empty(),
        ),
{
    let ghost parts = archive::parts_of(*opened);
    let ghost listed = archive::names_view(names@);
    let mut collected = String::new();
    let mut i: usize = 0;
    assert(collected@ =~= Seq::<char>::empty());
    while i < names.len()
        invariant
            i <= names@.len(),
            parts == archive::parts_of(*opened),
            parts == archive::parts_of(*old(opened)),
            listed == archive::names_view(names@),
            parts_text(parts, listed, 0, Seq::empty()) == parts_text(
                parts,
                listed,
                i as int,
                collected@,
            ),
        decreases names@.len() - i,
    {
        assert(listed[i as int] == names@[i as int]@);
        let part = archive::read_part(opened, names[i].as_str());
        match append_part(names[i].as_str(), &part, &mut collected) {
            Ok(_) => {},
            Err(e) => {
                return Err(e);
            },
        }
        i = i + 1;
    }
    Ok(collected)
}

/// The text of a WordprocessingML file.
pub fn docx_text(contents: &[u8]) -> (r: Result<String, ExtractError>)
    ensures
        docx_outcome(contents@, extract_error::outcome(r)),
{
    let mut opened = match archive::open_archive(contents) {
        Some(opened) => opened,
        None => {
            return Err(ExtractError::NoArchive);
        },
    };
    let names = archive::part_names(&opened);
    let sorted = sorted_text_parts(&names);
    let ghost parts = archive::parts_of(opened);
    let ghost listed = archive::names_view(names@);
    let ghost chosen = text_parts(listed);
    proof {
        let order = choose|order: Seq<usize>| #[trigger]
            order::is_stable_order(part_keys(chosen), order) && archive::names_view(sorted@)
                == arranged(chosen, order);
        assert(archive::names_view(sorted@).len() == chosen.len());
    }
    let r = if sorted.len() == 0 {
        Err(ExtractError::DocumentMissing)
    } else {
        collect_parts(&mut opened, &sorted)
    };
    assert(archive::lists_parts(listed, parts));
    assert(is_docx_outcome(parts, listed, extract_error::outcome(r)));
    r
}

/// The text of the contents and the styles of an OpenDocument file.
pub fn odt_parts_text(content: &Option<PartContents>, styles: &Option<PartContents>) -> (r: Result<
    String,
    ExtractError,
>)
    ensures
        extract_error::outcome(r) == odt_parts_outcome(
            archive::part_view(*content),
            archive::part_view(*styles),
        ),
{
    let content = match content {
        Some(content) => content,
        None => {
            return Err(ExtractError::ContentMissing);
        },
    };
    let mut collected = String::new();
    assert(collected@ =~= Seq::<char>::empty());
    let parsed = xml_reader::extract_text_from_xml_reader_into(
        content.bytes.as_slice(),
        false,
        &mut collected,
    );
    if parsed.is_err() || !content.intact {
        return Err(ExtractError::ContentMalformed);
    }
    if let Some(styles) = styles {
        if !text::at_line_start(collected.as_str()) {
            collected.push('\n');
        }
        if styles.intact {
            let _ = xml_reader::extract_text_from_xml_reader_into(
                styles.bytes.as_slice(),
                false,
                &mut collected,
            );
        } else {
            xml_reader::extract_text_of_beginning_into(
                styles.bytes.as_slice(),
                false,
                &mut collected,
            );
        }
    }
    Ok(collected)
}

/// The text of an OpenDocument file.
pub fn odt_text(contents: &[u8]) -> (r: Result<String, ExtractError>)
    ensures
        extract_error::outcome(r) == odt_outcome(contents@),
{
    match archive::open_archive(contents) {
        Some(mut opened) => {
            let content = archive::read_part(&mut opened, "content.xml");
            let styles = archive::read_part(&mut opened, "styles.xml");
            odt_parts_text(&content, &styles)
        },
        None => Err(ExtractError::NoArchive),
    }
}

/// The text of a flat OpenDocument file.
pub fn flat_text(contents: &[u8]) -> (r: Result<String, ExtractError>)
    ensures
        extract_error::outcome(r) == flat_outcome(contents@),
{
    match xml_reader::extract_text_from_xml_reader(contents, false) {
        Ok(t) => Ok(t),
        Err(_) => Err(ExtractError::FlatMalformed),
    }
}

/// The text of a WordprocessingML file, or a message.
pub fn extract_docx(file: &FilePath, contents: &[u8]) -> (r: Result<String, String>)
    ensures
        exists|came: Result<Seq<char>, Failure>| #[trigger]
            docx_outcome(contents@, came) && extract_error::texts(r) == extract_error::reported(
                came,
                file@,
                AppLanguage::English,
            ),
{
    extract_error::report(docx_text(contents), file, AppLanguage::English)
}

/// The text of an OpenDocument file, or a message.
pub fn extract_odt(file: &FilePath, contents: &[u8]) -> (r: Result<String, String>)
    ensures
        extract_error::texts(r) == extract_error::reported(
            odt_outcome(contents@),
            file@,
            AppLanguage::English,
        ),
{
    extract_error::report(odt_text(contents), file, AppLanguage::English)
}

/// The text of a flat OpenDocument file, or a message.
pub fn extract_flat_xml(file: &FilePath, contents: &[u8]) -> (r: Result<String, String>)
    ensures
        extract_error::texts(r) == extract_error::reported(
            flat_outcome(contents@),
            file@,
            AppLanguage::English,
        ),
{
    extract_error::report(flat_text(contents), file, AppLanguage::English)
}

/// No two parts that hold text have the same normal name.
pub open spec fn has_distinct_parts(parts: Map<Seq<char>, Part>) -> bool {
    forall|a: Seq<char>, b: Seq<char>|
        #![trigger parts.dom().contains(a), parts.dom().contains(b)]
        parts.dom().contains(a) && parts.dom().contains(b) && names_text_part(normal_name(a))
            && normal_name(a) == normal_name(b) ==> a == b
}

proof fn lemma_part_key_injective(a: Seq<char>, b: Seq<char>)
    requires
        part_key(a) == part_key(b),
    ensures
        a == b,
{
    let f = |c: char| c as u64;
    assert(part_key(a)[1] == a.map_values(f));
    assert(part_key(b)[1] == b.map_values(f));
    assert(a.map_values(f).len() == a.len());
    assert forall|i: int| 0 <= i < a.len() implies a[i] == b[i] by {
        assert(a.map_values(f)[i] == b.map_values(f)[i]);
        text::lemma_char_code(a[i]);
        text::lemma_char_code(b[i]);
    }
    assert(a =~= b);
}

/// The listed text parts: those of the list that hold text, none twice.
proof fn lemma_text_parts(names: Seq<Seq<char>>)
    requires
        names.no_duplicates(),
    ensures
        text_parts(names).no_duplicates(),
        forall|x: Seq<char>| #[trigger]
            text_parts(names).contains(x) <==> names.contains(x) && names_text_part(normal_name(x)),
    decreases names.len(),
{
    reveal(Seq::filter);
    if names.len() > 0 {
        let front = names.drop_last();
        let last = names.last();
        lemma_text_parts(front);
        assert(names =~= front.push(last));
        let kept = text_parts(front);
        assert forall|x: Seq<char>| #[trigger] text_parts(names).contains(x) <==> names.contains(x)
            && names_text_part(normal_name(x)) by {
            assert(kept.contains(x) <==> front.contains(x) && names_text_part(normal_name(x)));
            if names.contains(x) && x != last {
                let k = choose|k: int| 0 <= k < names.len() && names[k] == x;
                assert(front[k] == x);
            }
            if front.contains(x) {
                let k = choose|k: int| 0 <= k < front.len() && front[k] == x;
                assert(names[k] == x);
            }
            if names_text_part(normal_name(last)) {
                assert(text_parts(names) == kept.push(last));
                assert(kept.push(last)[kept.len() as int] == last);
                if kept.contains(x) {
                    let k = choose|k: int| 0 <= k < kept.len() && kept[k] == x;
                    assert(kept.push(last)[k] == x);
                }
                if kept.push(last).contains(x) && x != last {
                    let k = choose|k: int|
                        0 <= k < kept.push(last).len() && kept.push(last)[k] == x;
                    assert(kept[k] == x);
                }
            }
        }
        if names_text_part(normal_name(last)) {
            assert(!kept.contains(last)) by {
                if front.contains(last) {
                    let k = choose|k: int| 0 <= k < front.len() && front[k] == last;
                    assert(names[k] == names[names.len() - 1]);
                }
            }
        }
    }
}

/// The place of a part, by its name.
spec fn place_by_name() -> spec_fn(Seq<char>) -> Seq<Seq<u64>> {
    |name: Seq<char>| part_key(normal_name(name))
}

/// A sorted list of parts in distinct places holds what was listed, strictly by place.
proof fn lemma_sorted_list(listed: Seq<Seq<char>>, sorted: Seq<Seq<char>>)
    requires
        is_sorted_list(listed, sorted),
        listed.len() <= usize::MAX,
        forall|i: int, j: int|
            0 <= i < j < listed.len() ==> normal_name(#[trigger] listed[i]) != normal_name(
                #[trigger] listed[j],
            ),
    ensures
        order::is_strictly_sorted(sorted, place_by_name()),
        forall|x: Seq<char>| #[trigger] sorted.contains(x) <==> listed.contains(x),
{
    let keys = part_keys(listed);
    let order = choose|order: Seq<usize>| #[trigger]
        order::is_stable_order(keys, order) && sorted == arranged(listed, order);
    assert forall|i: int, j: int| 0 <= i < j < sorted.len() implies order::key_lt(
        place_by_name()(#[trigger] sorted[i]),
        place_by_name()(#[trigger] sorted[j]),
    ) by {
        let a = order[i] as int;
        let b = order[j] as int;
        assert(order::comes_before(keys, a, b));
        assert(keys[a] == part_key(normal_name(listed[a])));
        assert(keys[b] == part_key(normal_name(listed[b])));
        if keys[a] == keys[b] {
            lemma_part_key_injective(normal_name(listed[a]), normal_name(listed[b]));
        }
    }
    assert forall|x: Seq<char>| #[trigger] sorted.contains(x) <==> listed.contains(x) by {
        if listed.contains(x) {
            let k = choose|k: int| 0 <= k < listed.len() && listed[k] == x;
            order::stable_order_is_complete(keys, order, k);
            let p = choose|p: int| 0 <= p < order.len() && order[p] == k as usize;
            assert(sorted[p] == x);
        }
        if sorted.contains(x) {
            let p = choose|p: int| 0 <= p < sorted.len() && sorted[p] == x;
            assert(listed[order[p] as int] == x);
        }
    }
}

/// The body of a document comes before its other parts: before it stands nothing else.
pub proof fn document_comes_first(listed: Seq<Seq<char>>, sorted: Seq<Seq<char>>, i: int, j: int)
    requires
        is_sorted_list(listed, sorted),
        0 <= i < j < sorted.len(),
        normal_name(sorted[j]) == "word/document.xml"@,
    ensures
        normal_name(sorted[i]) == "word/document.xml"@,
{
    let keys = part_keys(listed);
    let order = choose|order: Seq<usize>| #[trigger]
        order::is_stable_order(keys, order) && sorted == arranged(listed, order);
    assert(order::comes_before(keys, order[i] as int, order[j] as int));
    let a = keys[order[i] as int];
    let b = keys[order[j] as int];
    assert(a == part_key(normal_name(sorted[i])));
    assert(b == part_key(normal_name(sorted[j])));
    assert(b[0] =~= seq![0u64]);
    if a == b {
        assert(a[0][0] == b[0][0]);
    } else {
        assert(order::word_lt(a[0], b[0]) || a[0] == b[0]);
        assert(!order::word_lt(a[0].drop_first(), b[0].drop_first()));
        assert(a[0][0] == b[0][0]);
    }
}

/// The text of a WordprocessingML file does not depend on the order in which the archive
/// lists its parts, as long as no two parts that hold text have the same normal name.
pub proof fn docx_text_ignores_listing(
    parts: Map<Seq<char>, Part>,
    r1: Result<Seq<char>, Failure>,
    r2: Result<Seq<char>, Failure>,
)
    requires
        docx_parts_outcome(parts, r1),
        docx_parts_outcome(parts, r2),
        has_distinct_parts(parts),
        parts.dom().len() <= usize::MAX,
    ensures
        r1 == r2,
{
    let names1 = choose|names: Seq<Seq<char>>| #[trigger]
        archive::lists_parts(names, parts) && is_docx_outcome(parts, names, r1);
    let names2 = choose|names: Seq<Seq<char>>| #[trigger]
        archive::lists_parts(names, parts) && is_docx_outcome(parts, names, r2);
    lemma_listed_parts(parts, names1);
    lemma_listed_parts(parts, names2);
    let chosen1 = text_parts(names1);
    let chosen2 = text_parts(names2);
    assert forall|x: Seq<char>| #[trigger] chosen1.contains(x) <==> chosen2.contains(x) by {}
    if chosen1.len() == 0 {
        if chosen2.len() > 0 {
            assert(chosen2.contains(chosen2[0]));
            assert(chosen1.contains(chosen2[0]));
        }
    } else {
        assert(chosen1.contains(chosen1[0]));
        assert(chosen2.contains(chosen1[0]));
        let sorted1 = choose|sorted: Seq<Seq<char>>| #[trigger]
            is_sorted_list(chosen1, sorted) && r1 == parts_text(parts, sorted, 0, Seq::empty());
        let sorted2 = choose|sorted: Seq<Seq<char>>| #[trigger]
            is_sorted_list(chosen2, sorted) && r2 == parts_text(parts, sorted, 0, Seq::empty());
        lemma_sorted_list(chosen1, sorted1);
        lemma_sorted_list(chosen2, sorted2);
        assert forall|x: Seq<char>| #[trigger] sorted1.contains(x) <==> sorted2.contains(x) by {
            assert(sorted1.contains(x) <==> chosen1.contains(x));
            assert(sorted2.contains(x) <==> chosen2.contains(x));
        }
        order::sorted_items_are_unique(sorted1, sorted2, place_by_name());
    }
}

/// What is listed of the parts that hold text, where these have distinct normal names.
proof fn lemma_listed_parts(parts: Map<Seq<char>, Part>, names: Seq<Seq<char>>)
    requires
        archive::lists_parts(names, parts),
        has_distinct_parts(parts),
        parts.dom().len() <= usize::MAX,
    ensures
        text_parts(names).len() <= usize::MAX,
        forall|x: Seq<char>| #[trigger]
            text_parts(names).contains(x) <==> parts.dom().contains(x) && names_text_part(
                normal_name(x),
            ),
        forall|i: int, j: int|
            0 <= i < j < text_parts(names).len() ==> normal_name(#[trigger] text_parts(names)[i])
                != normal_name(#[trigger] text_parts(names)[j]),
{
    lemma_text_parts(names);
    names.unique_seq_to_set();
    let chosen = text_parts(names);
    assert(chosen.len() <= names.len()) by {
        names.lemma_filter_len(|name: Seq<char>| names_text_part(normal_name(name)));
    }
    assert forall|x: Seq<char>| #[trigger] chosen.contains(x) <==> parts.dom().contains(x)
        && names_text_part(normal_name(x)) by {
        assert(names.to_set().contains(x) <==> names.contains(x));
    }
    assert forall|i: int, j: int| 0 <= i < j < chosen.len() implies normal_name(
        #[trigger] chosen[i],
    ) != normal_name(#[trigger] chosen[j]) by {
        assert(chosen.contains(chosen[i]));
        assert(chosen.contains(chosen[j]));
        if normal_name(chosen[i]) == normal_name(chosen[j]) {
            assert(chosen[i] == chosen[j]);
        }
    }
}

/// Part names are told apart with slashes and in lower case: backslashes become slashes, and
/// every other character stays in its place.
pub proof fn backslashes_become_slashes(name: Seq<char>, i: int)
    requires
        0 <= i < name.len(),
    ensures
        slashed(name).len() == name.len(),
        name[i] == '\\' ==> slashed(name)[i] == '/',
        name[i] != '\\' ==> slashed(name)[i] == name[i],
        normal_name(name) == folding::lowercase(slashed(name)),
{
}

/// The parts that hold text: the body, and every header, footer, footnote, endnote and comment
/// part, whatever stands between its name and the ending.
pub proof fn parts_that_hold_text(x: Seq<char>)
    ensures
        names_text_part("word/document.xml"@),
        names_text_part("word/header"@ + x + ".xml"@),
        names_text_part("word/footer"@ + x + ".xml"@),
        names_text_part("word/footnotes"@ + x + ".xml"@),
        names_text_part("word/endnotes"@ + x + ".xml"@),
        names_text_part("word/comments"@ + x + ".xml"@),
{
    reveal_strlit("word/");
    reveal_strlit(".xml");
    reveal_strlit("word/document.xml");
    reveal_strlit("word/header");
    reveal_strlit("word/footer");
    reveal_strlit("word/footnotes");
    reveal_strlit("word/endnotes");
    reveal_strlit("word/comments");
    lemma_part_of("word/header"@, x);
    lemma_part_of("word/footer"@, x);
    lemma_part_of("word/footnotes"@, x);
    lemma_part_of("word/endnotes"@, x);
    lemma_part_of("word/comments"@, x);
    let body = "word/document.xml"@;
    assert(body.subrange(0, 5) =~= "word/"@);
    assert(body.subrange(body.len() - 4, body.len() as int) =~= ".xml"@);
}

proof fn lemma_part_of(kind: Seq<char>, x: Seq<char>)
    requires
        kind.len() >= 5,
        kind[0] == 'w' && kind[1] == 'o' && kind[2] == 'r' && kind[3] == 'd' && kind[4] == '/',
    ensures
        "word/"@.is_prefix_of(kind + x + ".xml"@),
        kind.is_prefix_of(kind + x + ".xml"@),
        ".xml"@.is_suffix_of(kind + x + ".xml"@),
{
    reveal_strlit("word/");
    reveal_strlit(".xml");
    let name = kind + x + ".xml"@;
    assert(name.subrange(0, 5) =~= "word/"@);
    assert(name.subrange(0, kind.len() as int) =~= kind);
    assert(name.subrange(name.len() - 4, name.len() as int) =~= ".xml"@);
}

/// Other parts hold no text: those outside of the directory of the document, those that are no
/// XML, and those of other names.
pub proof fn other_parts_hold_no_text(normal: Seq<char>)
    ensures
        !"word/"@.is_prefix_of(normal) ==> !names_text_part(normal),
        !".xml"@.is_suffix_of(normal) ==> !names_text_part(normal),
        normal != "word/document.xml"@ && !"word/header"@.is_prefix_of(normal)
            && !"word/footer"@.is_prefix_of(normal) && !"word/footnotes"@.is_prefix_of(normal)
            && !"word/endnotes"@.is_prefix_of(normal) && !"word/comments"@.is_prefix_of(normal)
            ==> !names_text_part(normal),
{
}

/// Behind the body the other parts follow in the alphabetic order of their normal names.
pub proof fn other_parts_come_by_name(
    listed: Seq<Seq<char>>,
    sorted: Seq<Seq<char>>,
    i: int,
    j: int,
)
    requires
        is_sorted_list(listed, sorted),
        0 <= i < j < sorted.len(),
        normal_name(sorted[i]) != "word/document.xml"@,
    ensures
        normal_name(sorted[j]) != "word/document.xml"@,
        results::text_not_after(normal_name(sorted[i]), normal_name(sorted[j])),
{
    if normal_name(sorted[j]) == "word/document.xml"@ {
        document_comes_first(listed, sorted, i, j);
    }
    let keys = part_keys(listed);
    let order = choose|order: Seq<usize>| #[trigger]
        order::is_stable_order(keys, order) && sorted == arranged(listed, order);
    assert(order::comes_before(keys, order[i] as int, order[j] as int));
    let s = normal_name(sorted[i]);
    let t = normal_name(sorted[j]);
    let a = keys[order[i] as int];
    let b = keys[order[j] as int];
    assert(a == part_key(s));
    assert(b == part_key(t));
    if a == b {
        lemma_part_key_injective(s, t);
    } else {
        assert(a[0] =~= b[0]);
        order::lemma_word_total(a[0], b[0]);
        let x = a.drop_first();
        let y = b.drop_first();
        assert(x[0] == a[1] && y[0] == b[1]);
        assert(order::key_lt(x, y));
        assert(x.drop_first().len() == 0 && y.drop_first().len() == 0);
        assert(order::word_lt(a[1], b[1]));
        order::word_order_is_lexicographic(a[1], b[1]);
        let k = choose|k: int| order::parts_at(a[1], b[1], k);
        assert forall|m: int| 0 <= m < k implies #[trigger] s[m] == t[m] by {
            assert(a[1][m] == b[1][m]);
            text::lemma_char_code(s[m]);
            text::lemma_char_code(t[m]);
        }
        assert(results::texts_part_at(s, t, k)) by {
            if k < s.len() {
                assert(a[1][k] == s[k] as u64 && b[1][k] == t[k] as u64);
                text::lemma_char_code(s[k]);
                text::lemma_char_code(t[k]);
            }
        }
    }
}

/// The text of parts is that of the first ones and then that of the others; the first part
/// that fails decides.
pub proof fn parts_are_read_one_after_the_other(
    parts: Map<Seq<char>, Part>,
    names: Seq<Seq<char>>,
    last: Seq<char>,
    before: Seq<char>,
)
    ensures
        parts_text(parts, names.push(last), 0, before) == match parts_text(
            parts,
            names,
            0,
            before,
        ) {
            Ok(t) => part_outcome(last, archive::part_named(parts, last), t),
            Err(failure) => Err(failure),
        },
{
    lemma_last_part(parts, names, last, 0, before);
}

proof fn lemma_last_part(
    parts: Map<Seq<char>, Part>,
    names: Seq<Seq<char>>,
    last: Seq<char>,
    i: int,
    before: Seq<char>,
)
    requires
        0 <= i <= names.len(),
    ensures
        parts_text(parts, names.push(last), i, before) == match parts_text(
            parts,
            names,
            i,
            before,
        ) {
            Ok(t) => part_outcome(last, archive::part_named(parts, last), t),
            Err(failure) => Err(failure),
        },
    decreases names.len() - i,
{
    let all = names.push(last);
    if i < names.len() {
        assert(all[i] == names[i]);
        if let Ok(after) = part_outcome(
            names[i],
            archive::part_named(parts, names[i]),
            before,
        ) {
            lemma_last_part(parts, names, last, i + 1, after);
        }
    } else {
        assert(all[i] == last);
        if let Ok(after) = part_outcome(last, archive::part_named(parts, last), before) {
            assert(parts_text(parts, all, i + 1, after) == Ok::<Seq<char>, Failure>(after));
        }
    }
}

/// A part that can be read and is well formed adds its text to that of the parts before it,
/// which stays, and ends its last line; one that cannot be read, or is not well formed, is an
/// error that names it.
pub proof fn readable_parts_add_their_text(
    name: Seq<char>,
    bytes: Seq<u8>,
    before: Seq<char>,
)
    ensures
        part_outcome(name, Part::Unreadable, before) == Err::<Seq<char>, Failure>(
            Failure::PartUnreadable(name),
        ),
        part_outcome(name, Part::Broken(bytes), before) == Err::<Seq<char>, Failure>(
            Failure::PartMalformed(name),
        ),
        xml_reader::document_text(bytes, true, before).1 is Some ==> part_outcome(
            name,
            Part::Readable(bytes),
            before,
        ) == Err::<Seq<char>, Failure>(Failure::PartMalformed(name)),
        xml_reader::document_text(bytes, true, before).1 is None ==> {
            let read = xml_reader::document_text(bytes, true, before).0;
            &&& part_outcome(name, Part::Readable(bytes), before) matches Ok(t)
            &&& before.is_prefix_of(t)
            &&& read.is_prefix_of(t)
            &&& read.len() > before.len() ==> t.last() == '\n' && t.len() <= read.len() + 1
            &&& read.len() > before.len() && read.last() == '\n' ==> t == read
            &&& read.len() == before.len() ==> t == before
        },
{
    let read = xml_reader::document_text(bytes, true, before).0;
    xml_reader::lemma_collected_extends(
        xml_reader::xml_tokens(bytes),
        xml_reader::outside_text(),
        true,
        before,
    );
    let t = line_ended(before, read);
    assert(t.take(read.len() as int) =~= read);
    assert(read.take(before.len() as int) =~= before);
    assert(t.take(before.len() as int) =~= before);
    if read.len() == before.len() {
        assert(read =~= before);
    }
}

/// An OpenDocument file has the text of its contents, and behind it, on a line of its own,
/// that of its styles, whatever errors these hold. Contents that are missing or not well
/// formed are an error.
pub proof fn contents_come_before_styles(content: Seq<u8>, styles: Part, cut: Seq<u8>)
    ensures
        odt_parts_outcome(Part::Unreadable, styles) == Err::<Seq<char>, Failure>(
            Failure::ContentMissing,
        ),
        odt_parts_outcome(Part::Broken(cut), styles) == Err::<Seq<char>, Failure>(
            Failure::ContentMalformed,
        ),
        xml_reader::document_text(content, false, Seq::empty()).1 is Some ==> odt_parts_outcome(
            Part::Readable(content),
            styles,
        ) == Err::<Seq<char>, Failure>(Failure::ContentMalformed),
        xml_reader::document_text(content, false, Seq::empty()).1 is None ==> {
            let body = xml_reader::document_text(content, false, Seq::empty()).0;
            &&& odt_parts_outcome(Part::Readable(content), styles) matches Ok(t)
            &&& body.is_prefix_of(t)
            &&& styles is Unreadable ==> t == body
            &&& body.len() == 0 || body.last() == '\n' ==> match styles {
                Part::Unreadable => true,
                Part::Broken(more) => t == xml_reader::beginning_text(more, false, body),
                Part::Readable(more) => t == xml_reader::document_text(more, false, body).0,
            }
            &&& body.len() > 0 && body.last() != '\n' ==> match styles {
                Part::Unreadable => true,
                Part::Broken(more) => t == xml_reader::beginning_text(
                    more,
                    false,
                    body.push('\n'),
                ),
                Part::Readable(more) => t == xml_reader::document_text(
                    more,
                    false,
                    body.push('\n'),
                ).0,
            }
            &&& t.len() > body.len() && body.len() > 0 && body.last() != '\n' ==> t[body.len() as int]
                == '\n'
        },
{
    let body = xml_reader::document_text(content, false, Seq::empty()).0;
    let start = on_new_line(body);
    assert(start.take(body.len() as int) =~= body);
    match styles {
        Part::Unreadable => {
            assert(body.take(body.len() as int) =~= body);
        },
        Part::Broken(more) => {
            let tokens = xml_reader::known_tokens(more, xml_reader::xml_tokens(more));
            xml_reader::lemma_collected_extends(tokens, xml_reader::outside_text(), false, start);
            let t = xml_reader::beginning_text(more, false, start);
            lemma_on_new_line(body, t);
        },
        Part::Readable(more) => {
            let tokens = xml_reader::xml_tokens(more);
            xml_reader::lemma_collected_extends(tokens, xml_reader::outside_text(), false, start);
            let t = xml_reader::document_text(more, false, start).0;
            lemma_on_new_line(body, t);
        },
    }
}

proof fn lemma_on_new_line(body: Seq<char>, t: Seq<char>)
    requires
        on_new_line(body).is_prefix_of(t),
    ensures
        body.is_prefix_of(t),
        body.len() > 0 && body.last() != '\n' ==> t.len() > body.len() && t[body.len() as int]
            == '\n',
{
    let start = on_new_line(body);
    assert(start =~= t.take(start.len() as int));
    assert(body =~= start.take(body.len() as int));
    assert(body =~= t.take(body.len() as int));
    if body.len() > 0 && body.last() != '\n' {
        assert(start[body.len() as int] == t.take(start.len() as int)[body.len() as int]);
    }
}

/// A flat OpenDocument file has the text of the document that it is, unless that is not well
/// formed.
pub proof fn flat_files_are_one_document(contents: Seq<u8>)
    ensures
        xml_reader::document_text(contents, false, Seq::empty()).1 is None ==> flat_outcome(contents)
            == Ok::<Seq<char>, Failure>(
            xml_reader::document_text(contents, false, Seq::empty()).0,
        ),
        xml_reader::document_text(contents, false, Seq::empty()).1 is Some ==> flat_outcome(contents)
            == Err::<Seq<char>, Failure>(Failure::FlatMalformed),
{
}

/// Of the parts that an archive lists, those that hold text are taken, each of them and in the
/// order of the list, and no others.
pub proof fn text_parts_are_chosen(names: Seq<Seq<char>>, name: Seq<char>)
    ensures
        text_parts(Seq::empty()).len() == 0,
        names_text_part(normal_name(name)) ==> text_parts(names.push(name)) == text_parts(
            names,
        ).push(name),
        !names_text_part(normal_name(name)) ==> text_parts(names.push(name)) == text_parts(names),
{
    reveal(Seq::filter);
    assert(names.push(name).drop_last() =~= names);
}

/// What comes of a WordprocessingML file: an error where it is no archive or has no part that
/// holds text, and else what comes of these parts in their order.
pub proof fn word_documents_are_read_by_parts(
    contents: Seq<u8>,
    parts: Map<Seq<char>, Part>,
    names: Seq<Seq<char>>,
    sorted: Seq<Seq<char>>,
    r: Result<Seq<char>, Failure>,
)
    ensures
        archive::archive_parts(contents) is None ==> (docx_outcome(contents, r) <==> r == Err::<
            Seq<char>,
            Failure,
        >(Failure::NoArchive)),
        archive::archive_parts(contents) == Some(parts) ==> (docx_outcome(contents, r)
            <==> docx_parts_outcome(parts, r)),
        text_parts(names).len() == 0 ==> (is_docx_outcome(parts, names, r) <==> r == Err::<
            Seq<char>,
            Failure,
        >(Failure::DocumentMissing)),
        text_parts(names).len() > 0 && is_sorted_list(text_parts(names), sorted)
            ==> is_docx_outcome(parts, names, parts_text(parts, sorted, 0, Seq::empty())),
        archive::lists_parts(names, parts) && is_docx_outcome(parts, names, r)
            ==> docx_parts_outcome(parts, r),
        parts_text(parts, Seq::empty(), 0, Seq::empty()) == Ok::<Seq<char>, Failure>(Seq::empty()),
{
}

/// Sorting listed parts keeps each of them, and adds none.
pub proof fn sorted_parts_are_the_listed_ones(listed: Seq<Seq<char>>, sorted: Seq<Seq<char>>)
    requires
        is_sorted_list(listed, sorted),
        listed.len() <= usize::MAX,
    ensures
        sorted.len() == listed.len(),
        forall|x: Seq<char>| #[trigger] sorted.contains(x) <==> listed.contains(x),
{
    let keys = part_keys(listed);
    let order = choose|order: Seq<usize>| #[trigger]
        order::is_stable_order(keys, order) && sorted == arranged(listed, order);
    assert forall|x: Seq<char>| #[trigger] sorted.contains(x) <==> listed.contains(x) by {
        if listed.contains(x) {
            let k = choose|k: int| 0 <= k < listed.len() && listed[k] == x;
            order::stable_order_is_complete(keys, order, k);
            let p = choose|p: int| 0 <= p < order.len() && order[p] == k as usize;
            assert(sorted[p] == x);
        }
        if sorted.contains(x) {
            let p = choose|p: int| 0 <= p < sorted.len() && sorted[p] == x;
            assert(listed[order[p] as int] == x);
        }
    }
}

/// The contents of an OpenDocument file are its part `content.xml`, and its styles are its part
/// `styles.xml`; a file that is no archive has neither.
pub proof fn open_documents_have_two_parts(contents: Seq<u8>, parts: Map<Seq<char>, Part>)
    ensures
        archive::archive_parts(contents) is None ==> odt_outcome(contents) == Err::<
            Seq<char>,
            Failure,
        >(Failure::NoArchive),
        archive::archive_parts(contents) == Some(parts) ==> odt_outcome(contents)
            == odt_parts_outcome(
            archive::part_named(parts, "content.xml"@),
            archive::part_named(parts, "styles.xml"@),
        ),
{
}

} // verus!
