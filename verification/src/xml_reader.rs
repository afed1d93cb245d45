//! Text of XML documents: the parts of a word processor's XML that hold text.

use crate::bytes;
use crate::numbers;
use crate::text;
use crate::xml_text;
use quick_xml::events::Event::CData;
use quick_xml::events::Event::Empty;
use quick_xml::events::Event::End;
use quick_xml::events::Event::Eof;
use quick_xml::events::Event::Start;
use quick_xml::events::Event::Text;
use quick_xml::name::QName;
use quick_xml::reader::Reader;
use vstd::prelude::*;
use vstd::string::*;
use vstd::utf8::*;

verus! {

/// An attribute: its name and its raw value.
pub type XmlAttribute = (Vec<u8>, Vec<u8>);

/// What an XML reader meets next. Names stand with their prefix.
pub enum XmlEvent {
    /// An opening tag.
    Start(Vec<u8>),
    /// A closing tag.
    End(Vec<u8>),
    /// A tag that opens and closes at once, with its attributes; `None` stands for an
    /// attribute that is not well formed.
    Empty(Vec<u8>, Vec<Option<XmlAttribute>>),
    /// Raw character data.
    Text(Vec<u8>),
    /// A `CDATA` section.
    CData(Vec<u8>),
    /// A comment, a declaration or a processing instruction.
    Other,
    /// The end of the document.
    Eof,
    /// The document is not well formed.
    Failed(String),
}

/// The mathematical view of an `XmlAttribute`.
pub struct AttributeView {
    pub key: Seq<u8>,
    pub value: Seq<u8>,
}

/// The mathematical view of an `XmlEvent`.
pub enum XmlToken {
    Start(Seq<u8>),
    End(Seq<u8>),
    Empty(Seq<u8>, Seq<Option<AttributeView>>),
    Text(Seq<u8>),
    CData(Seq<u8>),
    Other,
    Eof,
    Failed(Seq<char>),
}

/// The view of an attribute list.
pub open spec fn attributes_view(attributes: Seq<Option<XmlAttribute>>) -> Seq<
    Option<AttributeView>,
> {
    Seq::new(
        attributes.len(),
        |i: int|
            match attributes[i] {
                Some(a) => Some(AttributeView { key: a.0@, value: a.1@ }),
                None => None,
            },
    )
}

impl View for XmlEvent {
    type V = XmlToken;

    open spec fn view(&self) -> XmlToken {
        match *self {
            XmlEvent::Start(name) => XmlToken::Start(name@),
            XmlEvent::End(name) => XmlToken::End(name@),
            XmlEvent::Empty(name, attributes) => XmlToken::Empty(
                name@,
                attributes_view(attributes@),
            ),
            XmlEvent::Text(raw) => XmlToken::Text(raw@),
            XmlEvent::CData(raw) => XmlToken::CData(raw@),
            XmlEvent::Other => XmlToken::Other,
            XmlEvent::Eof => XmlToken::Eof,
            XmlEvent::Failed(message) => XmlToken::Failed(message@),
        }
    }
}

/// Nothing follows the end of the document, or the point where it is not well formed.
pub open spec fn is_terminal(token: XmlToken) -> bool {
    token is Eof || token is Failed
}

/// A list of tokens that ends, and at its last token only.
pub open spec fn is_complete(tokens: Seq<XmlToken>) -> bool {
    &&& tokens.len() > 0
    &&& is_terminal(tokens.last())
    &&& forall|i: int| 0 <= i < tokens.len() - 1 ==> !is_terminal(#[trigger] tokens[i])
}

/// The streaming reader of the `quick_xml` crate.
#[verifier::external_type_specification]
#[verifier::external_body]
#[verifier::reject_recursive_types(R)]
pub struct ExReader<R>(Reader<R>);

/// The tokens that `quick_xml` reads from a document, up to its end or its first error, with
/// text untrimmed and the names of closing tags checked.
pub uninterp spec fn xml_tokens(xml: Seq<u8>) -> Seq<XmlToken>;

/// The tokens that a reader has still to give.
pub uninterp spec fn pending_tokens(reader: Reader<&[u8]>) -> Seq<XmlToken>;

/// Calls `Reader::from_reader`, `Reader::trim_text` and `Reader::check_end_names`. Trusted:
/// a new reader has all tokens of the document to give, and these come to an end.
#[verifier::external_body]
fn open_reader(xml: &[u8]) -> (reader: Reader<&[u8]>)
    ensures
        pending_tokens(reader) == xml_tokens(xml@),
        is_complete(pending_tokens(reader)),
{
    let mut reader = Reader::from_reader(xml);
    reader.trim_text(false);
    reader.check_end_names(true);
    reader
}

/// Calls `Reader::read_event_into`. Trusted: it gives the first of the pending tokens and
/// leaves the others pending.
#[verifier::external_body]
fn next_event(reader: &mut Reader<&[u8]>) -> (event: XmlEvent)
    requires
        pending_tokens(*old(reader)).len() > 0,
    ensures
        event@ == pending_tokens(*old(reader))[0],
        pending_tokens(*final(reader)) == pending_tokens(*old(reader)).drop_first(),
{
    match reader.read_event_into(&mut Vec::new()) {
        Err(e) => XmlEvent::Failed(e.to_string()),
        Ok(event) => match event {
            Start(e) => XmlEvent::Start(e.name().0.to_vec()),
            End(e) => XmlEvent::End(e.name().0.to_vec()),
            Empty(e) => XmlEvent::Empty(
                e.name().0.to_vec(),
                e.attributes().map(|a| a.ok().map(|a| (a.key.0.to_vec(), a.value.into()))).collect(),
            ),
            Text(e) => XmlEvent::Text(e.to_vec()),
            CData(e) => XmlEvent::CData(e.to_vec()),
            Eof => XmlEvent::Eof,
            _ => XmlEvent::Other,
        },
    }
}

/// A name without its prefix: what follows its first colon, where it has one.
pub open spec fn local_part(name: Seq<u8>) -> Seq<u8> {
    let colon = bytes::byte_from(name, 0, name.len() as int, 0x3a);
    if colon < name.len() {
        name.skip(colon + 1)
    } else {
        name
    }
}

/// Calls `QName::local_name`. Trusted: it takes away all up to the first colon.
#[verifier::external_body]
fn local_name(name: &[u8]) -> (r: &[u8])
    ensures
        r@ == local_part(name@),
{
    QName(name).local_name().into_inner()
}

/// Where the reader stands: inside a text run, inside a paragraph or heading.
#[derive(Clone, Copy)]
pub struct TextPosition {
    pub in_text_node: bool,
    pub in_paragraph: bool,
}

/// `t` and `delText` hold text runs.
pub open spec fn names_text_node(name: Seq<u8>) -> bool {
    local_part(name) == "t".spec_bytes() || local_part(name) == "delText".spec_bytes()
}

/// `p` and `h` are paragraphs and headings.
pub open spec fn names_paragraph(name: Seq<u8>) -> bool {
    local_part(name) == "p".spec_bytes() || local_part(name) == "h".spec_bytes()
}

/// The position after a token.
pub open spec fn position_after(at: TextPosition, token: XmlToken) -> TextPosition {
    match token {
        XmlToken::Start(name) => TextPosition {
            in_text_node: at.in_text_node || names_text_node(name),
            in_paragraph: at.in_paragraph || names_paragraph(name),
        },
        XmlToken::End(name) => TextPosition {
            in_text_node: at.in_text_node && !names_text_node(name),
            in_paragraph: at.in_paragraph && !names_paragraph(name),
        },
        _ => at,
    }
}

/// Whether character data counts as text here. In WordprocessingML only text runs do.
pub open spec fn extracts(at: TextPosition, is_docx: bool) -> bool {
    at.in_text_node || (!is_docx && at.in_paragraph)
}

/// How many blanks a space element stands for: the value of its first attribute `c`, or one.
pub open spec fn space_count(attributes: Seq<Option<AttributeView>>) -> int
    decreases attributes.len(),
{
    if attributes.len() == 0 {
        1
    } else {
        match attributes[0] {
            Some(a) => if local_part(a.key) == "c".spec_bytes() {
                match numbers::number_value(a.value, 10, usize::MAX as int) {
                    Some(n) => n,
                    None => 1,
                }
            } else {
                space_count(attributes.drop_first())
            },
            None => space_count(attributes.drop_first()),
        }
    }
}

/// The text of an empty element inside a text run or a paragraph.
pub open spec fn element_text(name: Seq<u8>, attributes: Seq<Option<AttributeView>>) -> Seq<char> {
    let local = local_part(name);
    if local == "tab".spec_bytes() {
        seq!['\t']
    } else if local == "br".spec_bytes() || local == "cr".spec_bytes() || local
        == "line-break".spec_bytes() {
        seq!['\n']
    } else if local == "s".spec_bytes() {
        Seq::new(space_count(attributes) as nat, |i: int| ' ')
    } else {
        Seq::empty()
    }
}

/// What a token adds to the text collected so far.
pub open spec fn added_text(
    at: TextPosition,
    is_docx: bool,
    collected: Seq<char>,
    token: XmlToken,
) -> Seq<char> {
    match token {
        XmlToken::Text(raw) => if extracts(at, is_docx) {
            xml_text::unescaped(raw)
        } else {
            Seq::empty()
        },
        XmlToken::CData(raw) => if extracts(at, is_docx) {
            text::text_of_bytes(raw)
        } else {
            Seq::empty()
        },
        XmlToken::Empty(name, attributes) => if at.in_paragraph || at.in_text_node {
            element_text(name, attributes)
        } else {
            Seq::empty()
        },
        XmlToken::End(name) => if names_paragraph(name) && collected.len() > 0 && collected.last()
            != '\n' {
            seq!['\n']
        } else {
            Seq::empty()
        },
        _ => Seq::empty(),
    }
}

/// The text after all tokens, and the message of the error that stopped the reader, if one
/// did.
pub open spec fn collected_text(
    tokens: Seq<XmlToken>,
    at: TextPosition,
    is_docx: bool,
    collected: Seq<char>,
) -> (Seq<char>, Option<Seq<char>>)
    decreases tokens.len(),
{
    if tokens.len() == 0 || tokens[0] is Eof {
        (collected, None)
    } else if let XmlToken::Failed(message) = tokens[0] {
        (collected, Some(message))
    } else {
        collected_text(
            tokens.drop_first(),
            position_after(at, tokens[0]),
            is_docx,
            collected + added_text(at, is_docx, collected, tokens[0]),
        )
    }
}

/// The position at the start of a document.
pub open spec fn outside_text() -> TextPosition {
    TextPosition { in_text_node: false, in_paragraph: false }
}

/// The text collected from a document after `before`, and the error message, if any.
pub open spec fn document_text(xml: Seq<u8>, is_docx: bool, before: Seq<char>) -> (
    Seq<char>,
    Option<Seq<char>>,
) {
    collected_text(xml_tokens(xml), outside_text(), is_docx, before)
}

/// The tokens that can be told from the beginning of a document of which no more is known:
/// text at its end may go on, and so may a tag that is not closed.
pub open spec fn known_tokens(xml: Seq<u8>, tokens: Seq<XmlToken>) -> Seq<XmlToken> {
    if tokens.len() >= 2 && tokens.last() is Eof && (tokens[tokens.len() - 2] is Text
        || !ends_tag(xml)) {
        tokens.take(tokens.len() - 2)
    } else {
        tokens
    }
}

/// The last byte can be the end of a tag.
pub open spec fn ends_tag(xml: Seq<u8>) -> bool {
    xml.len() > 0 && xml.last() == 0x3e
}

/// The text collected from the beginning of a document after `before`.
pub open spec fn beginning_text(xml: Seq<u8>, is_docx: bool, before: Seq<char>) -> Seq<char> {
    collected_text(known_tokens(xml, xml_tokens(xml)), outside_text(), is_docx, before).0
}

/// A document adds to the text collected before it.
pub proof fn lemma_collected_extends(
    tokens: Seq<XmlToken>,
    at: TextPosition,
    is_docx: bool,
    collected: Seq<char>,
)
    ensures
        collected.is_prefix_of(collected_text(tokens, at, is_docx, collected).0),
    decreases tokens.len(),
{
    if tokens.len() > 0 && !(tokens[0] is Eof) && !(tokens[0] is Failed) {
        let next = collected + added_text(at, is_docx, collected, tokens[0]);
        lemma_collected_extends(tokens.drop_first(), position_after(at, tokens[0]), is_docx, next);
        assert(collected =~= next.take(collected.len() as int));
        let all = collected_text(tokens, at, is_docx, collected).0;
        assert(next =~= all.take(next.len() as int));
        assert(collected =~= all.take(collected.len() as int));
    }
}

/// A document that is not well formed.
#[derive(Debug)]
pub struct XmlError {
    pub message: String,
}

/// What an error says of the reader's message.
pub open spec fn xml_error_message(message: Seq<char>) -> Seq<char> {
    "XML parse error: "@ + message
}

fn is_text_node(name: &[u8]) -> (r: bool)
    ensures
        r == names_text_node(name@),
{
    let local = local_name(name);
    text::same_bytes(local, "t".as_bytes()) || text::same_bytes(local, "delText".as_bytes())
}

fn is_paragraph(name: &[u8]) -> (r: bool)
    ensures
        r == names_paragraph(name@),
{
    let local = local_name(name);
    text::same_bytes(local, "p".as_bytes()) || text::same_bytes(local, "h".as_bytes())
}

fn count_spaces(attributes: &[Option<XmlAttribute>]) -> (n: usize)
    ensures
        n == space_count(attributes_view(attributes@)),
{
    let ghost views = attributes_view(attributes@);
    let mut i: usize = 0;
    assert(views.skip(0) =~= views);
    while i < attributes.len()
        invariant
            views == attributes_view(attributes@),
            i <= attributes@.len(),
            space_count(views) == space_count(views.skip(i as int)),
        decreases attributes@.len() - i,
    {
        assert(views.skip(i as int).drop_first() =~= views.skip(i + 1));
        if let Some(a) = &attributes[i] {
            if text::same_bytes(local_name(a.0.as_slice()), "c".as_bytes()) {
                return match numbers::parse_number(a.1.as_slice(), 10, usize::MAX as u64) {
                    Some(n) => n as usize,
                    None => 1,
                };
            }
        }
        i = i + 1;
    }
    1
}

fn push_element(name: &[u8], attributes: &[Option<XmlAttribute>], out: &mut String)
    ensures
        final(out)@ == old(out)@ + element_text(name@, attributes_view(attributes@)),
{
    let local = local_name(name);
    if text::same_bytes(local, "tab".as_bytes()) {
        out.push('\t');
    } else if text::same_bytes(local, "br".as_bytes()) || text::same_bytes(local, "cr".as_bytes())
        || text::same_bytes(local, "line-break".as_bytes()) {
        out.push('\n');
    } else if text::same_bytes(local, "s".as_bytes()) {
        let count = count_spaces(attributes);
        let mut i: usize = 0;
        while i < count
            invariant
                i <= count,
                out@ == old(out)@ + Seq::new(i as nat, |j: int| ' '),
            decreases count - i,
        {
            out.push(' ');
            i = i + 1;
            assert(out@ =~= old(out)@ + Seq::new(i as nat, |j: int| ' '));
        }
    }
    assert(out@ =~= old(out)@ + element_text(name@, attributes_view(attributes@)));
}

/// Takes one event into account: appends what it adds and moves on.
pub fn apply_event(at: TextPosition, is_docx: bool, event: &XmlEvent, out: &mut String) -> (next:
    TextPosition)
    ensures
        next == position_after(at, event@),
        final(out)@ == old(out)@ + added_text(at, is_docx, old(out)@, event@),
{
    let mut next = at;
    match event {
        XmlEvent::Start(name) => {
            if is_text_node(name.as_slice()) {
                next.in_text_node = true;
            }
            if is_paragraph(name.as_slice()) {
                next.in_paragraph = true;
            }
        },
        XmlEvent::End(name) => {
            if is_text_node(name.as_slice()) {
                next.in_text_node = false;
            }
            if is_paragraph(name.as_slice()) {
                next.in_paragraph = false;
                if !text::at_line_start(out.as_str()) {
                    out.push('\n');
                }
            }
        },
        XmlEvent::Text(raw) => {
            if at.in_text_node || (!is_docx && at.in_paragraph) {
                xml_text::unescape_xml_into(raw.as_slice(), out);
            }
        },
        XmlEvent::CData(raw) => {
            if at.in_text_node || (!is_docx && at.in_paragraph) {
                text::push_bytes(out, raw.as_slice());
            }
        },
        XmlEvent::Empty(name, attributes) => {
            if at.in_paragraph || at.in_text_node {
                push_element(name.as_slice(), attributes.as_slice(), out);
            }
        },
        _ => {},
    }
    assert(out@ =~= old(out)@ + added_text(at, is_docx, old(out)@, event@));
    next
}

/// Appends the text of an XML document. Where the document is not well formed, what was read
/// before the error stays appended.
pub fn extract_text_from_xml_reader_into(
    xml: &[u8],
    is_docx: bool,
    text_content: &mut String,
) -> (r: Result<(), XmlError>)
    ensures
        final(text_content)@ == document_text(xml@, is_docx, old(text_content)@).0,
        match (r, document_text(xml@, is_docx, old(text_content)@).1) {
            (Ok(_), None) => true,
            (Err(e), Some(message)) => e.message@ == xml_error_message(message),
            _ => false,
        },
{
    let mut reader = open_reader(xml);
    let mut at = TextPosition { in_text_node: false, in_paragraph: false };
    loop
        invariant
            is_complete(pending_tokens(reader)),
            document_text(xml@, is_docx, old(text_content)@) == collected_text(
                pending_tokens(reader),
                at,
                is_docx,
                text_content@,
            ),
        decreases pending_tokens(reader).len(),
    {
        let ghost pending = pending_tokens(reader);
        let event = next_event(&mut reader);
        match event {
            XmlEvent::Eof => {
                return Ok(());
            },
            XmlEvent::Failed(message) => {
                let mut text = String::new();
                text.push_str("XML parse error: ");
                text.push_str(message.as_str());
                assert(text@ =~= xml_error_message(message@));
                return Err(XmlError { message: text });
            },
            event => {
                at = apply_event(at, is_docx, &event, text_content);
                assert(pending.len() > 1);
                assert(pending.drop_first().last() == pending.last());
                assert forall|i: int| 0 <= i < pending.drop_first().len() - 1 implies !is_terminal(
                    #[trigger] pending.drop_first()[i],
                ) by {
                    assert(!is_terminal(pending[i + 1]));
                }
            },
        }
    }
}

/// Appends the text of the beginning of an XML document, of which no more can be read.
pub fn extract_text_of_beginning_into(xml: &[u8], is_docx: bool, text_content: &mut String)
    ensures
        final(text_content)@ == beginning_text(xml@, is_docx, old(text_content)@),
{
    let closed = xml.len() > 0 && xml[xml.len() - 1] == 0x3e;
    let mut reader = open_reader(xml);
    let mut at = TextPosition { in_text_node: false, in_paragraph: false };
    let ghost all = pending_tokens(reader);
    let mut event = next_event(&mut reader);
    assert(seq![event@] + pending_tokens(reader) =~= all);
    loop
        invariant
            closed == ends_tag(xml@),
            is_complete(seq![event@] + pending_tokens(reader)),
            beginning_text(xml@, is_docx, old(text_content)@) == collected_text(
                known_tokens(xml@, seq![event@] + pending_tokens(reader)),
                at,
                is_docx,
                text_content@,
            ).0,
        decreases pending_tokens(reader).len(),
    {
        let ghost rest = seq![event@] + pending_tokens(reader);
        assert(rest[0] == event@);
        let is_last = match event {
            XmlEvent::Eof => true,
            XmlEvent::Failed(_) => true,
            _ => false,
        };
        if is_last {
            assert(is_terminal(rest[0]));
            assert(rest.len() == 1);
            return ;
        }
        assert(rest.len() > 1);
        assert(pending_tokens(reader)[0] == rest[1]);
        let next = next_event(&mut reader);
        let ghost after = seq![next@] + pending_tokens(reader);
        assert(after =~= rest.drop_first());
        assert forall|i: int| 0 <= i < after.len() - 1 implies !is_terminal(#[trigger] after[i]) by {
            assert(after[i] == rest[i + 1]);
        }
        assert(after.last() == rest.last());
        let goes_on = match (&event, &next) {
            (XmlEvent::Text(_), XmlEvent::Eof) => true,
            (_, XmlEvent::Eof) => !closed,
            _ => false,
        };
        if goes_on {
            assert(rest[1] is Eof);
            assert(rest.len() == 2);
            assert(known_tokens(xml@, rest) =~= Seq::empty());
            return ;
        }
        assert(known_tokens(xml@, rest).drop_first() =~= known_tokens(xml@, after)) by {
            if rest.len() == 2 {
                assert(rest.last() == next@);
                assert(known_tokens(xml@, rest) == rest);
                assert(known_tokens(xml@, after) == after);
            } else {
                assert(after[after.len() - 2] == rest[rest.len() - 2]);
            }
        }
        assert(known_tokens(xml@, rest)[0] == rest[0]);
        at = apply_event(at, is_docx, &event, text_content);
        event = next;
    }
}

/// The text of an XML document.
pub fn extract_text_from_xml_reader(xml: &[u8], is_docx: bool) -> (r: Result<String, XmlError>)
    ensures
        match (r, document_text(xml@, is_docx, Seq::empty()).1) {
            (Ok(s), None) => s@ == document_text(xml@, is_docx, Seq::empty()).0,
            (Err(e), Some(message)) => e.message@ == xml_error_message(message),
            _ => false,
        },
{
    let mut text_content = String::new();
    match extract_text_from_xml_reader_into(xml, is_docx, &mut text_content) {
        Ok(_) => Ok(text_content),
        Err(e) => Err(e),
    }
}

/// A document counts as WordprocessingML where one of its tags shows.
pub open spec fn looks_like_docx(xml: Seq<u8>) -> bool {
    ||| bytes::contains_run(xml, "w:document".spec_bytes())
    ||| bytes::contains_run(xml, "w:p".spec_bytes())
    ||| bytes::contains_run(xml, "w:t".spec_bytes())
}

/// The text of an XML document whose kind is told from its contents.
pub fn extract_text_from_xml(xml: &str) -> (r: Result<String, XmlError>)
    ensures
        ({
            let expected = document_text(
                xml.spec_bytes(),
                looks_like_docx(xml.spec_bytes()),
                Seq::empty(),
            );
            match (r, expected.1) {
                (Ok(s), None) => s@ == expected.0,
                (Err(e), Some(message)) => e.message@ == xml_error_message(message),
                _ => false,
            }
        }),
{
    let bytes = xml.as_bytes();
    let is_docx = bytes::has_run(bytes, "w:document".as_bytes()) || bytes::has_run(
        bytes,
        "w:p".as_bytes(),
    ) || bytes::has_run(bytes, "w:t".as_bytes());
    extract_text_from_xml_reader(bytes, is_docx)
}

/// A prefix up to a colon does not belong to the local name, and a name without a colon is a
/// local name.
pub proof fn prefix_is_no_part_of_the_name(prefix: Seq<u8>, local: Seq<u8>)
    requires
        !prefix.contains(0x3a),
    ensures
        local_part(prefix.push(0x3a) + local) == local,
        local_part(prefix) == prefix,
{
    let name = prefix.push(0x3a) + local;
    let n = prefix.len() as int;
    assert forall|k: int| 0 <= k < n implies #[trigger] name[k] != 0x3a && prefix[k] != 0x3a by {
        assert(prefix.contains(prefix[k]));
    }
    bytes::lemma_byte_past(name, 0, n, name.len() as int, 0x3a);
    assert(name[n] == 0x3a);
    assert(name.skip(n + 1) =~= local);
    bytes::lemma_byte_past(prefix, 0, n, n, 0x3a);
}

/// An opening or a closing tag with a local name.
pub open spec fn is_tag_of(token: XmlToken, local: Seq<u8>) -> bool {
    match token {
        XmlToken::Start(name) => local_part(name) == local,
        XmlToken::End(name) => local_part(name) == local,
        _ => false,
    }
}

/// A tag that opens or closes a paragraph or a heading.
pub open spec fn is_paragraph_tag(token: XmlToken) -> bool {
    is_tag_of(token, "p".spec_bytes()) || is_tag_of(token, "h".spec_bytes())
}

/// A tag that opens or closes a text run.
pub open spec fn is_run_tag(token: XmlToken) -> bool {
    is_tag_of(token, "t".spec_bytes()) || is_tag_of(token, "delText".spec_bytes())
}

/// The text of a token by itself: that of character data, and that of an empty element.
pub open spec fn token_text(token: XmlToken) -> Seq<char> {
    match token {
        XmlToken::Text(raw) => xml_text::unescaped(raw),
        XmlToken::CData(raw) => text::text_of_bytes(raw),
        XmlToken::Empty(name, attributes) => element_text(name, attributes),
        _ => Seq::empty(),
    }
}

/// The texts of tokens, one after the other.
pub open spec fn texts_of(tokens: Seq<XmlToken>) -> Seq<char>
    decreases tokens.len(),
{
    if tokens.len() == 0 {
        Seq::empty()
    } else {
        token_text(tokens[0]) + texts_of(tokens.drop_first())
    }
}

/// The texts of the empty elements among tokens, one after the other.
pub open spec fn element_texts(tokens: Seq<XmlToken>) -> Seq<char>
    decreases tokens.len(),
{
    if tokens.len() == 0 {
        Seq::empty()
    } else if tokens[0] is Empty {
        token_text(tokens[0]) + element_texts(tokens.drop_first())
    } else {
        element_texts(tokens.drop_first())
    }
}

/// Whether a text run is open after tokens: the last tag of a run decides.
pub open spec fn run_open_after(tokens: Seq<XmlToken>, open: bool) -> bool
    decreases tokens.len(),
{
    if tokens.len() == 0 {
        open
    } else if is_run_tag(tokens.last()) {
        tokens.last() is Start
    } else {
        run_open_after(tokens.drop_last(), open)
    }
}

/// A text with a line break at its end, unless it is empty or has one.
pub open spec fn line_ended(s: Seq<char>) -> Seq<char> {
    if s.len() == 0 || s.last() == '\n' {
        s
    } else {
        s.push('\n')
    }
}

/// The local names that count are different from each other.
proof fn lemma_local_names()
    ensures
        "p".spec_bytes() == seq![0x70u8],
        "h".spec_bytes() == seq![0x68u8],
        "t".spec_bytes() == seq![0x74u8],
        "s".spec_bytes() == seq![0x73u8],
        "tab".spec_bytes() == seq![0x74u8, 0x61u8, 0x62u8],
        "br".spec_bytes() == seq![0x62u8, 0x72u8],
        "cr".spec_bytes() == seq![0x63u8, 0x72u8],
        "delText".spec_bytes().len() == 7,
        "line-break".spec_bytes().len() == 10,
        "p".spec_bytes() != "t".spec_bytes(),
        "p".spec_bytes() != "delText".spec_bytes(),
        "h".spec_bytes() != "t".spec_bytes(),
        "h".spec_bytes() != "delText".spec_bytes(),
        "tab".spec_bytes() != "s".spec_bytes(),
        "br".spec_bytes() != "s".spec_bytes(),
        "cr".spec_bytes() != "s".spec_bytes(),
        "line-break".spec_bytes() != "s".spec_bytes(),
        "tab".spec_bytes() != "br".spec_bytes(),
        "tab".spec_bytes() != "cr".spec_bytes(),
        "tab".spec_bytes() != "line-break".spec_bytes(),
{
    reveal_strlit("p");
    reveal_strlit("h");
    reveal_strlit("t");
    reveal_strlit("s");
    reveal_strlit("tab");
    reveal_strlit("br");
    reveal_strlit("cr");
    reveal_strlit("delText");
    reveal_strlit("line-break");
    is_ascii_chars_encode_utf8("p"@);
    is_ascii_chars_encode_utf8("h"@);
    is_ascii_chars_encode_utf8("t"@);
    is_ascii_chars_encode_utf8("s"@);
    is_ascii_chars_encode_utf8("tab"@);
    is_ascii_chars_encode_utf8("br"@);
    is_ascii_chars_encode_utf8("cr"@);
    is_ascii_chars_encode_utf8("delText"@);
    is_ascii_chars_encode_utf8("line-break"@);
    assert("p".spec_bytes() =~= seq![0x70u8]);
    assert("h".spec_bytes() =~= seq![0x68u8]);
    assert("t".spec_bytes() =~= seq![0x74u8]);
    assert("s".spec_bytes() =~= seq![0x73u8]);
    assert("tab".spec_bytes() =~= seq![0x74u8, 0x61u8, 0x62u8]);
    assert("br".spec_bytes() =~= seq![0x62u8, 0x72u8]);
    assert("cr".spec_bytes() =~= seq![0x63u8, 0x72u8]);
    assert("p".spec_bytes()[0] != "t".spec_bytes()[0]);
    assert("h".spec_bytes()[0] != "t".spec_bytes()[0]);
}

proof fn lemma_run_open_front(tokens: Seq<XmlToken>, open: bool)
    requires
        tokens.len() > 0,
    ensures
        run_open_after(tokens, open) == run_open_after(
            tokens.drop_first(),
            if is_run_tag(tokens[0]) {
                tokens[0] is Start
            } else {
                open
            },
        ),
    decreases tokens.len(),
{
    if tokens.len() > 1 {
        assert(tokens.drop_first().last() == tokens.last());
        assert(tokens.drop_first().drop_last() =~= tokens.drop_last().drop_first());
        if !is_run_tag(tokens.last()) {
            lemma_run_open_front(tokens.drop_last(), open);
        }
    } else {
        let next = if is_run_tag(tokens[0]) {
            tokens[0] is Start
        } else {
            open
        };
        assert(run_open_after(tokens.drop_first(), next) == next);
        assert(run_open_after(tokens.drop_last(), open) == open);
    }
}

/// Inside a paragraph of an OpenDocument file all character data is collected.
proof fn lemma_inside_paragraph(
    inner: Seq<XmlToken>,
    rest: Seq<XmlToken>,
    at: TextPosition,
    before: Seq<char>,
)
    requires
        at.in_paragraph,
        forall|i: int|
            0 <= i < inner.len() ==> !is_paragraph_tag(#[trigger] inner[i]) && !is_terminal(
                inner[i],
            ),
    ensures
        collected_text(inner + rest, at, false, before) == collected_text(
            rest,
            TextPosition {
                in_text_node: run_open_after(inner, at.in_text_node),
                in_paragraph: true,
            },
            false,
            before + texts_of(inner),
        ),
    decreases inner.len(),
{
    if inner.len() == 0 {
        assert(inner + rest =~= rest);
        assert(before + texts_of(inner) =~= before);
    } else {
        let first = inner[0];
        let tail = inner.drop_first();
        assert(!is_paragraph_tag(first) && !is_terminal(first));
        assert forall|i: int| 0 <= i < tail.len() implies !is_paragraph_tag(#[trigger] tail[i])
            && !is_terminal(tail[i]) by {
            assert(tail[i] == inner[i + 1]);
        }
        let all = inner + rest;
        assert(all[0] == first);
        assert(all.drop_first() =~= tail + rest);
        lemma_run_open_front(inner, at.in_text_node);
        let next = position_after(at, first);
        assert(next.in_paragraph);
        assert(added_text(at, false, before, first) =~= token_text(first));
        lemma_inside_paragraph(tail, rest, next, before + token_text(first));
        assert(before + token_text(first) + texts_of(tail) =~= before + texts_of(inner));
    }
}

/// In an OpenDocument file all character data between the opening and the closing tag of a
/// paragraph or heading is collected, in order, whatever other elements open and close in
/// between, and a line break follows.
pub proof fn paragraph_text_is_collected(
    opening: Seq<u8>,
    inner: Seq<XmlToken>,
    closing: Seq<u8>,
    rest: Seq<XmlToken>,
    at: TextPosition,
    before: Seq<char>,
)
    requires
        local_part(opening) == "p".spec_bytes() || local_part(opening) == "h".spec_bytes(),
        local_part(closing) == "p".spec_bytes() || local_part(closing) == "h".spec_bytes(),
        forall|i: int|
            0 <= i < inner.len() ==> !is_paragraph_tag(#[trigger] inner[i]) && !is_terminal(
                inner[i],
            ),
    ensures
        collected_text(
            seq![XmlToken::Start(opening)] + inner + seq![XmlToken::End(closing)] + rest,
            at,
            false,
            before,
        ) == collected_text(
            rest,
            TextPosition {
                in_text_node: run_open_after(inner, at.in_text_node),
                in_paragraph: false,
            },
            false,
            line_ended(before + texts_of(inner)),
        ),
{
    lemma_local_names();
    let end = seq![XmlToken::End(closing)] + rest;
    let all = seq![XmlToken::Start(opening)] + inner + seq![XmlToken::End(closing)] + rest;
    assert(all[0] == XmlToken::Start(opening));
    assert(all.drop_first() =~= inner + end);
    let inside = TextPosition { in_text_node: at.in_text_node, in_paragraph: true };
    assert(position_after(at, XmlToken::Start(opening)) == inside);
    assert(before + Seq::<char>::empty() =~= before);
    lemma_inside_paragraph(inner, end, inside, before);
    let text = before + texts_of(inner);
    assert(end[0] == XmlToken::End(closing));
    assert(end.drop_first() =~= rest);
    let at_end = TextPosition {
        in_text_node: run_open_after(inner, at.in_text_node),
        in_paragraph: true,
    };
    assert(text + added_text(at_end, false, text, XmlToken::End(closing)) =~= line_ended(text));
}

/// A text run holds text in every document: what stands between its opening and its closing
/// tag is collected, in order, and no line break is added.
pub proof fn run_text_is_collected(
    opening: Seq<u8>,
    inner: Seq<XmlToken>,
    closing: Seq<u8>,
    rest: Seq<XmlToken>,
    at: TextPosition,
    is_docx: bool,
    before: Seq<char>,
)
    requires
        local_part(opening) == "t".spec_bytes() || local_part(opening) == "delText".spec_bytes(),
        local_part(closing) == "t".spec_bytes() || local_part(closing) == "delText".spec_bytes(),
        forall|i: int|
            0 <= i < inner.len() ==> !is_paragraph_tag(#[trigger] inner[i]) && !is_run_tag(inner[i])
                && !is_terminal(inner[i]),
    ensures
        collected_text(
            seq![XmlToken::Start(opening)] + inner + seq![XmlToken::End(closing)] + rest,
            at,
            is_docx,
            before,
        ) == collected_text(
            rest,
            TextPosition { in_text_node: false, in_paragraph: at.in_paragraph },
            is_docx,
            before + texts_of(inner),
        ),
{
    lemma_local_names();
    let end = seq![XmlToken::End(closing)] + rest;
    let all = seq![XmlToken::Start(opening)] + inner + seq![XmlToken::End(closing)] + rest;
    assert(all[0] == XmlToken::Start(opening));
    assert(all.drop_first() =~= inner + end);
    let inside = TextPosition { in_text_node: true, in_paragraph: at.in_paragraph };
    assert(position_after(at, XmlToken::Start(opening)) == inside);
    assert(before + Seq::<char>::empty() =~= before);
    lemma_inside_run(inner, end, inside, is_docx, before);
    let text = before + texts_of(inner);
    assert(end[0] == XmlToken::End(closing));
    assert(end.drop_first() =~= rest);
    assert(text + added_text(inside, is_docx, text, XmlToken::End(closing)) =~= text);
}

proof fn lemma_inside_run(
    inner: Seq<XmlToken>,
    rest: Seq<XmlToken>,
    at: TextPosition,
    is_docx: bool,
    before: Seq<char>,
)
    requires
        at.in_text_node,
        forall|i: int|
            0 <= i < inner.len() ==> !is_paragraph_tag(#[trigger] inner[i]) && !is_run_tag(inner[i])
                && !is_terminal(inner[i]),
    ensures
        collected_text(inner + rest, at, is_docx, before) == collected_text(
            rest,
            at,
            is_docx,
            before + texts_of(inner),
        ),
    decreases inner.len(),
{
    if inner.len() == 0 {
        assert(inner + rest =~= rest);
        assert(before + texts_of(inner) =~= before);
    } else {
        let first = inner[0];
        let tail = inner.drop_first();
        assert(!is_paragraph_tag(first) && !is_run_tag(first) && !is_terminal(first));
        assert forall|i: int| 0 <= i < tail.len() implies !is_paragraph_tag(#[trigger] tail[i])
            && !is_run_tag(tail[i]) && !is_terminal(tail[i]) by {
            assert(tail[i] == inner[i + 1]);
        }
        let all = inner + rest;
        assert(all[0] == first);
        assert(all.drop_first() =~= tail + rest);
        assert(position_after(at, first) == at);
        assert(added_text(at, is_docx, before, first) =~= token_text(first));
        lemma_inside_run(tail, rest, at, is_docx, before + token_text(first));
        assert(before + token_text(first) + texts_of(tail) =~= before + texts_of(inner));
    }
}

/// Character data outside text runs is no text in a WordprocessingML file, and outside
/// paragraphs and headings none in any file. Tabs, line breaks and blanks still count within
/// a paragraph, and outside of it nothing does.
pub proof fn other_character_data_is_passed_over(
    tokens: Seq<XmlToken>,
    rest: Seq<XmlToken>,
    at: TextPosition,
    is_docx: bool,
    before: Seq<char>,
)
    requires
        !at.in_text_node,
        is_docx || !at.in_paragraph,
        forall|i: int|
            0 <= i < tokens.len() ==> !is_paragraph_tag(#[trigger] tokens[i]) && !is_run_tag(
                tokens[i],
            ) && !is_terminal(tokens[i]),
    ensures
        collected_text(tokens + rest, at, is_docx, before) == collected_text(
            rest,
            at,
            is_docx,
            if at.in_paragraph {
                before + element_texts(tokens)
            } else {
                before
            },
        ),
    decreases tokens.len(),
{
    if tokens.len() == 0 {
        assert(tokens + rest =~= rest);
        assert(before + element_texts(tokens) =~= before);
    } else {
        let first = tokens[0];
        let tail = tokens.drop_first();
        assert(!is_paragraph_tag(first) && !is_run_tag(first) && !is_terminal(first));
        assert forall|i: int| 0 <= i < tail.len() implies !is_paragraph_tag(#[trigger] tail[i])
            && !is_run_tag(tail[i]) && !is_terminal(tail[i]) by {
            assert(tail[i] == tokens[i + 1]);
        }
        let all = tokens + rest;
        assert(all[0] == first);
        assert(all.drop_first() =~= tail + rest);
        assert(position_after(at, first) == at);
        let next = before + added_text(at, is_docx, before, first);
        other_character_data_is_passed_over(tail, rest, at, is_docx, next);
        if at.in_paragraph && first is Empty {
            assert(next + element_texts(tail) =~= before + element_texts(tokens));
        } else {
            assert(next =~= before);
        }
    }
}

/// A paragraph or heading that ends gives a line break in every document, unless the text is
/// at the beginning of a line; one that begins adds nothing.
pub proof fn paragraphs_end_lines(
    name: Seq<u8>,
    rest: Seq<XmlToken>,
    at: TextPosition,
    is_docx: bool,
    before: Seq<char>,
)
    requires
        local_part(name) == "p".spec_bytes() || local_part(name) == "h".spec_bytes(),
    ensures
        collected_text(seq![XmlToken::End(name)] + rest, at, is_docx, before) == collected_text(
            rest,
            TextPosition { in_text_node: at.in_text_node, in_paragraph: false },
            is_docx,
            line_ended(before),
        ),
        collected_text(seq![XmlToken::Start(name)] + rest, at, is_docx, before) == collected_text(
            rest,
            TextPosition { in_text_node: at.in_text_node, in_paragraph: true },
            is_docx,
            before,
        ),
{
    lemma_local_names();
    let closing = seq![XmlToken::End(name)] + rest;
    assert(closing[0] == XmlToken::End(name));
    assert(closing.drop_first() =~= rest);
    assert(before + added_text(at, is_docx, before, closing[0]) =~= line_ended(before));
    let opening = seq![XmlToken::Start(name)] + rest;
    assert(opening[0] == XmlToken::Start(name));
    assert(opening.drop_first() =~= rest);
    assert(before + added_text(at, is_docx, before, opening[0]) =~= before);
}

/// Which empty elements have a text: a tab, a line break, and a run of blanks.
pub proof fn empty_elements_have_a_text(name: Seq<u8>, attributes: Seq<Option<AttributeView>>)
    ensures
        local_part(name) == "tab".spec_bytes() ==> element_text(name, attributes) == seq!['\t'],
        local_part(name) == "br".spec_bytes() || local_part(name) == "cr".spec_bytes()
            || local_part(name) == "line-break".spec_bytes() ==> element_text(name, attributes)
            == seq!['\n'],
        local_part(name) == "s".spec_bytes() && space_count(attributes) >= 0 ==> element_text(
            name,
            attributes,
        ).len() == space_count(attributes) && forall|i: int|
            0 <= i < space_count(attributes) ==> #[trigger] element_text(name, attributes)[i]
                == ' ',
        local_part(name) != "tab".spec_bytes() && local_part(name) != "br".spec_bytes()
            && local_part(name) != "cr".spec_bytes() && local_part(name)
            != "line-break".spec_bytes() && local_part(name) != "s".spec_bytes() ==> element_text(
            name,
            attributes,
        ).len() == 0,
{
    lemma_local_names();
}

/// How many blanks a space element stands for: what its attribute `c` says, where the first
/// one of that name is a number, and one where there is none or it is no number.
pub proof fn blanks_are_counted_by_an_attribute(
    others: Seq<Option<AttributeView>>,
    key: Seq<u8>,
    value: Seq<u8>,
    rest: Seq<Option<AttributeView>>,
)
    requires
        local_part(key) == "c".spec_bytes(),
        forall|i: int|
            0 <= i < others.len() ==> (#[trigger] others[i] matches Some(a) ==> local_part(a.key)
                != "c".spec_bytes()),
    ensures
        space_count(others) == 1,
        space_count(others + seq![Some(AttributeView { key, value })] + rest)
            == match numbers::number_value(value, 10, usize::MAX as int) {
            Some(n) => n,
            None => 1,
        },
    decreases others.len(),
{
    let all = others + seq![Some(AttributeView { key, value })] + rest;
    if others.len() == 0 {
        assert(all[0] == Some(AttributeView { key, value }));
    } else {
        let tail = others.drop_first();
        assert forall|i: int| 0 <= i < tail.len() implies (#[trigger] tail[i] matches Some(a)
            ==> local_part(a.key) != "c".spec_bytes()) by {
            assert(tail[i] == others[i + 1]);
        }
        blanks_are_counted_by_an_attribute(tail, key, value, rest);
        assert(all[0] == others[0]);
        assert(all.drop_first() =~= tail + seq![Some(AttributeView { key, value })] + rest);
    }
}

/// Reading stops at the end of the document, or where it is not well formed: then the text up
/// to there stays, with the reader's message.
pub proof fn reading_stops_at_the_end(
    message: Seq<char>,
    rest: Seq<XmlToken>,
    at: TextPosition,
    is_docx: bool,
    before: Seq<char>,
)
    ensures
        collected_text(seq![XmlToken::Eof] + rest, at, is_docx, before) == (
            before,
            None::<Seq<char>>,
        ),
        collected_text(seq![XmlToken::Failed(message)] + rest, at, is_docx, before) == (
            before,
            Some(message),
        ),
{
    assert((seq![XmlToken::Eof] + rest)[0] == XmlToken::Eof);
    assert((seq![XmlToken::Failed(message)] + rest)[0] == XmlToken::Failed(message));
}

/// Of a document that is cut off, the text at its end, and a tag that may go on, do not count
/// as known: what could still change is left out, and all before it stays.
pub proof fn beginnings_leave_out_what_may_go_on(
    xml: Seq<u8>,
    front: Seq<XmlToken>,
    raw: Seq<u8>,
    last: XmlToken,
)
    requires
        !(last is Text),
    ensures
        known_tokens(xml, front.push(XmlToken::Text(raw)).push(XmlToken::Eof)) == front,
        xml.len() > 0 && xml.last() == 0x3e ==> known_tokens(xml, front.push(last).push(XmlToken::Eof))
            == front.push(last).push(XmlToken::Eof),
        xml.len() == 0 || xml.last() != 0x3e ==> known_tokens(
            xml,
            front.push(last).push(XmlToken::Eof),
        ) == front,
{
    let text = front.push(XmlToken::Text(raw)).push(XmlToken::Eof);
    assert(text[text.len() - 2] == XmlToken::Text(raw));
    assert(text.take(text.len() - 2) =~= front);
    let tag = front.push(last).push(XmlToken::Eof);
    assert(tag[tag.len() - 2] == last);
    assert(tag.take(tag.len() - 2) =~= front);
}

/// A document is taken for WordprocessingML exactly where `w:document`, `w:p` or `w:t` stands
/// in it.
pub proof fn word_documents_show_their_tags(before: Seq<u8>, after: Seq<u8>, xml: Seq<u8>)
    ensures
        looks_like_docx(before + "w:document".spec_bytes() + after),
        looks_like_docx(before + "w:p".spec_bytes() + after),
        looks_like_docx(before + "w:t".spec_bytes() + after),
        (forall|k: int| !#[trigger] bytes::run_at(xml, k, "w:document".spec_bytes())) && (forall|k: int|
            !#[trigger] bytes::run_at(xml, k, "w:p".spec_bytes())) && (forall|k: int|
            !#[trigger] bytes::run_at(xml, k, "w:t".spec_bytes())) ==> !looks_like_docx(xml),
{
    lemma_stands_between(before, "w:document".spec_bytes(), after);
    lemma_stands_between(before, "w:p".spec_bytes(), after);
    lemma_stands_between(before, "w:t".spec_bytes(), after);
}

proof fn lemma_stands_between(before: Seq<u8>, needle: Seq<u8>, after: Seq<u8>)
    ensures
        bytes::contains_run(before + needle + after, needle),
{
    let all = before + needle + after;
    assert(all.subrange(before.len() as int, (before.len() + needle.len()) as int) =~= needle);
    assert(bytes::run_at(all, before.len() as int, needle));
}

/// A document begins outside of runs and paragraphs: one without either adds nothing, and one
/// that is a single paragraph or heading adds the text of that, as an OpenDocument file.
pub proof fn documents_begin_outside_of_text(
    xml: Seq<u8>,
    tokens: Seq<XmlToken>,
    opening: Seq<u8>,
    closing: Seq<u8>,
    is_docx: bool,
    before: Seq<char>,
)
    requires
        local_part(opening) == "p".spec_bytes() || local_part(opening) == "h".spec_bytes(),
        local_part(closing) == "p".spec_bytes() || local_part(closing) == "h".spec_bytes(),
        forall|i: int|
            0 <= i < tokens.len() ==> !is_paragraph_tag(#[trigger] tokens[i]) && !is_run_tag(
                tokens[i],
            ) && !is_terminal(tokens[i]),
    ensures
        xml_tokens(xml) == tokens + seq![XmlToken::Eof] ==> document_text(xml, is_docx, before) == (
            before,
            None::<Seq<char>>,
        ) && beginning_text(xml, is_docx, before) == before,
        xml_tokens(xml) == seq![XmlToken::Start(opening)] + tokens + seq![XmlToken::End(closing)]
            + seq![XmlToken::Eof] ==> document_text(xml, false, before) == (
            line_ended(before + texts_of(tokens)),
            None::<Seq<char>>,
        ),
{
    let end = seq![XmlToken::Eof];
    assert(end[0] == XmlToken::Eof);
    other_character_data_is_passed_over(tokens, end, outside_text(), is_docx, before);
    paragraph_text_is_collected(opening, tokens, closing, end, outside_text(), before);
    let all = tokens + end;
    let known = known_tokens(xml, all);
    if known != all {
        let short = tokens.take(tokens.len() - 1);
        assert(known =~= short);
        assert forall|i: int| 0 <= i < short.len() implies !is_paragraph_tag(#[trigger] short[i])
            && !is_run_tag(short[i]) && !is_terminal(short[i]) by {
            assert(short[i] == tokens[i]);
        }
        let nothing = Seq::<XmlToken>::empty();
        other_character_data_is_passed_over(short, nothing, outside_text(), is_docx, before);
        assert(short + nothing =~= short);
    }
}

/// What is said of a document that is not well formed.
pub proof fn errors_give_the_message_of_the_reader(message: Seq<char>)
    ensures
        message.is_suffix_of(xml_error_message(message)),
        xml_error_message(message).take(17) == "XML parse error: "@,
        xml_error_message(message).len() == message.len() + 17,
{
    reveal_strlit("XML parse error: ");
    let all = xml_error_message(message);
    assert(all.skip(17) =~= message);
    assert(all.take(17) =~= "XML parse error: "@);
}

} // verus!
