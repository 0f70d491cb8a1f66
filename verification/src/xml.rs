//! XML events as plain values, the text that each stands for, and the
//! trusted boundary to the `quick_xml` reader and escaping functions.
use vstd::prelude::*;

use quick_xml::events::Event;
use quick_xml::Reader;

verus! {

/// `quick_xml::Error`, the error of the XML reader.
#[verifier::external_type_specification]
#[verifier::external_body]
pub struct ExXmlError(quick_xml::Error);

/// `quick_xml::escape::EscapeError`, the error of unescaping text.
#[verifier::external_type_specification]
#[verifier::external_body]
pub struct ExEscapeError(quick_xml::escape::EscapeError);

/// `quick_xml::Reader`, the pull parser.
#[verifier::external_type_specification]
#[verifier::external_body]
#[verifier::reject_recursive_types(R)]
pub struct ExReader<R>(Reader<R>);

/// One event of an XML document, with the text that the reader reports
/// for it: for `Start` and `Empty` what stands between `<` and `>` (or
/// `/>`), the tag's name and its attributes as written; for `End` the name;
/// for the others their content as it appears in the document.
#[derive(Debug)]
pub enum XmlEvent {
    Start(String),
    Empty(String),
    End(String),
    Text(String),
    CData(String),
    Comment(String),
    Decl(String),
    PI(String),
    DocType(String),
    GeneralRef(String),
    Eof,
}

/// The mathematical content of an [`XmlEvent`].
pub enum EventView {
    Start(Seq<char>),
    Empty(Seq<char>),
    End(Seq<char>),
    Text(Seq<char>),
    CData(Seq<char>),
    Comment(Seq<char>),
    Decl(Seq<char>),
    PI(Seq<char>),
    DocType(Seq<char>),
    GeneralRef(Seq<char>),
    Eof,
}

impl View for XmlEvent {
    type V = EventView;

    open spec fn view(&self) -> EventView {
        match self {
            XmlEvent::Start(c) => EventView::Start(c@),
            XmlEvent::Empty(c) => EventView::Empty(c@),
            XmlEvent::End(n) => EventView::End(n@),
            XmlEvent::Text(c) => EventView::Text(c@),
            XmlEvent::CData(c) => EventView::CData(c@),
            XmlEvent::Comment(c) => EventView::Comment(c@),
            XmlEvent::Decl(c) => EventView::Decl(c@),
            XmlEvent::PI(c) => EventView::PI(c@),
            XmlEvent::DocType(c) => EventView::DocType(c@),
            XmlEvent::GeneralRef(c) => EventView::GeneralRef(c@),
            XmlEvent::Eof => EventView::Eof,
        }
    }
}

pub open spec fn events_view(v: Seq<XmlEvent>) -> Seq<EventView> {
    v.map_values(|e: XmlEvent| e@)
}

/// The markup that an event stands for: what `quick_xml`'s `Writer`
/// (without indentation) writes for it.
pub open spec fn markup(e: EventView) -> Seq<char> {
    match e {
        EventView::Start(c) => "<"@ + c + ">"@,
        EventView::Empty(c) => "<"@ + c + "/>"@,
        EventView::End(n) => "</"@ + n + ">"@,
        EventView::Text(c) => c,
        EventView::CData(c) => "<![CDATA["@ + c + "]]>"@,
        EventView::Comment(c) => "<!--"@ + c + "-->"@,
        EventView::Decl(c) => "<?"@ + c + "?>"@,
        EventView::PI(c) => "<?"@ + c + "?>"@,
        EventView::DocType(c) => "<!DOCTYPE "@ + c + ">"@,
        EventView::GeneralRef(c) => "&"@ + c + ";"@,
        EventView::Eof => seq![],
    }
}

/// The markup of a sequence of events, one after the other.
pub open spec fn markup_all(es: Seq<EventView>) -> Seq<char>
    decreases es.len(),
{
    if es.len() == 0 {
        seq![]
    } else {
        markup_all(es.drop_last()) + markup(es.last())
    }
}

fn wrapped(before: &str, content: &str, after: &str) -> (r: String)
    ensures
        r@ == before@ + content@ + after@,
{
    let mut r = String::new();
    r.append(before);
    r.append(content);
    r.append(after);
    r
}

/// The markup of one event (see [`markup`]).
pub fn event_markup(e: &XmlEvent) -> (r: String)
    ensures
        r@ == markup(e@),
{
    match e {
        XmlEvent::Start(c) => wrapped("<", c.as_str(), ">"),
        XmlEvent::Empty(c) => wrapped("<", c.as_str(), "/>"),
        XmlEvent::End(n) => wrapped("</", n.as_str(), ">"),
        XmlEvent::Text(c) => c.clone(),
        XmlEvent::CData(c) => wrapped("<![CDATA[", c.as_str(), "]]>"),
        XmlEvent::Comment(c) => wrapped("<!--", c.as_str(), "-->"),
        XmlEvent::Decl(c) => wrapped("<?", c.as_str(), "?>"),
        XmlEvent::PI(c) => wrapped("<?", c.as_str(), "?>"),
        XmlEvent::DocType(c) => wrapped("<!DOCTYPE ", c.as_str(), ">"),
        XmlEvent::GeneralRef(c) => wrapped("&", c.as_str(), ";"),
        XmlEvent::Eof => String::new(),
    }
}

/// A copy of an event.
pub fn copy_event(e: &XmlEvent) -> (r: XmlEvent)
    ensures
        r@ == e@,
{
    match e {
        XmlEvent::Start(c) => XmlEvent::Start(c.clone()),
        XmlEvent::Empty(c) => XmlEvent::Empty(c.clone()),
        XmlEvent::End(n) => XmlEvent::End(n.clone()),
        XmlEvent::Text(c) => XmlEvent::Text(c.clone()),
        XmlEvent::CData(c) => XmlEvent::CData(c.clone()),
        XmlEvent::Comment(c) => XmlEvent::Comment(c.clone()),
        XmlEvent::Decl(c) => XmlEvent::Decl(c.clone()),
        XmlEvent::PI(c) => XmlEvent::PI(c.clone()),
        XmlEvent::DocType(c) => XmlEvent::DocType(c.clone()),
        XmlEvent::GeneralRef(c) => XmlEvent::GeneralRef(c.clone()),
        XmlEvent::Eof => XmlEvent::Eof,
    }
}

/// The index of the first occurrence of `c` in `s`.
pub open spec fn first_index(s: Seq<char>, c: char) -> Option<int>
    decreases s.len(),
{
    if s.len() == 0 {
        None
    } else if s[0] == c {
        Some(0)
    } else {
        match first_index(s.drop_first(), c) {
            Some(i) => Some(i + 1),
            None => None,
        }
    }
}

/// The index of the last occurrence of `c` in `s`.
pub open spec fn last_index(s: Seq<char>, c: char) -> Option<int>
    decreases s.len(),
{
    if s.len() == 0 {
        None
    } else if s.last() == c {
        Some(s.len() - 1)
    } else {
        last_index(s.drop_last(), c)
    }
}

/// The white space that separates the name of a tag from its attributes.
pub open spec fn is_xml_space(c: char) -> bool {
    c == ' ' || c == '\t' || c == '\r' || c == '\n'
}

/// The length of the first word of a tag's content.
pub open spec fn name_len(c: Seq<char>) -> nat
    decreases c.len(),
{
    if c.len() == 0 || is_xml_space(c[0]) {
        0
    } else {
        1 + name_len(c.drop_first())
    }
}

/// The qualified name of a start or self-closing tag whose content is `c`:
/// its first word (as `quick_xml`'s reader splits a tag).
pub open spec fn tag_name(c: Seq<char>) -> Seq<char> {
    c.take(name_len(c) as int)
}

/// The local part of a qualified name: everything after the first `:`, or
/// the whole name when it has none (as `quick_xml`'s `QName::local_name`).
pub open spec fn local_name(q: Seq<char>) -> Seq<char> {
    match first_index(q, ':') {
        Some(i) => q.skip(i + 1),
        None => q,
    }
}

} // verus!

verus! {

/// What one character becomes when text is escaped for XML content:
/// `<`, `>`, `&`, `'`, `"` and carriage return are replaced by references.
pub open spec fn escaped_char(c: char) -> Seq<char> {
    if c == '<' {
        "&lt;"@
    } else if c == '>' {
        "&gt;"@
    } else if c == '&' {
        "&amp;"@
    } else if c == '\'' {
        "&apos;"@
    } else if c == '"' {
        "&quot;"@
    } else if c == '\r' {
        "&#13;"@
    } else {
        seq![c]
    }
}

/// Text escaped for XML content, character by character.
pub open spec fn escaped(s: Seq<char>) -> Seq<char>
    decreases s.len(),
{
    if s.len() == 0 {
        seq![]
    } else {
        escaped(s.drop_last()) + escaped_char(s.last())
    }
}

/// Calls `quick_xml::escape::escape`, which replaces `<`, `>`, `&`, `'`,
/// `"` and `\r` by their references and keeps every other character; this
/// is the escaping that `BytesText::new` applies. The contract states that,
/// and that `quick_xml::escape::unescape` gives the text back from the
/// result (it resolves those predefined entities and character references).
#[verifier::external_body]
pub fn escape_text(s: &str) -> (r: String)
    ensures
        r@ == escaped(s@),
        xml_unescape(r@) == Some(s@),
{
    quick_xml::escape::escape(s).into_owned()
}

/// The result of `quick_xml::escape::unescape` on a text: the text with its
/// entity and character references replaced, or `None` where a reference
/// is unknown, malformed or unterminated.
pub uninterp spec fn xml_unescape(raw: Seq<char>) -> Option<Seq<char>>;

/// Calls `quick_xml::escape::unescape`. The contract ties the result to
/// [`xml_unescape`] and states what the source shows for text without `&`:
/// it comes back unchanged and without error.
#[verifier::external_body]
pub fn unescape_text(raw: &str) -> (r: Result<String, quick_xml::escape::EscapeError>)
    ensures
        (r is Ok) == (xml_unescape(raw@) is Some),
        r matches Ok(s) ==> xml_unescape(raw@) == Some(s@),
        r is Ok || raw@.contains('&'),
        r matches Ok(s) ==> (s@ == raw@ || raw@.contains('&')),
{
    match quick_xml::escape::unescape(raw) {
        Ok(s) => Ok(s.into_owned()),
        Err(e) => Err(e),
    }
}

/// The event that `quick_xml`'s `Reader`, made by `Reader::from_str` on
/// `input` with text trimming off, returns on its call number `index`
/// (counting from 0) when every earlier call succeeded; `None` when that
/// call fails.
pub uninterp spec fn xml_token(input: Seq<char>, index: nat) -> Option<EventView>;

/// A reader over one document together with the document and the number of
/// events read from it so far.
pub(crate) struct XmlCursor<'a> {
    reader: Reader<&'a [u8]>,
    source: Ghost<Seq<char>>,
    read: Ghost<nat>,
}

impl<'a> View for XmlCursor<'a> {
    type V = (Seq<char>, nat);

    closed spec fn view(&self) -> (Seq<char>, nat) {
        (self.source@, self.read@)
    }
}

/// Calls `Reader::from_str` on `input` and turns text trimming off, as the
/// conversion reads documents. The contract only records which document the
/// reader reads and that nothing has been read yet.
#[verifier::external_body]
pub(crate) fn open_document<'a>(input: &'a str) -> (c: XmlCursor<'a>)
    ensures
        c@ == (input@, 0nat),
{
    let mut reader = Reader::from_str(input);
    reader.config_mut().trim_text(false);
    XmlCursor { reader, source: Ghost(input@), read: Ghost(0) }
}

/// Calls `Reader::read_event` once and turns the event into an
/// [`XmlEvent`] of the same kind with the same text. The cursor comes back
/// only on success; its count of events read is a ghost record, which the
/// contract advances. The
/// contract ties the event to [`xml_token`] and states two facts of the
/// reader's source: every event but `Eof` consumes at least one character
/// of the document (so at most as many events as characters precede
/// `Eof`), and text events never contain `&` or `<` (references and markup
/// are reported as events of their own).
#[verifier::external_body]
pub(crate) fn next_event<'a>(mut cursor: XmlCursor<'a>) -> (r: Result<
    (XmlEvent, XmlCursor<'a>),
    quick_xml::Error,
>)
    ensures
        (r is Ok) == (xml_token(cursor@.0, cursor@.1) is Some),
        r matches Ok((e, next)) ==> {
            &&& xml_token(cursor@.0, cursor@.1) == Some(e@)
            &&& next@ == (cursor@.0, cursor@.1 + 1)
            &&& (e@ !is Eof ==> cursor@.1 < cursor@.0.len())
            &&& (e@ matches EventView::Text(t) ==> !t.contains('&') && !t.contains('<'))
        },
{
    let e = cursor.reader.read_event()?;
    let c = (*e).to_owned();
    Ok((match e {
        Event::Start(_) => XmlEvent::Start(c),
        Event::Empty(_) => XmlEvent::Empty(c),
        Event::End(_) => XmlEvent::End(c),
        Event::Text(_) => XmlEvent::Text(c),
        Event::CData(_) => XmlEvent::CData(c),
        Event::Comment(_) => XmlEvent::Comment(c),
        Event::Decl(_) => XmlEvent::Decl(c),
        Event::PI(_) => XmlEvent::PI(c),
        Event::DocType(_) => XmlEvent::DocType(c),
        Event::GeneralRef(_) => XmlEvent::GeneralRef(c),
        Event::Eof => XmlEvent::Eof,
    }, cursor))
}

} // verus!

verus! {

/// [`first_index`] finds the first occurrence, or tells that there is none.
pub proof fn lemma_first_index(s: Seq<char>, c: char)
    ensures
        match first_index(s, c) {
            Some(k) => 0 <= k < s.len() && s[k] == c && forall|j: int| 0 <= j < k ==> s[j] != c,
            None => forall|j: int| 0 <= j < s.len() ==> s[j] != c,
        },
    decreases s.len(),
{
    if s.len() > 0 && s[0] != c {
        lemma_first_index(s.drop_first(), c);
        assert forall|j: int| 0 < j < s.len() implies s[j] == s.drop_first()[j - 1] by {}
    }
}

/// [`last_index`] finds the last occurrence, or tells that there is none.
pub proof fn lemma_last_index(s: Seq<char>, c: char)
    ensures
        match last_index(s, c) {
            Some(k) => 0 <= k < s.len() && s[k] == c && forall|j: int| k < j < s.len() ==> s[j] != c,
            None => forall|j: int| 0 <= j < s.len() ==> s[j] != c,
        },
    decreases s.len(),
{
    if s.len() > 0 && s.last() != c {
        lemma_last_index(s.drop_last(), c);
        assert forall|j: int| 0 <= j < s.len() - 1 implies s[j] == s.drop_last()[j] by {}
    }
}

} // verus!

verus! {

/// The first word of a tag's content holds no XML white space and is
/// followed by white space or nothing.
pub proof fn lemma_name_len(c: Seq<char>)
    ensures
        name_len(c) <= c.len(),
        forall|j: int| 0 <= j < name_len(c) ==> !is_xml_space(#[trigger] c[j]),
        name_len(c) < c.len() ==> is_xml_space(c[name_len(c) as int]),
    decreases c.len(),
{
    if c.len() > 0 && !is_xml_space(c[0]) {
        lemma_name_len(c.drop_first());
        assert forall|j: int| 0 < j < name_len(c) implies !is_xml_space(#[trigger] c[j]) by {
            assert(c[j] == c.drop_first()[j - 1]);
        }
    }
}

/// The name of a tag whose content is `content` (see [`tag_name`]).
pub fn tag_name_of(content: &str) -> (r: String)
    ensures
        r@ == tag_name(content@),
{
    let c = crate::text::chars_of(content);
    let mut i: usize = 0;
    while i < c.len() && !(c[i] == ' ' || c[i] == '\t' || c[i] == '\r' || c[i] == '\n')
        invariant
            c@ == content@,
            0 <= i <= c@.len(),
            forall|j: int| 0 <= j < i ==> !is_xml_space(#[trigger] c@[j]),
        decreases c.len() - i,
    {
        i += 1;
    }
    proof {
        lemma_name_len(content@);
        if (i as nat) < name_len(content@) {
            assert(is_xml_space(c@[i as int]));
        }
        if name_len(content@) < (i as nat) {
            assert(!is_xml_space(c@[name_len(content@) as int]));
        }
    }
    content.substring_char(0, i).to_string()
}

} // verus!
