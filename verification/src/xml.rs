//! The boundary to the XML tokenizer.
//!
//! The tokenizer is `quick_xml`. Nothing of it is verified here: this module
//! states, item by item, what the rest of the library relies on. A document is
//! held in memory, so what a reader hands out is a function of its state alone,
//! and that is how the contracts below model it: a reader stands for the
//! sequence of steps it has still to hand out.

use quick_xml::events::Event;
use vstd::prelude::*;
use vstd::string::StringSliceAdditionalSpecFns;

verus! {

/// One event of the tokenizer, with the bytes that the library reads of it.
///
/// `name` is the raw tag name; `content` is the raw text between the angle
/// brackets of a tag (name and attributes), or the raw character data.
pub enum XmlEvent {
    Start { name: Vec<u8>, content: Vec<u8> },
    End { name: Vec<u8> },
    Empty { name: Vec<u8>, content: Vec<u8> },
    Text { content: Vec<u8> },
    Comment,
    CData,
    Decl,
    PI,
    DocType,
    Eof,
}

/// One attribute of a tag as the tokenizer splits it: raw key, raw value.
pub struct RawAttribute {
    pub key: Vec<u8>,
    pub value: Vec<u8>,
}

/// The tokenizer's error, carried through unread.
#[verifier::external_type_specification]
#[verifier::external_body]
pub struct ExXmlError(quick_xml::Error);

/// The tokenizer's attribute; the library reads it as a `RawAttribute`.
#[verifier::external_type_specification]
#[verifier::external_body]
pub struct ExAttribute<'a>(quick_xml::events::attributes::Attribute<'a>);

/// The tokenizer's iterator over the attributes of one tag.
#[verifier::external_type_specification]
#[verifier::external_body]
pub struct ExAttributes<'a>(quick_xml::events::attributes::Attributes<'a>);

/// A forward-only cursor over the events of one in-memory document: a
/// `quick_xml::Reader` over a byte slice.
#[verifier::external_body]
pub struct EventReader<'a> {
    inner: quick_xml::Reader<&'a [u8]>,
}

/// One step of a reader: an event, or the tokenizer's error.
pub type Step = Result<XmlEvent, quick_xml::Error>;

/// The steps that `reader` has still to hand out, up to and including the
/// first end of input or error.
pub uninterp spec fn upcoming(reader: EventReader) -> Seq<Step>;

/// The steps of a fresh reader over the document `bytes`.
pub uninterp spec fn document_events(bytes: Seq<u8>) -> Seq<Step>;

/// The items that an attribute iterator has still to hand out; `None` stands
/// for a malformed or duplicated attribute.
pub uninterp spec fn attributes_left(it: quick_xml::events::attributes::Attributes) -> Seq<
    Option<RawAttribute>,
>;

/// The items of a fresh attribute iterator over the tag `content`, whose name
/// takes the first `name_len` bytes.
pub uninterp spec fn tag_attributes(content: Seq<u8>, name_len: int) -> Seq<Option<RawAttribute>>;

/// Character data `content`, decoded as UTF-8 and with its escapes resolved;
/// `None` where the tokenizer fails on it.
pub uninterp spec fn unescaped_text(content: Seq<u8>) -> Option<Seq<char>>;

/// An attribute's raw `value`, decoded as UTF-8 and with its escapes resolved;
/// `None` where the tokenizer fails on it.
pub uninterp spec fn unescaped_value(value: Seq<u8>) -> Option<Seq<char>>;

/// A step after which a reader hands out nothing but end of input.
pub open spec fn is_terminal(step: Step) -> bool {
    step is Err || step matches Ok(XmlEvent::Eof)
}

/// `step` is the start tag `name`.
pub open spec fn is_start(step: Step, name: Seq<u8>) -> bool {
    step matches Ok(XmlEvent::Start { name: n, .. }) && n@ == name
}

/// `step` is the end tag `name`.
pub open spec fn is_end(step: Step, name: Seq<u8>) -> bool {
    step matches Ok(XmlEvent::End { name: n }) && n@ == name
}

/// What is left of `s` once its first `k` steps are taken: after a terminal
/// step a reader hands out end of input for ever.
pub open spec fn after_taking(s: Seq<Step>, k: nat) -> Seq<Step> {
    if 1 <= k <= s.len() && is_terminal(s[k - 1]) {
        seq![Ok(XmlEvent::Eof)]
    } else {
        s.skip(k as int)
    }
}

/// Does a search for the end tag `end`, `depth` start tags of that name being
/// open, find it in `s` before a terminal step?
pub open spec fn finds_end(s: Seq<Step>, end: Seq<u8>, depth: nat) -> bool
    decreases s.len(),
{
    if s.len() == 0 || is_terminal(s[0]) {
        false
    } else if is_end(s[0], end) {
        depth == 0 || finds_end(s.drop_first(), end, (depth - 1) as nat)
    } else if is_start(s[0], end) {
        finds_end(s.drop_first(), end, depth + 1)
    } else {
        finds_end(s.drop_first(), end, depth)
    }
}

/// The number of steps that this search takes from `s`: up to and including
/// the end tag found, or the terminal step that stops it.
pub open spec fn end_distance(s: Seq<Step>, end: Seq<u8>, depth: nat) -> nat
    decreases s.len(),
{
    if s.len() == 0 {
        0
    } else if is_terminal(s[0]) {
        1
    } else if is_end(s[0], end) {
        if depth == 0 {
            1
        } else {
            1 + end_distance(s.drop_first(), end, (depth - 1) as nat)
        }
    } else if is_start(s[0], end) {
        1 + end_distance(s.drop_first(), end, depth + 1)
    } else {
        1 + end_distance(s.drop_first(), end, depth)
    }
}

/// The raw character data that stands first in `s`, empty where none does.
pub open spec fn first_text(s: Seq<Step>) -> Seq<u8> {
    if s.len() > 0 {
        match s[0] {
            Ok(XmlEvent::Text { content }) => content@,
            _ => Seq::empty(),
        }
    } else {
        Seq::empty()
    }
}

/// The text that reading the element `end` yields when the reader stands
/// just behind its start tag, or `None` where that fails; `data` is the
/// first step's character data, unescaped.
///
/// Character data followed, at whatever distance, by the matching end tag
/// yields the data unescaped; an end tag at once yields the empty text;
/// anything else fails.
pub open spec fn text_read(s: Seq<Step>, end: Seq<u8>, data: Option<Seq<char>>) -> Option<
    Seq<char>,
> {
    if s.len() == 0 {
        None
    } else if s[0] matches Ok(XmlEvent::Text { .. }) {
        if finds_end(s.drop_first(), end, 0) {
            data
        } else {
            None
        }
    } else if is_end(s[0], end) {
        Some(Seq::empty())
    } else {
        None
    }
}

/// The text of the element `end` read from `s`, or `None` where reading it
/// fails.
pub open spec fn element_text(s: Seq<Step>, end: Seq<u8>) -> Option<Seq<char>> {
    text_read(s, end, unescaped_text(first_text(s)))
}

/// The number of steps that reading the element `end` takes from `s`.
pub open spec fn text_taken(s: Seq<Step>, end: Seq<u8>) -> nat {
    if s.len() == 0 {
        0
    } else if s[0] matches Ok(XmlEvent::Text { .. }) {
        1 + end_distance(s.drop_first(), end, 0)
    } else {
        1
    }
}

impl<'a> EventReader<'a> {
    /// A reader at the start of the document `bytes`.
    pub fn from_reader(bytes: &'a [u8]) -> (reader: Self)
        ensures
            upcoming(reader) == document_events(bytes@),
    {
        open_reader(bytes)
    }

    /// A reader at the start of the document `text`.
    pub fn from_str(text: &'a str) -> (reader: Self)
        ensures
            upcoming(reader) == document_events(text.spec_bytes()),
    {
        open_reader(text.as_bytes())
    }
}

/// `quick_xml::Reader::from_reader` on a byte slice: a reader with the default
/// settings. The contract only gives its steps their name.
#[verifier::external_body]
fn open_reader<'a>(bytes: &'a [u8]) -> (reader: EventReader<'a>)
    ensures
        upcoming(reader) == document_events(bytes@),
{
    EventReader { inner: quick_xml::Reader::from_reader(bytes) }
}

/// `quick_xml::Reader::read_event`, called with an empty buffer.
///
/// The contract claims that the call hands out the first upcoming step, each
/// variant of the tokenizer's event turned into the variant of the same name,
/// and that the reader then stands behind it; after end of input or an error
/// it hands out end of input only.
#[verifier::external_body]
pub(crate) fn read_event(reader: &mut EventReader) -> (r: Step)
    ensures
        upcoming(*old(reader)).len() >= 1,
        r == upcoming(*old(reader))[0],
        upcoming(*final(reader)) == after_taking(upcoming(*old(reader)), 1),
{
    let mut buf = Vec::new();
    Ok(match reader.inner.read_event(&mut buf)? {
        Event::Start(e) => XmlEvent::Start { name: e.name().to_vec(), content: e.to_vec() },
        Event::End(e) => XmlEvent::End { name: e.name().to_vec() },
        Event::Empty(e) => XmlEvent::Empty { name: e.name().to_vec(), content: e.to_vec() },
        Event::Text(e) => XmlEvent::Text { content: e.to_vec() },
        Event::Comment(_) => XmlEvent::Comment,
        Event::CData(_) => XmlEvent::CData,
        Event::Decl(_) => XmlEvent::Decl,
        Event::PI(_) => XmlEvent::PI,
        Event::DocType(_) => XmlEvent::DocType,
        Event::Eof => XmlEvent::Eof,
    })
}

/// `quick_xml::Reader::read_text`, called with an empty buffer.
///
/// The contract claims what the method's documentation and source show: it
/// takes one step; if that is character data, it goes on to the matching end
/// tag, counting nested start tags of the same name, and returns the data
/// decoded and unescaped; if it is the end tag, it returns the empty text;
/// in every other case, and where the end tag is not found, it fails.
#[verifier::external_body]
pub(crate) fn read_text(reader: &mut EventReader, end: &[u8]) -> (r: Result<String, quick_xml::Error>)
    ensures
        upcoming(*old(reader)).len() >= 1,
        r is Ok <==> text_read(
            upcoming(*old(reader)),
            end@,
            unescaped_text(first_text(upcoming(*old(reader)))),
        ) is Some,
        r matches Ok(text) ==> Some(text@) == text_read(
            upcoming(*old(reader)),
            end@,
            unescaped_text(first_text(upcoming(*old(reader)))),
        ),
        upcoming(*final(reader)) == after_taking(
            upcoming(*old(reader)),
            text_taken(upcoming(*old(reader)), end@),
        ),
{
    let mut buf = Vec::new();
    reader.inner.read_text(end, &mut buf)
}

/// `quick_xml::events::attributes::Attributes::new`: the iterator that a tag
/// hands out for its attributes. The contract only gives its items their name.
#[verifier::external_body]
pub(crate) fn open_attributes<'a>(content: &'a [u8], name_len: usize) -> (it:
    quick_xml::events::attributes::Attributes<'a>)
    ensures
        attributes_left(it) == tag_attributes(content@, name_len as int),
{
    quick_xml::events::attributes::Attributes::new(content, name_len)
}

/// `Iterator::next` of `quick_xml::events::attributes::Attributes`.
///
/// The contract claims that the call hands out the first item left and moves
/// behind it, and that it returns `None` once nothing is left, from then on.
#[verifier::external_body]
pub(crate) fn next_attribute(it: &mut quick_xml::events::attributes::Attributes) -> (r: Option<
    Option<RawAttribute>,
>)
    ensures
        r is None <==> attributes_left(*old(it)).len() == 0,
        r matches Some(item) ==> item == attributes_left(*old(it))[0] && attributes_left(*final(it))
            == attributes_left(*old(it)).drop_first(),
        r is None ==> attributes_left(*final(it)) == attributes_left(*old(it)),
{
    match it.next() {
        Some(Ok(a)) => Some(Some(RawAttribute { key: a.key.to_vec(), value: a.value.to_vec() })),
        Some(Err(_)) => Some(None),
        None => None,
    }
}

/// `quick_xml::events::attributes::Attribute::unescape_and_decode_value` on an
/// attribute with the raw value `value`. The result depends on the value
/// alone; the contract gives it its name.
#[verifier::external_body]
pub(crate) fn unescape_value(reader: &EventReader, value: &[u8]) -> (r: Result<
    String,
    quick_xml::Error,
>)
    ensures
        r is Ok <==> unescaped_value(value@) is Some,
        r matches Ok(text) ==> Some(text@) == unescaped_value(value@),
{
    quick_xml::events::attributes::Attribute::from((&[][..], value)).unescape_and_decode_value(
        &reader.inner,
    )
}

/// The tokenizer's error for input that ends too early,
/// `quick_xml::Error::UnexpectedEof`, with the message `what`.
#[verifier::external_body]
pub(crate) fn unexpected_eof(what: &str) -> quick_xml::Error {
    quick_xml::Error::UnexpectedEof(what.to_owned())
}

} // verus!
