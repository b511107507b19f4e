//! Reading units, airports and navigation aids from the events of an XML
//! document.
//!
//! Each reader of an element starts just behind the element's start tag and
//! takes events up to its end tag. What it returns and where it leaves the
//! cursor is stated over the steps that the cursor had still to hand out.

use crate::aixm::{
    built_airport, built_navaid, built_unit, text_of, Airport, AirportBuilder, AirportView, Navaid,
    NavaidBuilder, NavaidType, NavaidView, Unit, UnitBuilder, UnitView,
};
use crate::error::DataError;
use crate::geo::{aixm_position, LatLon};
use crate::text::{
    bytes_eq, find, find_char, find_text, position_of, str_eq, to_chars, trim, trimmed,
};
use crate::xml::{
    after_taking, attributes_left, element_text, end_distance, finds_end, is_end, is_start,
    is_terminal, next_attribute, open_attributes, read_event, read_text, tag_attributes,
    text_taken, unescape_value, unescaped_text, unescaped_value, unexpected_eof, upcoming,
    EventReader, RawAttribute, Step, XmlEvent,
};
use vstd::prelude::*;
use vstd::string::StrSliceExecFns;
use vstd::string::StringSliceAdditionalSpecFns;

verus! {

pub const UNIT_TAG: &'static str = "aixm:Unit";

pub const AIRPORT_TAG: &'static str = "aixm:AirportHeliport";

pub const NAVAID_TAG: &'static str = "aixm:Navaid";

pub const DESIGNATOR_TAG: &'static str = "aixm:designator";

pub const TYPE_TAG: &'static str = "aixm:type";

pub const AIRPORT_LOCATION_TAG: &'static str = "aixm:airportLocation";

pub const POSITION_TAG: &'static str = "gml:pos";

pub const LOW_ID_TAG: &'static str = "nav:artccIdForLowAltitude";

/// The attribute that holds a link to another element.
pub const LINK_ATTRIBUTE: &'static str = "xlink:href";

/// The attribute that holds an element's identifier.
pub const ID_ATTRIBUTE: &'static str = "gml:id";

/// What stands in a link before the identifier it refers to.
pub const ID_MARKER: &'static str = "@gml:id";

/// The type of the units whose airports are wanted.
pub const CENTER_TYPE: &'static str = "ARTCC";

pub const VORTAC_TYPE: &'static str = "VORTAC";

pub const VORDME_TYPE: &'static str = "VOR_DME";

/// The identifier that a link refers to: what stands between the first and
/// the second quote behind the marker, trimmed; up to the end where there is
/// no second quote. `None` where the marker or the first quote is not there.
pub open spec fn gml_id(href: Seq<char>) -> Option<Seq<char>> {
    match find(href, ID_MARKER@) {
        None => None,
        Some(at) => {
            let open = position_of(href, '\'', at);
            if open >= href.len() {
                None
            } else {
                Some(trimmed(href.subrange(open + 1, position_of(href, '\'', open + 1))))
            }
        },
    }
}

/// The raw value of the first attribute with the key `key` among `items`,
/// up to the first malformed one.
pub open spec fn attribute_value(items: Seq<Option<RawAttribute>>, key: Seq<u8>) -> Option<Seq<u8>>
    decreases items.len(),
{
    if items.len() == 0 {
        None
    } else {
        match items[0] {
            Some(a) => if a.key@ == key {
                Some(a.value@)
            } else {
                attribute_value(items.drop_first(), key)
            },
            None => attribute_value(items.drop_first(), key),
        }
    }
}

/// The result of looking for a text: it is there, it is not there, or
/// reading it fails.
pub enum Lookup {
    Text(Seq<char>),
    Absent,
    Broken,
}

/// The text of the attribute `key` of the tag `content`, whose name takes
/// the first `name_len` bytes.
pub open spec fn attribute_text(content: Seq<u8>, name_len: int, key: Seq<u8>) -> Lookup {
    match attribute_value(tag_attributes(content, name_len), key) {
        None => Lookup::Absent,
        Some(raw) => match unescaped_value(raw) {
            Some(text) => Lookup::Text(text),
            None => Lookup::Broken,
        },
    }
}

/// The identifier that the link of the tag `content` refers to.
pub open spec fn gml_link(content: Seq<u8>, name_len: int) -> Lookup {
    match attribute_text(content, name_len, LINK_ATTRIBUTE.spec_bytes()) {
        Lookup::Text(href) => match gml_id(href) {
            Some(id) => Lookup::Text(id),
            None => Lookup::Absent,
        },
        other => other,
    }
}

/// `r` is the result that `lookup` asks for.
pub open spec fn found(r: Result<Option<String>, DataError>, lookup: Lookup) -> bool {
    match lookup {
        Lookup::Text(text) => r matches Ok(Some(s)) && s@ == text,
        Lookup::Absent => r matches Ok(None),
        Lookup::Broken => r matches Err(DataError::XML { .. }),
    }
}

/// The identifier that the link `href` refers to.
pub fn extract_gml_id<'a>(href: &'a str) -> (r: Option<&'a str>)
    ensures
        match gml_id(href@) {
            Some(id) => r matches Some(s) && s@ == id,
            None => r is None,
        },
{
    let chars = to_chars(href);
    let marker = to_chars(ID_MARKER);
    let at = match find_text(&chars, &marker) {
        Some(at) => at,
        None => { return None; },
    };
    proof {
        assert(crate::text::occurs_at(chars@, marker@, at as int)) by {
            lemma_find_is_there(chars@, marker@, 0);
        }
    }
    let open = find_char(&chars, '\'', at);
    if open >= chars.len() {
        return None;
    }
    let close = find_char(&chars, '\'', open + 1);
    Some(trim(href.substring_char(open + 1, close)))
}

/// Where `find_from` finds the pattern, it stands.
pub proof fn lemma_find_is_there(s: Seq<char>, pattern: Seq<char>, from: int)
    requires
        crate::text::find_from(s, pattern, from) is Some,
    ensures
        crate::text::occurs_at(s, pattern, crate::text::find_from(s, pattern, from)->Some_0),
        from <= crate::text::find_from(s, pattern, from)->Some_0,
    decreases s.len() + 1 - from,
{
    if !crate::text::occurs_at(s, pattern, from) {
        lemma_find_is_there(s, pattern, from + 1);
    }
}

/// The text of the attribute `attr` of the tag `content`, whose name takes
/// the first `name_len` bytes.
pub fn get_attribute(reader: &EventReader, content: &[u8], name_len: usize, attr: &str) -> (r:
    Result<Option<String>, DataError>)
    ensures
        found(r, attribute_text(content@, name_len as int, attr.spec_bytes())),
{
    let mut it = open_attributes(content, name_len);
    loop
        invariant
            attribute_value(tag_attributes(content@, name_len as int), attr.spec_bytes())
                == attribute_value(attributes_left(it), attr.spec_bytes()),
        decreases attributes_left(it).len(),
    {
        match next_attribute(&mut it) {
            None => {
                return Ok(None);
            },
            Some(None) => {},
            Some(Some(a)) => {
                if bytes_eq(a.key.as_slice(), attr.as_bytes()) {
                    return match unescape_value(reader, a.value.as_slice()) {
                        Ok(text) => Ok(Some(text)),
                        Err(e) => Err(DataError::from(e)),
                    };
                }
            },
        }
    }
}

/// The identifier that the link of the tag `content` refers to.
pub fn get_gml_link(reader: &EventReader, content: &[u8], name_len: usize) -> (r: Result<
    Option<String>,
    DataError,
>)
    ensures
        found(r, gml_link(content@, name_len as int)),
{
    match get_attribute(reader, content, name_len, LINK_ATTRIBUTE) {
        Err(e) => Err(e),
        Ok(None) => Ok(None),
        Ok(Some(href)) => match extract_gml_id(href.as_str()) {
            Some(id) => Ok(Some(String::from_str(id))),
            None => Ok(None),
        },
    }
}

/// How reading one element, or a whole document, ends.
pub enum Scan<T> {
    /// It gave an item.
    Found(T),
    /// The element lacked something that is required; the reader stands
    /// behind it and can go on.
    Skipped,
    /// The tokenizer failed, with the error where it is the tokenizer's own
    /// step, or the input ended inside the element.
    Failed(Option<quick_xml::Error>),
    /// A position was not two numbers of degrees.
    BadPosition(Seq<char>),
}

/// `r` is the result that `outcome` asks for.
pub open spec fn yields<T: View>(r: Result<T, DataError>, outcome: Scan<T::V>) -> bool {
    match outcome {
        Scan::Found(item) => r matches Ok(x) && x@ == item,
        Scan::Skipped => r matches Err(DataError::NotYielded),
        Scan::Failed(cause) => r matches Err(DataError::XML { quick_xml }) && (cause matches Some(e)
            ==> quick_xml == e),
        Scan::BadPosition(text) => r matches Err(DataError::LatLon { text: t }) && t@ == text,
    }
}

/// What is left of `s` once the text of the element `end` is read from it.
pub open spec fn after_text(s: Seq<Step>, end: Seq<u8>) -> Seq<Step> {
    after_taking(s, text_taken(s, end))
}

/// The text that a lookup found, a text that is absent counting as none.
pub open spec fn lookup_text(lookup: Lookup) -> Option<Seq<char>> {
    match lookup {
        Lookup::Text(text) => Some(text),
        _ => None,
    }
}

/// The unit that an element gives and what is left behind it, read from `s`
/// with the fields `designator`, `ty` and `location` already there.
///
/// A designator or type element sets its field to its text, a location
/// element sets its field to the identifier that its link refers to, or
/// clears it where the link refers to none; of several the last counts. The
/// unit's end tag ends the element: with all three fields there it gives the
/// unit, else it is skipped. Everything else is passed over. An error of the
/// tokenizer, a text or link that cannot be read, and the end of the input
/// fail.
pub open spec fn unit_scan(
    s: Seq<Step>,
    designator: Option<Seq<char>>,
    ty: Option<Seq<char>>,
    location: Option<Seq<char>>,
) -> (Scan<UnitView>, Seq<Step>)
    decreases s.len(),
{
    if s.len() == 0 {
        (Scan::Failed(None), s)
    } else {
        let rest = after_taking(s, 1);
        match s[0] {
            Err(e) => (Scan::Failed(Some(e)), rest),
            Ok(XmlEvent::Eof) => (Scan::Failed(None), rest),
            Ok(XmlEvent::Start { name, .. }) => {
                if name@ == DESIGNATOR_TAG.spec_bytes() || name@ == TYPE_TAG.spec_bytes() {
                    proof {
                        lemma_after_text_len(rest, name@);
                    }
                    match element_text(rest, name@) {
                        Some(text) => if name@ == DESIGNATOR_TAG.spec_bytes() {
                            unit_scan(after_text(rest, name@), Some(text), ty, location)
                        } else {
                            unit_scan(after_text(rest, name@), designator, Some(text), location)
                        },
                        None => (Scan::Failed(None), after_text(rest, name@)),
                    }
                } else {
                    unit_scan(rest, designator, ty, location)
                }
            },
            Ok(XmlEvent::Empty { name, content }) => {
                if name@ == AIRPORT_LOCATION_TAG.spec_bytes() {
                    match gml_link(content@, name@.len() as int) {
                        Lookup::Broken => (Scan::Failed(None), rest),
                        link => unit_scan(rest, designator, ty, lookup_text(link)),
                    }
                } else {
                    unit_scan(rest, designator, ty, location)
                }
            },
            Ok(XmlEvent::End { name }) => {
                if name@ == UNIT_TAG.spec_bytes() {
                    (
                        match built_unit(designator, ty, location) {
                            Some(unit) => Scan::Found(unit),
                            None => Scan::Skipped,
                        },
                        rest,
                    )
                } else {
                    unit_scan(rest, designator, ty, location)
                }
            },
            Ok(_) => unit_scan(rest, designator, ty, location),
        }
    }
}

/// A search for an end tag takes no more steps than there are.
pub proof fn lemma_end_distance_len(s: Seq<Step>, end: Seq<u8>, depth: nat)
    ensures
        end_distance(s, end, depth) <= s.len(),
        s.len() > 0 ==> end_distance(s, end, depth) >= 1,
    decreases s.len(),
{
    if s.len() > 0 && !is_terminal(s[0]) {
        if crate::xml::is_end(s[0], end) {
            if depth > 0 {
                lemma_end_distance_len(s.drop_first(), end, (depth - 1) as nat);
            }
        } else if crate::xml::is_start(s[0], end) {
            lemma_end_distance_len(s.drop_first(), end, depth + 1);
        } else {
            lemma_end_distance_len(s.drop_first(), end, depth);
        }
    }
}

/// Reading a text leaves no more steps than there were.
pub proof fn lemma_after_text_len(s: Seq<Step>, end: Seq<u8>)
    ensures
        after_text(s, end).len() <= s.len(),
        1 <= text_taken(s, end) <= s.len() || s.len() == 0,
{
    if s.len() > 0 {
        lemma_end_distance_len(s.drop_first(), end, 0);
    }
}

/// The text of the element `tag`, read just behind its start tag.
fn read_field(reader: &mut EventReader, tag: &str) -> (r: Result<String, DataError>)
    ensures
        upcoming(*final(reader)) == after_text(upcoming(*old(reader)), tag.spec_bytes()),
        upcoming(*old(reader)).len() >= 1,
        match element_text(upcoming(*old(reader)), tag.spec_bytes()) {
            Some(text) => r matches Ok(s) && s@ == text,
            None => r matches Err(DataError::XML { .. }),
        },
{
    match read_text(reader, tag.as_bytes()) {
        Ok(text) => Ok(text),
        Err(e) => Err(DataError::from(e)),
    }
}

/// The unit of the element whose start tag was just read.
pub fn get_unit(reader: &mut EventReader) -> (r: Result<Unit, DataError>)
    ensures
        yields(r, unit_scan(upcoming(*old(reader)), None, None, None).0),
        upcoming(*final(reader)) == unit_scan(upcoming(*old(reader)), None, None, None).1,
{
    let mut unit = UnitBuilder::default();
    loop
        invariant
            unit_scan(upcoming(*old(reader)), None, None, None) == unit_scan(
                upcoming(*reader),
                text_of(unit.designator),
                text_of(unit.ty),
                text_of(unit.airport_location),
            ),
        decreases upcoming(*reader).len(),
    {
        let ghost before = upcoming(*reader);
        match read_event(reader) {
            Err(e) => {
                return Err(DataError::from(e));
            },
            Ok(XmlEvent::Eof) => {
                return Err(DataError::from(unexpected_eof("EOF")));
            },
            Ok(XmlEvent::Start { name, .. }) => {
                proof {
                    lemma_after_text_len(upcoming(*reader), name@);
                }
                if bytes_eq(name.as_slice(), DESIGNATOR_TAG.as_bytes()) {
                    match read_field(reader, DESIGNATOR_TAG) {
                        Ok(raw) => {
                            unit.designator = Some(raw);
                        },
                        Err(e) => {
                            return Err(e);
                        },
                    }
                } else if bytes_eq(name.as_slice(), TYPE_TAG.as_bytes()) {
                    match read_field(reader, TYPE_TAG) {
                        Ok(raw) => {
                            unit.ty = Some(raw);
                        },
                        Err(e) => {
                            return Err(e);
                        },
                    }
                }
            },
            Ok(XmlEvent::Empty { name, content }) => {
                if bytes_eq(name.as_slice(), AIRPORT_LOCATION_TAG.as_bytes()) {
                    match get_gml_link(reader, content.as_slice(), name.len()) {
                        Ok(link) => {
                            unit.airport_location = link;
                        },
                        Err(e) => {
                            return Err(e);
                        },
                    }
                }
            },
            Ok(XmlEvent::End { name }) => {
                if bytes_eq(name.as_slice(), UNIT_TAG.as_bytes()) {
                    return unit.build();
                }
            },
            Ok(_) => {},
        }
    }
}

/// The airport that an element gives and what is left behind it, read from
/// `s` with the fields `id`, `designator` and `latlon` already there.
///
/// A designator element sets its field to its text, a position element
/// sets its field to the position that its text gives; of several the last
/// counts. The airport's end tag ends the element: with identifier and
/// position there it gives the airport, else it is skipped. Everything else
/// is passed over. An error of the tokenizer, a text that cannot be read,
/// and the end of the input fail; so does a position text that is not two
/// numbers of degrees.
pub open spec fn airport_scan(
    s: Seq<Step>,
    id: Option<Seq<char>>,
    designator: Option<Seq<char>>,
    latlon: Option<LatLon>,
) -> (Scan<AirportView>, Seq<Step>)
    decreases s.len(),
{
    if s.len() == 0 {
        (Scan::Failed(None), s)
    } else {
        let rest = after_taking(s, 1);
        match s[0] {
            Err(e) => (Scan::Failed(Some(e)), rest),
            Ok(XmlEvent::Eof) => (Scan::Failed(None), rest),
            Ok(XmlEvent::Start { name, .. }) => {
                if name@ == DESIGNATOR_TAG.spec_bytes() || name@ == POSITION_TAG.spec_bytes() {
                    proof {
                        lemma_after_text_len(rest, name@);
                    }
                    match element_text(rest, name@) {
                        Some(text) => if name@ == DESIGNATOR_TAG.spec_bytes() {
                            airport_scan(after_text(rest, name@), id, Some(text), latlon)
                        } else {
                            match aixm_position(text) {
                                Some(p) => airport_scan(
                                    after_text(rest, name@),
                                    id,
                                    designator,
                                    Some(p),
                                ),
                                None => (Scan::BadPosition(text), after_text(rest, name@)),
                            }
                        },
                        None => (Scan::Failed(None), after_text(rest, name@)),
                    }
                } else {
                    airport_scan(rest, id, designator, latlon)
                }
            },
            Ok(XmlEvent::End { name }) => {
                if name@ == AIRPORT_TAG.spec_bytes() {
                    (
                        match built_airport(id, designator, latlon) {
                            Some(airport) => Scan::Found(airport),
                            None => Scan::Skipped,
                        },
                        rest,
                    )
                } else {
                    airport_scan(rest, id, designator, latlon)
                }
            },
            Ok(_) => airport_scan(rest, id, designator, latlon),
        }
    }
}

/// The airport that the element with the start tag `content` gives, read
/// from `s` just behind that tag: its identifier is the tag's own.
pub open spec fn airport_element(s: Seq<Step>, content: Seq<u8>, name_len: int) -> (
    Scan<AirportView>,
    Seq<Step>,
) {
    match attribute_text(content, name_len, ID_ATTRIBUTE.spec_bytes()) {
        Lookup::Broken => (Scan::Failed(None), s),
        id => airport_scan(s, lookup_text(id), None, None),
    }
}

/// The kind of navigation aid that a type text names, if it is one that is
/// taken.
pub open spec fn navaid_type(text: Seq<char>) -> Option<NavaidType> {
    if text == VORTAC_TYPE@ {
        Some(NavaidType::VORTAC)
    } else if text == VORDME_TYPE@ {
        Some(NavaidType::VORDME)
    } else {
        None
    }
}

/// The navigation aid that an element gives and what is left behind it,
/// read from `s` with the four fields already there.
///
/// A designator, position or low airspace element sets its field as for an
/// airport; a type element sets the kind where its text names one that is
/// taken, and leaves it as it is where it names another. The end tag ends
/// the element: with all four fields there it gives the navigation aid, else
/// it is skipped.
pub open spec fn navaid_scan(
    s: Seq<Step>,
    designator: Option<Seq<char>>,
    ty: Option<NavaidType>,
    latlon: Option<LatLon>,
    low_id: Option<Seq<char>>,
) -> (Scan<NavaidView>, Seq<Step>)
    decreases s.len(),
{
    if s.len() == 0 {
        (Scan::Failed(None), s)
    } else {
        let rest = after_taking(s, 1);
        match s[0] {
            Err(e) => (Scan::Failed(Some(e)), rest),
            Ok(XmlEvent::Eof) => (Scan::Failed(None), rest),
            Ok(XmlEvent::Start { name, .. }) => {
                if name@ == DESIGNATOR_TAG.spec_bytes() || name@ == TYPE_TAG.spec_bytes() || name@
                    == POSITION_TAG.spec_bytes() || name@ == LOW_ID_TAG.spec_bytes() {
                    proof {
                        lemma_after_text_len(rest, name@);
                    }
                    let left = after_text(rest, name@);
                    match element_text(rest, name@) {
                        Some(text) => if name@ == DESIGNATOR_TAG.spec_bytes() {
                            navaid_scan(left, Some(text), ty, latlon, low_id)
                        } else if name@ == TYPE_TAG.spec_bytes() {
                            navaid_scan(
                                left,
                                designator,
                                match navaid_type(text) {
                                    Some(kind) => Some(kind),
                                    None => ty,
                                },
                                latlon,
                                low_id,
                            )
                        } else if name@ == POSITION_TAG.spec_bytes() {
                            match aixm_position(text) {
                                Some(p) => navaid_scan(left, designator, ty, Some(p), low_id),
                                None => (Scan::BadPosition(text), left),
                            }
                        } else {
                            navaid_scan(left, designator, ty, latlon, Some(text))
                        },
                        None => (Scan::Failed(None), left),
                    }
                } else {
                    navaid_scan(rest, designator, ty, latlon, low_id)
                }
            },
            Ok(XmlEvent::End { name }) => {
                if name@ == NAVAID_TAG.spec_bytes() {
                    (
                        match built_navaid(designator, ty, latlon, low_id) {
                            Some(navaid) => Scan::Found(navaid),
                            None => Scan::Skipped,
                        },
                        rest,
                    )
                } else {
                    navaid_scan(rest, designator, ty, latlon, low_id)
                }
            },
            Ok(_) => navaid_scan(rest, designator, ty, latlon, low_id),
        }
    }
}

/// The position that the text of a position element gives.
fn read_position(reader: &mut EventReader) -> (r: Result<LatLon, DataError>)
    ensures
        upcoming(*final(reader)) == after_text(upcoming(*old(reader)), POSITION_TAG.spec_bytes()),
        upcoming(*old(reader)).len() >= 1,
        match element_text(upcoming(*old(reader)), POSITION_TAG.spec_bytes()) {
            Some(text) => match aixm_position(text) {
                Some(p) => r == Ok::<LatLon, DataError>(p),
                None => r matches Err(DataError::LatLon { text: t }) && t@ == text,
            },
            None => r matches Err(DataError::XML { .. }),
        },
{
    match read_field(reader, POSITION_TAG) {
        Ok(raw) => match LatLon::parse_aixm(raw.as_str()) {
            Some(p) => Ok(p),
            None => Err(DataError::LatLon { text: raw }),
        },
        Err(e) => Err(e),
    }
}

/// The airport of the element whose start tag `content` was just read.
pub fn get_airport(reader: &mut EventReader, content: &[u8], name_len: usize) -> (r: Result<
    Airport,
    DataError,
>)
    ensures
        yields(r, airport_element(upcoming(*old(reader)), content@, name_len as int).0),
        upcoming(*final(reader)) == airport_element(
            upcoming(*old(reader)),
            content@,
            name_len as int,
        ).1,
{
    let mut airport = AirportBuilder::default();
    match get_attribute(reader, content, name_len, ID_ATTRIBUTE) {
        Ok(id) => {
            airport.id = id;
        },
        Err(e) => {
            return Err(e);
        },
    }
    loop
        invariant
            airport_element(upcoming(*old(reader)), content@, name_len as int) == airport_scan(
                upcoming(*reader),
                text_of(airport.id),
                text_of(airport.designator),
                airport.latlon,
            ),
        decreases upcoming(*reader).len(),
    {
        match read_event(reader) {
            Err(e) => {
                return Err(DataError::from(e));
            },
            Ok(XmlEvent::Eof) => {
                return Err(DataError::from(unexpected_eof("EOF")));
            },
            Ok(XmlEvent::Start { name, .. }) => {
                proof {
                    lemma_after_text_len(upcoming(*reader), name@);
                }
                if bytes_eq(name.as_slice(), DESIGNATOR_TAG.as_bytes()) {
                    match read_field(reader, DESIGNATOR_TAG) {
                        Ok(raw) => {
                            airport.designator = Some(raw);
                        },
                        Err(e) => {
                            return Err(e);
                        },
                    }
                } else if bytes_eq(name.as_slice(), POSITION_TAG.as_bytes()) {
                    match read_position(reader) {
                        Ok(p) => {
                            airport.latlon = Some(p);
                        },
                        Err(e) => {
                            return Err(e);
                        },
                    }
                }
            },
            Ok(XmlEvent::End { name }) => {
                if bytes_eq(name.as_slice(), AIRPORT_TAG.as_bytes()) {
                    return airport.build();
                }
            },
            Ok(_) => {},
        }
    }
}

/// The navigation aid of the element whose start tag was just read.
pub fn get_navaid(reader: &mut EventReader) -> (r: Result<Navaid, DataError>)
    ensures
        yields(r, navaid_scan(upcoming(*old(reader)), None, None, None, None).0),
        upcoming(*final(reader)) == navaid_scan(upcoming(*old(reader)), None, None, None, None).1,
{
    let mut navaid = NavaidBuilder::default();
    loop
        invariant
            navaid_scan(upcoming(*old(reader)), None, None, None, None) == navaid_scan(
                upcoming(*reader),
                text_of(navaid.designator),
                navaid.ty,
                navaid.latlon,
                text_of(navaid.low_id),
            ),
        decreases upcoming(*reader).len(),
    {
        match read_event(reader) {
            Err(e) => {
                return Err(DataError::from(e));
            },
            Ok(XmlEvent::Eof) => {
                return Err(DataError::from(unexpected_eof("EOF")));
            },
            Ok(XmlEvent::Start { name, .. }) => {
                proof {
                    lemma_after_text_len(upcoming(*reader), name@);
                }
                if bytes_eq(name.as_slice(), DESIGNATOR_TAG.as_bytes()) {
                    match read_field(reader, DESIGNATOR_TAG) {
                        Ok(raw) => {
                            navaid.designator = Some(raw);
                        },
                        Err(e) => {
                            return Err(e);
                        },
                    }
                } else if bytes_eq(name.as_slice(), TYPE_TAG.as_bytes()) {
                    match read_field(reader, TYPE_TAG) {
                        Ok(raw) => {
                            if str_eq(raw.as_str(), VORTAC_TYPE) {
                                navaid.ty = Some(NavaidType::VORTAC);
                            } else if str_eq(raw.as_str(), VORDME_TYPE) {
                                navaid.ty = Some(NavaidType::VORDME);
                            }
                        },
                        Err(e) => {
                            return Err(e);
                        },
                    }
                } else if bytes_eq(name.as_slice(), POSITION_TAG.as_bytes()) {
                    match read_position(reader) {
                        Ok(p) => {
                            navaid.latlon = Some(p);
                        },
                        Err(e) => {
                            return Err(e);
                        },
                    }
                } else if bytes_eq(name.as_slice(), LOW_ID_TAG.as_bytes()) {
                    match read_field(reader, LOW_ID_TAG) {
                        Ok(raw) => {
                            navaid.low_id = Some(raw);
                        },
                        Err(e) => {
                            return Err(e);
                        },
                    }
                }
            },
            Ok(XmlEvent::End { name }) => {
                if bytes_eq(name.as_slice(), NAVAID_TAG.as_bytes()) {
                    return navaid.build();
                }
            },
            Ok(_) => {},
        }
    }
}

/// The texts of a list of strings.
pub open spec fn texts(list: Seq<String>) -> Seq<Seq<char>> {
    Seq::new(list.len(), |i: int| list[i]@)
}

/// What contracts say of each item of a list.
pub open spec fn views<T: View>(list: Seq<T>) -> Seq<T::V> {
    Seq::new(list.len(), |i: int| list[i]@)
}

/// `r` is the result that `outcome` asks for.
pub open spec fn yields_all<T: View>(r: Result<Vec<T>, DataError>, outcome: Scan<Seq<T::V>>) -> bool {
    match outcome {
        Scan::Found(items) => r matches Ok(list) && views(list@) == items,
        Scan::Skipped => r matches Err(DataError::NotYielded),
        Scan::Failed(cause) => r matches Err(DataError::XML { quick_xml }) && (cause matches Some(e)
            ==> quick_xml == e),
        Scan::BadPosition(text) => r matches Err(DataError::LatLon { text: t }) && t@ == text,
    }
}

/// A unit whose airport is wanted: a centre that `filter` names.
pub open spec fn admits(unit: UnitView, filter: Seq<Seq<char>>) -> bool {
    unit.ty == CENTER_TYPE@ && filter.contains(unit.designator)
}

/// The airports of `found` whose identifier is among `ids`, in their order.
pub open spec fn retained(found: Seq<AirportView>, ids: Seq<Seq<char>>) -> Seq<AirportView>
    decreases found.len(),
{
    if found.len() == 0 {
        Seq::empty()
    } else if ids.contains(found.last().id) {
        retained(found.drop_last(), ids).push(found.last())
    } else {
        retained(found.drop_last(), ids)
    }
}

/// The airports that a document gives for `filter`, read from `s` with the
/// identifiers `ids` and the airports `found` already collected.
///
/// Every unit element is read; one that `filter` admits adds the
/// identifier of its airport. Every airport element is read and kept,
/// whether a unit has named it yet or not. An element that is skipped adds
/// nothing. At the end of the input the airports whose identifier was added
/// are retained. An element that fails ends the run with nothing.
pub open spec fn airports_scan(
    s: Seq<Step>,
    filter: Seq<Seq<char>>,
    ids: Seq<Seq<char>>,
    found: Seq<AirportView>,
) -> (Scan<Seq<AirportView>>, Seq<Step>)
    decreases s.len(),
{
    if s.len() == 0 {
        (Scan::Failed(None), s)
    } else {
        let rest = after_taking(s, 1);
        match s[0] {
            Err(e) => (Scan::Failed(Some(e)), rest),
            Ok(XmlEvent::Eof) => (Scan::Found(retained(found, ids)), rest),
            Ok(XmlEvent::Start { name, content }) => {
                if name@ == UNIT_TAG.spec_bytes() {
                    proof {
                        lemma_unit_scan_len(rest, None, None, None);
                    }
                    let (outcome, left) = unit_scan(rest, None, None, None);
                    match outcome {
                        Scan::Found(unit) => airports_scan(
                            left,
                            filter,
                            if admits(unit, filter) {
                                ids.push(unit.airport_location)
                            } else {
                                ids
                            },
                            found,
                        ),
                        Scan::Skipped => airports_scan(left, filter, ids, found),
                        Scan::Failed(cause) => (Scan::Failed(cause), left),
                        Scan::BadPosition(text) => (Scan::BadPosition(text), left),
                    }
                } else if name@ == AIRPORT_TAG.spec_bytes() {
                    proof {
                        lemma_airport_scan_len(
                            rest,
                            lookup_text(
                                attribute_text(content@, name@.len() as int, ID_ATTRIBUTE.spec_bytes()),
                            ),
                            None,
                            None,
                        );
                    }
                    let (outcome, left) = airport_element(rest, content@, name@.len() as int);
                    match outcome {
                        Scan::Found(airport) => airports_scan(left, filter, ids, found.push(airport)),
                        Scan::Skipped => airports_scan(left, filter, ids, found),
                        Scan::Failed(cause) => (Scan::Failed(cause), left),
                        Scan::BadPosition(text) => (Scan::BadPosition(text), left),
                    }
                } else {
                    airports_scan(rest, filter, ids, found)
                }
            },
            Ok(_) => airports_scan(rest, filter, ids, found),
        }
    }
}

/// The navigation aids that a document gives for `filter`, read from `s`
/// with `found` already collected: every navigation aid element is read,
/// and one whose low airspace centre `filter` names is kept.
pub open spec fn navaids_scan(s: Seq<Step>, filter: Seq<Seq<char>>, found: Seq<NavaidView>) -> (
    Scan<Seq<NavaidView>>,
    Seq<Step>,
)
    decreases s.len(),
{
    if s.len() == 0 {
        (Scan::Failed(None), s)
    } else {
        let rest = after_taking(s, 1);
        match s[0] {
            Err(e) => (Scan::Failed(Some(e)), rest),
            Ok(XmlEvent::Eof) => (Scan::Found(found), rest),
            Ok(XmlEvent::Start { name, .. }) => {
                if name@ == NAVAID_TAG.spec_bytes() {
                    proof {
                        lemma_navaid_scan_len(rest, None, None, None, None);
                    }
                    let (outcome, left) = navaid_scan(rest, None, None, None, None);
                    match outcome {
                        Scan::Found(navaid) => navaids_scan(
                            left,
                            filter,
                            if filter.contains(navaid.low_id) {
                                found.push(navaid)
                            } else {
                                found
                            },
                        ),
                        Scan::Skipped => navaids_scan(left, filter, found),
                        Scan::Failed(cause) => (Scan::Failed(cause), left),
                        Scan::BadPosition(text) => (Scan::BadPosition(text), left),
                    }
                } else {
                    navaids_scan(rest, filter, found)
                }
            },
            Ok(_) => navaids_scan(rest, filter, found),
        }
    }
}

/// Reading a unit leaves no more steps than there were.
pub proof fn lemma_unit_scan_len(
    s: Seq<Step>,
    designator: Option<Seq<char>>,
    ty: Option<Seq<char>>,
    location: Option<Seq<char>>,
)
    ensures
        unit_scan(s, designator, ty, location).1.len() <= s.len(),
    decreases s.len(),
{
    if s.len() > 0 {
        let rest = after_taking(s, 1);
        match s[0] {
            Ok(XmlEvent::Start { name, .. }) => {
                if name@ == DESIGNATOR_TAG.spec_bytes() || name@ == TYPE_TAG.spec_bytes() {
                    lemma_after_text_len(rest, name@);
                    match element_text(rest, name@) {
                        Some(text) => if name@ == DESIGNATOR_TAG.spec_bytes() {
                            lemma_unit_scan_len(after_text(rest, name@), Some(text), ty, location);
                        } else {
                            lemma_unit_scan_len(after_text(rest, name@), designator, Some(text), location);
                        },
                        None => {},
                    }
                } else {
                    lemma_unit_scan_len(rest, designator, ty, location);
                }
            },
            Ok(XmlEvent::Empty { name, content }) => {
                if name@ == AIRPORT_LOCATION_TAG.spec_bytes() {
                    let link = gml_link(content@, name@.len() as int);
                    if !(link is Broken) {
                        lemma_unit_scan_len(rest, designator, ty, lookup_text(link));
                    }
                } else {
                    lemma_unit_scan_len(rest, designator, ty, location);
                }
            },
            Ok(XmlEvent::End { name }) => {
                if name@ != UNIT_TAG.spec_bytes() {
                    lemma_unit_scan_len(rest, designator, ty, location);
                }
            },
            Ok(XmlEvent::Eof) => {},
            Err(_) => {},
            Ok(_) => {
                lemma_unit_scan_len(rest, designator, ty, location);
            },
        }
    }
}

/// Reading an airport leaves no more steps than there were.
pub proof fn lemma_airport_scan_len(
    s: Seq<Step>,
    id: Option<Seq<char>>,
    designator: Option<Seq<char>>,
    latlon: Option<LatLon>,
)
    ensures
        airport_scan(s, id, designator, latlon).1.len() <= s.len(),
    decreases s.len(),
{
    if s.len() > 0 {
        let rest = after_taking(s, 1);
        match s[0] {
            Ok(XmlEvent::Start { name, .. }) => {
                if name@ == DESIGNATOR_TAG.spec_bytes() || name@ == POSITION_TAG.spec_bytes() {
                    lemma_after_text_len(rest, name@);
                    match element_text(rest, name@) {
                        Some(text) => if name@ == DESIGNATOR_TAG.spec_bytes() {
                            lemma_airport_scan_len(after_text(rest, name@), id, Some(text), latlon);
                        } else {
                            match aixm_position(text) {
                                Some(p) => {
                                    lemma_airport_scan_len(
                                        after_text(rest, name@),
                                        id,
                                        designator,
                                        Some(p),
                                    );
                                },
                                None => {},
                            }
                        },
                        None => {},
                    }
                } else {
                    lemma_airport_scan_len(rest, id, designator, latlon);
                }
            },
            Ok(XmlEvent::End { name }) => {
                if name@ != AIRPORT_TAG.spec_bytes() {
                    lemma_airport_scan_len(rest, id, designator, latlon);
                }
            },
            Ok(XmlEvent::Eof) => {},
            Err(_) => {},
            Ok(_) => {
                lemma_airport_scan_len(rest, id, designator, latlon);
            },
        }
    }
}

/// Reading a navigation aid leaves no more steps than there were.
pub proof fn lemma_navaid_scan_len(
    s: Seq<Step>,
    designator: Option<Seq<char>>,
    ty: Option<NavaidType>,
    latlon: Option<LatLon>,
    low_id: Option<Seq<char>>,
)
    ensures
        navaid_scan(s, designator, ty, latlon, low_id).1.len() <= s.len(),
    decreases s.len(),
{
    if s.len() > 0 {
        let rest = after_taking(s, 1);
        match s[0] {
            Ok(XmlEvent::Start { name, .. }) => {
                if name@ == DESIGNATOR_TAG.spec_bytes() || name@ == TYPE_TAG.spec_bytes() || name@
                    == POSITION_TAG.spec_bytes() || name@ == LOW_ID_TAG.spec_bytes() {
                    lemma_after_text_len(rest, name@);
                    let left = after_text(rest, name@);
                    match element_text(rest, name@) {
                        Some(text) => if name@ == DESIGNATOR_TAG.spec_bytes() {
                            lemma_navaid_scan_len(left, Some(text), ty, latlon, low_id);
                        } else if name@ == TYPE_TAG.spec_bytes() {
                            lemma_navaid_scan_len(
                                left,
                                designator,
                                match navaid_type(text) {
                                    Some(kind) => Some(kind),
                                    None => ty,
                                },
                                latlon,
                                low_id,
                            );
                        } else if name@ == POSITION_TAG.spec_bytes() {
                            match aixm_position(text) {
                                Some(p) => {
                                    lemma_navaid_scan_len(left, designator, ty, Some(p), low_id);
                                },
                                None => {},
                            }
                        } else {
                            lemma_navaid_scan_len(left, designator, ty, latlon, Some(text));
                        },
                        None => {},
                    }
                } else {
                    lemma_navaid_scan_len(rest, designator, ty, latlon, low_id);
                }
            },
            Ok(XmlEvent::End { name }) => {
                if name@ != NAVAID_TAG.spec_bytes() {
                    lemma_navaid_scan_len(rest, designator, ty, latlon, low_id);
                }
            },
            Ok(XmlEvent::Eof) => {},
            Err(_) => {},
            Ok(_) => {
                lemma_navaid_scan_len(rest, designator, ty, latlon, low_id);
            },
        }
    }
}

/// Is `text` among `list`?
pub fn contains(list: &[String], text: &str) -> (r: bool)
    ensures
        r == texts(list@).contains(text@),
{
    let mut i: usize = 0;
    while i < list.len()
        invariant
            i <= list.len(),
            forall|k: int| 0 <= k < i ==> texts(list@)[k] != text@,
        decreases list.len() - i,
    {
        if str_eq(list[i].as_str(), text) {
            assert(texts(list@)[i as int] == text@);
            return true;
        }
        i += 1;
    }
    false
}

/// Is `unit` a centre that `filter` names?
pub fn admitted(unit: &Unit, filter: &[String]) -> (r: bool)
    ensures
        r == admits(unit@, texts(filter@)),
{
    str_eq(unit.ty.as_str(), CENTER_TYPE) && contains(filter, unit.designator.as_str())
}

/// The airports of `airports` whose identifier is among `ids`, in their
/// order.
pub fn retain_airports(airports: Vec<Airport>, ids: &Vec<String>) -> (kept: Vec<Airport>)
    ensures
        views(kept@) == retained(views(airports@), texts(ids@)),
{
    let ghost all = airports@;
    let mut kept: Vec<Airport> = Vec::new();
    for airport in it: airports
        invariant
            it.seq() == all,
            views(kept@) == retained(views(all.take(it.index() as int)), texts(ids@)),
    {
        let ghost before = views(kept@);
        let ghost seen = views(all.take(it.index() as int));
        proof {
            assert(views(all.take(it.index() + 1)) =~= seen.push(airport@));
            assert(seen.push(airport@).drop_last() =~= seen);
        }
        if contains(ids.as_slice(), airport.id.as_str()) {
            kept.push(airport);
            assert(views(kept@) =~= before.push(airport@));
        }
    }
    assert(all.take(all.len() as int) =~= all);
    kept
}

/// The airports of the document that lie at a centre which `filter` names,
/// in the order of the document.
pub fn get_airport_info(aixm: &mut EventReader, filter: &[String]) -> (r: Result<
    Vec<Airport>,
    DataError,
>)
    ensures
        yields_all(
            r,
            airports_scan(upcoming(*old(aixm)), texts(filter@), Seq::empty(), Seq::empty()).0,
        ),
        upcoming(*final(aixm)) == airports_scan(
            upcoming(*old(aixm)),
            texts(filter@),
            Seq::empty(),
            Seq::empty(),
        ).1,
{
    let mut units: Vec<String> = Vec::new();
    let mut airports: Vec<Airport> = Vec::new();
    assert(texts(units@) =~= Seq::<Seq<char>>::empty());
    assert(views(airports@) =~= Seq::<AirportView>::empty());
    loop
        invariant
            airports_scan(upcoming(*old(aixm)), texts(filter@), Seq::empty(), Seq::empty())
                == airports_scan(
                upcoming(*aixm),
                texts(filter@),
                texts(units@),
                views(airports@),
            ),
        decreases upcoming(*aixm).len(),
    {
        match read_event(aixm) {
            Err(e) => {
                return Err(DataError::from(e));
            },
            Ok(XmlEvent::Eof) => {
                return Ok(retain_airports(airports, &units));
            },
            Ok(XmlEvent::Start { name, content }) => {
                if bytes_eq(name.as_slice(), UNIT_TAG.as_bytes()) {
                    proof {
                        lemma_unit_scan_len(upcoming(*aixm), None, None, None);
                    }
                    match get_unit(aixm) {
                        Ok(unit) => {
                            if admitted(&unit, filter) {
                                let ghost before = texts(units@);
                                units.push(unit.airport_location);
                                assert(texts(units@) =~= before.push(unit@.airport_location));
                            }
                        },
                        Err(DataError::NotYielded) => {},
                        Err(e) => {
                            return Err(e);
                        },
                    }
                } else if bytes_eq(name.as_slice(), AIRPORT_TAG.as_bytes()) {
                    proof {
                        lemma_airport_scan_len(
                            upcoming(*aixm),
                            lookup_text(
                                attribute_text(content@, name@.len() as int, ID_ATTRIBUTE.spec_bytes()),
                            ),
                            None,
                            None,
                        );
                    }
                    match get_airport(aixm, content.as_slice(), name.len()) {
                        Ok(airport) => {
                            let ghost before = views(airports@);
                            let ghost view = airport@;
                            airports.push(airport);
                            assert(views(airports@) =~= before.push(view));
                        },
                        Err(DataError::NotYielded) => {},
                        Err(e) => {
                            return Err(e);
                        },
                    }
                }
            },
            Ok(_) => {},
        }
    }
}

/// The navigation aids of the document that lie in the low airspace of a
/// centre which `filter` names, in the order of the document.
pub fn get_navaid_info(aixm: &mut EventReader, filter: &[String]) -> (r: Result<
    Vec<Navaid>,
    DataError,
>)
    ensures
        yields_all(r, navaids_scan(upcoming(*old(aixm)), texts(filter@), Seq::empty()).0),
        upcoming(*final(aixm)) == navaids_scan(upcoming(*old(aixm)), texts(filter@), Seq::empty()).1,
{
    let mut navaids: Vec<Navaid> = Vec::new();
    assert(views(navaids@) =~= Seq::<NavaidView>::empty());
    loop
        invariant
            navaids_scan(upcoming(*old(aixm)), texts(filter@), Seq::empty()) == navaids_scan(
                upcoming(*aixm),
                texts(filter@),
                views(navaids@),
            ),
        decreases upcoming(*aixm).len(),
    {
        match read_event(aixm) {
            Err(e) => {
                return Err(DataError::from(e));
            },
            Ok(XmlEvent::Eof) => {
                return Ok(navaids);
            },
            Ok(XmlEvent::Start { name, .. }) => {
                if bytes_eq(name.as_slice(), NAVAID_TAG.as_bytes()) {
                    proof {
                        lemma_navaid_scan_len(upcoming(*aixm), None, None, None, None);
                    }
                    match get_navaid(aixm) {
                        Ok(navaid) => {
                            if contains(filter, navaid.low_id.as_str()) {
                                let ghost before = views(navaids@);
                                let ghost view = navaid@;
                                navaids.push(navaid);
                                assert(views(navaids@) =~= before.push(view));
                            }
                        },
                        Err(DataError::NotYielded) => {},
                        Err(e) => {
                            return Err(e);
                        },
                    }
                }
            },
            Ok(_) => {},
        }
    }
}

/// The start tag `tag` that comes first in `s`, as the content that it was
/// read with and what is left behind it; `None` where the input ends before
/// one comes.
pub open spec fn element_scan(s: Seq<Step>, tag: Seq<u8>) -> (Scan<Option<Seq<u8>>>, Seq<Step>)
    decreases s.len(),
{
    if s.len() == 0 {
        (Scan::Failed(None), s)
    } else {
        let rest = after_taking(s, 1);
        match s[0] {
            Err(e) => (Scan::Failed(Some(e)), rest),
            Ok(XmlEvent::Eof) => (Scan::Found(None), rest),
            Ok(XmlEvent::Start { name, content }) => if name@ == tag {
                (Scan::Found(Some(content@)), rest)
            } else {
                element_scan(rest, tag)
            },
            Ok(_) => element_scan(rest, tag),
        }
    }
}

/// Moves the reader behind the next start tag `tag` and returns the content
/// of that tag, name and attributes; `None` where the input ends first.
pub fn find_element(reader: &mut EventReader, tag: &str) -> (r: Result<Option<Vec<u8>>, DataError>)
    ensures
        upcoming(*final(reader)) == element_scan(upcoming(*old(reader)), tag.spec_bytes()).1,
        match element_scan(upcoming(*old(reader)), tag.spec_bytes()).0 {
            Scan::Found(Some(content)) => r matches Ok(Some(c)) && c@ == content,
            Scan::Found(None) => r matches Ok(None),
            Scan::Failed(cause) => r matches Err(DataError::XML { quick_xml }) && (cause matches Some(
                e,
            ) ==> quick_xml == e),
            _ => false,
        },
{
    loop
        invariant
            element_scan(upcoming(*old(reader)), tag.spec_bytes()) == element_scan(
                upcoming(*reader),
                tag.spec_bytes(),
            ),
        decreases upcoming(*reader).len(),
    {
        match read_event(reader) {
            Err(e) => {
                return Err(DataError::from(e));
            },
            Ok(XmlEvent::Eof) => {
                return Ok(None);
            },
            Ok(XmlEvent::Start { name, content }) => {
                if bytes_eq(name.as_slice(), tag.as_bytes()) {
                    return Ok(Some(content));
                }
            },
            Ok(_) => {},
        }
    }
}

/// `step` is character data that unescapes to `text`.
pub open spec fn is_text(step: Step, text: Seq<char>) -> bool {
    match step {
        Ok(XmlEvent::Text { content }) => unescaped_text(content@) == Some(text),
        _ => false,
    }
}

/// `step` is a location element whose link refers to the identifier `id`.
pub open spec fn is_location(step: Step, id: Seq<char>) -> bool {
    match step {
        Ok(XmlEvent::Empty { name, content }) => name@ == AIRPORT_LOCATION_TAG.spec_bytes()
            && gml_link(content@, name@.len() as int) == Lookup::Text(id),
        _ => false,
    }
}

/// `steps` are a unit element behind its start tag, with the outcome
/// `outcome`: read in front of whatever else, they give that outcome and
/// leave what follows them.
pub open spec fn is_unit_element(steps: Seq<Step>, outcome: Scan<UnitView>) -> bool {
    forall|rest: Seq<Step>| #[trigger] unit_scan(steps + rest, None, None, None) == (outcome, rest)
}

/// `steps` are an airport element behind its start tag `content`, with the
/// outcome `outcome`.
pub open spec fn is_airport_element(
    steps: Seq<Step>,
    content: Seq<u8>,
    name_len: int,
    outcome: Scan<AirportView>,
) -> bool {
    forall|rest: Seq<Step>| #[trigger]
        airport_element(steps + rest, content, name_len) == (outcome, rest)
}

/// The tags that this module tells apart by their names are different.
pub proof fn lemma_tags_differ()
    ensures
        DESIGNATOR_TAG.spec_bytes() != TYPE_TAG.spec_bytes(),
        UNIT_TAG.spec_bytes() != AIRPORT_TAG.spec_bytes(),
        DESIGNATOR_TAG.spec_bytes() != POSITION_TAG.spec_bytes(),
{
    reveal_strlit("aixm:designator");
    reveal_strlit("aixm:type");
    reveal_strlit("aixm:Unit");
    reveal_strlit("aixm:AirportHeliport");
    reveal_strlit("gml:pos");
    vstd::utf8::encode_utf8_decode_utf8(DESIGNATOR_TAG@);
    vstd::utf8::encode_utf8_decode_utf8(TYPE_TAG@);
    vstd::utf8::encode_utf8_decode_utf8(UNIT_TAG@);
    vstd::utf8::encode_utf8_decode_utf8(AIRPORT_TAG@);
    vstd::utf8::encode_utf8_decode_utf8(POSITION_TAG@);
}

/// A designator or type element with a text sets its field.
pub proof fn lemma_unit_scan_text(
    s: Seq<Step>,
    text: Seq<char>,
    designator: Option<Seq<char>>,
    ty: Option<Seq<char>>,
    location: Option<Seq<char>>,
)
    requires
        s.len() >= 3,
        is_text(s[1], text),
        (is_start(s[0], DESIGNATOR_TAG.spec_bytes()) && is_end(s[2], DESIGNATOR_TAG.spec_bytes()))
            || (is_start(s[0], TYPE_TAG.spec_bytes()) && is_end(s[2], TYPE_TAG.spec_bytes())),
    ensures
        unit_scan(s, designator, ty, location) == if is_start(s[0], DESIGNATOR_TAG.spec_bytes()) {
            unit_scan(s.skip(3), Some(text), ty, location)
        } else {
            unit_scan(s.skip(3), designator, Some(text), location)
        },
{
    lemma_tags_differ();
    let tag = if is_start(s[0], DESIGNATOR_TAG.spec_bytes()) {
        DESIGNATOR_TAG.spec_bytes()
    } else {
        TYPE_TAG.spec_bytes()
    };
    let rest = after_taking(s, 1);
    assert(rest == s.skip(1));
    assert(rest[0] == s[1]);
    assert(rest.drop_first()[0] == s[2]);
    assert(finds_end(rest.drop_first(), tag, 0));
    assert(end_distance(rest.drop_first(), tag, 0) == 1);
    assert(text_taken(rest, tag) == 2);
    assert(rest[1] == s[2]);
    assert(after_text(rest, tag) =~= s.skip(3));
    assert(element_text(rest, tag) == Some(text));
}

/// A location element whose link refers to an identifier sets the field.
pub proof fn lemma_unit_scan_location(
    s: Seq<Step>,
    id: Seq<char>,
    designator: Option<Seq<char>>,
    ty: Option<Seq<char>>,
    location: Option<Seq<char>>,
)
    requires
        s.len() >= 1,
        is_location(s[0], id),
    ensures
        unit_scan(s, designator, ty, location) == unit_scan(s.skip(1), designator, ty, Some(id)),
{
}

/// At its end tag a unit with every field is found, a unit that lacks one
/// is skipped; either way the reader stands behind the end tag, where the
/// next element follows.
pub proof fn lemma_unit_scan_end(
    s: Seq<Step>,
    designator: Option<Seq<char>>,
    ty: Option<Seq<char>>,
    location: Option<Seq<char>>,
)
    requires
        s.len() >= 1,
        is_end(s[0], UNIT_TAG.spec_bytes()),
    ensures
        unit_scan(s, designator, ty, location).1 == s.skip(1),
        unit_scan(s, designator, ty, location).0 == match (designator, ty, location) {
            (Some(d), Some(t), Some(a)) => Scan::Found(
                UnitView { designator: d, ty: t, airport_location: a },
            ),
            _ => Scan::<UnitView>::Skipped,
        },
{
}

/// Steps that are no tag and no end of the input are passed over.
pub proof fn lemma_unit_scan_passes_over(
    s: Seq<Step>,
    designator: Option<Seq<char>>,
    ty: Option<Seq<char>>,
    location: Option<Seq<char>>,
)
    requires
        s.len() >= 1,
        s[0] is Ok,
        match s[0]->Ok_0 {
            XmlEvent::Start { name, .. } => name@ != DESIGNATOR_TAG.spec_bytes() && name@
                != TYPE_TAG.spec_bytes(),
            XmlEvent::Empty { name, .. } => name@ != AIRPORT_LOCATION_TAG.spec_bytes(),
            XmlEvent::End { name } => name@ != UNIT_TAG.spec_bytes(),
            XmlEvent::Eof => false,
            _ => true,
        },
    ensures
        unit_scan(s, designator, ty, location) == unit_scan(s.skip(1), designator, ty, location),
{
}

/// A unit element that gives its designator, its type and its airport, in
/// this order, gives the unit with just these values, and the reader stands
/// behind it.
pub proof fn lemma_complete_unit_is_found(
    s: Seq<Step>,
    designator: Seq<char>,
    ty: Seq<char>,
    location: Seq<char>,
)
    requires
        s.len() >= 8,
        is_start(s[0], DESIGNATOR_TAG.spec_bytes()),
        is_text(s[1], designator),
        is_end(s[2], DESIGNATOR_TAG.spec_bytes()),
        is_start(s[3], TYPE_TAG.spec_bytes()),
        is_text(s[4], ty),
        is_end(s[5], TYPE_TAG.spec_bytes()),
        is_location(s[6], location),
        is_end(s[7], UNIT_TAG.spec_bytes()),
    ensures
        unit_scan(s, None, None, None) == (
            Scan::Found(UnitView { designator, ty, airport_location: location }),
            s.skip(8),
        ),
{
    lemma_tags_differ();
    lemma_unit_scan_text(s, designator, None, None, None);
    let s3 = s.skip(3);
    assert(s3[0] == s[3] && s3[1] == s[4] && s3[2] == s[5]);
    lemma_unit_scan_text(s3, ty, Some(designator), None, None);
    let s6 = s3.skip(3);
    assert(s6 =~= s.skip(6));
    assert(s6[0] == s[6]);
    lemma_unit_scan_location(s6, location, Some(designator), Some(ty), None);
    let s7 = s6.skip(1);
    assert(s7 =~= s.skip(7));
    assert(s7[0] == s[7]);
    lemma_unit_scan_end(s7, Some(designator), Some(ty), Some(location));
    assert(s7.skip(1) =~= s.skip(8));
}

/// A unit element that gives a designator and a type but no airport is
/// skipped, and the reader stands behind it.
pub proof fn lemma_unit_without_location_is_skipped(s: Seq<Step>, designator: Seq<char>, ty: Seq<char>)
    requires
        s.len() >= 7,
        is_start(s[0], DESIGNATOR_TAG.spec_bytes()),
        is_text(s[1], designator),
        is_end(s[2], DESIGNATOR_TAG.spec_bytes()),
        is_start(s[3], TYPE_TAG.spec_bytes()),
        is_text(s[4], ty),
        is_end(s[5], TYPE_TAG.spec_bytes()),
        is_end(s[6], UNIT_TAG.spec_bytes()),
    ensures
        unit_scan(s, None, None, None) == (Scan::<UnitView>::Skipped, s.skip(7)),
{
    lemma_tags_differ();
    lemma_unit_scan_text(s, designator, None, None, None);
    let s3 = s.skip(3);
    assert(s3[0] == s[3] && s3[1] == s[4] && s3[2] == s[5]);
    lemma_unit_scan_text(s3, ty, Some(designator), None, None);
    let s6 = s3.skip(3);
    assert(s6 =~= s.skip(6));
    assert(s6[0] == s[6]);
    lemma_unit_scan_end(s6, Some(designator), Some(ty), None);
    assert(s6.skip(1) =~= s.skip(7));
}

/// A unit element and an airport element that stand side by side, each
/// found or skipped, give the same airports in either order.
pub proof fn lemma_unit_and_airport_in_either_order(
    unit_start: Step,
    unit: Seq<Step>,
    unit_outcome: Scan<UnitView>,
    airport_start: Step,
    airport: Seq<Step>,
    airport_outcome: Scan<AirportView>,
    rest: Seq<Step>,
    filter: Seq<Seq<char>>,
    ids: Seq<Seq<char>>,
    found: Seq<AirportView>,
)
    requires
        is_start(unit_start, UNIT_TAG.spec_bytes()),
        is_start(airport_start, AIRPORT_TAG.spec_bytes()),
        is_unit_element(unit, unit_outcome),
        unit_outcome is Found || unit_outcome is Skipped,
        airport_outcome is Found || airport_outcome is Skipped,
        airport_start matches Ok(XmlEvent::Start { name, content }) && is_airport_element(
            airport,
            content@,
            name@.len() as int,
            airport_outcome,
        ),
    ensures
        airports_scan(
            seq![unit_start] + unit + seq![airport_start] + airport + rest,
            filter,
            ids,
            found,
        ) == airports_scan(
            seq![airport_start] + airport + seq![unit_start] + unit + rest,
            filter,
            ids,
            found,
        ),
{
    lemma_tags_differ();
    let (content, name_len) = match airport_start {
        Ok(XmlEvent::Start { name, content }) => (content@, name@.len() as int),
        _ => (Seq::empty(), 0),
    };
    let ids_after = match unit_outcome {
        Scan::Found(u) => if admits(u, filter) {
            ids.push(u.airport_location)
        } else {
            ids
        },
        _ => ids,
    };
    let found_after = match airport_outcome {
        Scan::Found(a) => found.push(a),
        _ => found,
    };
    // The unit first.
    let a_rest = seq![airport_start] + airport + rest;
    let one = seq![unit_start] + unit + seq![airport_start] + airport + rest;
    assert(after_taking(one, 1) =~= unit + a_rest);
    assert(unit_scan(unit + a_rest, None, None, None) == (unit_outcome, a_rest));
    assert(after_taking(a_rest, 1) =~= airport + rest);
    assert(airport_element(airport + rest, content, name_len) == (airport_outcome, rest));
    // The airport first.
    let u_rest = seq![unit_start] + unit + rest;
    let two = seq![airport_start] + airport + seq![unit_start] + unit + rest;
    assert(after_taking(two, 1) =~= airport + u_rest);
    assert(airport_element(airport + u_rest, content, name_len) == (airport_outcome, u_rest));
    assert(after_taking(u_rest, 1) =~= unit + rest);
    assert(unit_scan(unit + rest, None, None, None) == (unit_outcome, rest));
    assert(one[0] == unit_start && two[0] == airport_start);
    assert(a_rest[0] == airport_start && u_rest[0] == unit_start);
    assert(airports_scan(one, filter, ids, found) == airports_scan(a_rest, filter, ids_after, found));
    assert(airports_scan(a_rest, filter, ids_after, found) == airports_scan(
        rest,
        filter,
        ids_after,
        found_after,
    ));
    assert(airports_scan(two, filter, ids, found) == airports_scan(u_rest, filter, ids, found_after));
    assert(airports_scan(u_rest, filter, ids, found_after) == airports_scan(
        rest,
        filter,
        ids_after,
        found_after,
    ));
}

/// The steps of a complete unit element are a unit element: they give
/// their unit in front of whatever else.
pub proof fn lemma_complete_unit_is_an_element(
    steps: Seq<Step>,
    designator: Seq<char>,
    ty: Seq<char>,
    location: Seq<char>,
)
    requires
        steps.len() == 8,
        is_start(steps[0], DESIGNATOR_TAG.spec_bytes()),
        is_text(steps[1], designator),
        is_end(steps[2], DESIGNATOR_TAG.spec_bytes()),
        is_start(steps[3], TYPE_TAG.spec_bytes()),
        is_text(steps[4], ty),
        is_end(steps[5], TYPE_TAG.spec_bytes()),
        is_location(steps[6], location),
        is_end(steps[7], UNIT_TAG.spec_bytes()),
    ensures
        is_unit_element(
            steps,
            Scan::Found(UnitView { designator, ty, airport_location: location }),
        ),
{
    assert forall|rest: Seq<Step>| #[trigger]
        unit_scan(steps + rest, None, None, None) == (
            Scan::Found(UnitView { designator, ty, airport_location: location }),
            rest,
        ) by {
        let s = steps + rest;
        assert(s[0] == steps[0] && s[1] == steps[1] && s[2] == steps[2] && s[3] == steps[3]);
        assert(s[4] == steps[4] && s[5] == steps[5] && s[6] == steps[6] && s[7] == steps[7]);
        lemma_complete_unit_is_found(s, designator, ty, location);
        assert(s.skip(8) =~= rest);
    }
}

/// What is retained are the airports whose identifier is among `ids`, and
/// no others.
pub proof fn lemma_retained_is_filter(found: Seq<AirportView>, ids: Seq<Seq<char>>)
    ensures
        retained(found, ids) == found.filter(|a: AirportView| ids.contains(a.id)),
    decreases found.len(),
{
    reveal(Seq::filter);
    if found.len() > 0 {
        lemma_retained_is_filter(found.drop_last(), ids);
    }
}

/// An airport is retained if and only if it was found and its identifier is
/// among `ids`.
pub proof fn lemma_retained_members(found: Seq<AirportView>, ids: Seq<Seq<char>>, a: AirportView)
    ensures
        retained(found, ids).contains(a) <==> found.contains(a) && ids.contains(a.id),
    decreases found.len(),
{
    if found.len() > 0 {
        let front = found.drop_last();
        lemma_retained_members(front, ids, a);
        let kept = retained(front, ids);
        if ids.contains(found.last().id) {
            assert(retained(found, ids) == kept.push(found.last()));
            if kept.push(found.last()).contains(a) {
                let i = choose|i: int|
                    0 <= i < kept.push(found.last()).len() && kept.push(found.last())[i] == a;
                if i < kept.len() {
                    assert(kept[i] == a);
                } else {
                    assert(found[found.len() - 1] == a);
                }
            }
            if kept.contains(a) {
                let i = choose|i: int| 0 <= i < kept.len() && kept[i] == a;
                assert(kept.push(found.last())[i] == a);
            }
            if found.last() == a {
                assert(kept.push(found.last())[kept.len() as int] == a);
            }
        }
        if front.contains(a) {
            let i = choose|i: int| 0 <= i < front.len() && front[i] == a;
            assert(found[i] == a);
        }
        if found.contains(a) {
            let i = choose|i: int| 0 <= i < found.len() && found[i] == a;
            if i < front.len() {
                assert(front[i] == a);
            } else {
                assert(found.last() == a);
            }
        }
    }
}

/// What is retained depends on which identifiers were collected, not on
/// their order nor on how often one was collected.
pub proof fn lemma_retained_by_membership(
    found: Seq<AirportView>,
    ids: Seq<Seq<char>>,
    others: Seq<Seq<char>>,
)
    requires
        forall|id: Seq<char>| ids.contains(id) <==> others.contains(id),
    ensures
        retained(found, ids) == retained(found, others),
    decreases found.len(),
{
    if found.len() > 0 {
        lemma_retained_by_membership(found.drop_last(), ids, others);
    }
}

/// An airport element whose start tag gives the identifier `id` and that
/// holds a position text gives the airport with this identifier at the
/// position that the text gives, and the reader stands behind it.
pub proof fn lemma_airport_with_position_is_found(
    s: Seq<Step>,
    content: Seq<u8>,
    name_len: int,
    id: Seq<char>,
    text: Seq<char>,
    position: LatLon,
)
    requires
        attribute_text(content, name_len, ID_ATTRIBUTE.spec_bytes()) == Lookup::Text(id),
        s.len() >= 4,
        is_start(s[0], POSITION_TAG.spec_bytes()),
        is_text(s[1], text),
        is_end(s[2], POSITION_TAG.spec_bytes()),
        is_end(s[3], AIRPORT_TAG.spec_bytes()),
        aixm_position(text) == Some(position),
    ensures
        airport_element(s, content, name_len) == (
            Scan::Found(AirportView { id, designator: Seq::empty(), latlon: position }),
            s.skip(4),
        ),
{
    lemma_tags_differ();
    let tag = POSITION_TAG.spec_bytes();
    let rest = after_taking(s, 1);
    assert(rest == s.skip(1));
    assert(rest[0] == s[1]);
    assert(rest.drop_first()[0] == s[2]);
    assert(finds_end(rest.drop_first(), tag, 0));
    assert(end_distance(rest.drop_first(), tag, 0) == 1);
    assert(text_taken(rest, tag) == 2);
    assert(rest[1] == s[2]);
    assert(after_text(rest, tag) =~= s.skip(3));
    assert(element_text(rest, tag) == Some(text));
    let s3 = s.skip(3);
    assert(s3[0] == s[3]);
    assert(after_taking(s3, 1) =~= s.skip(4));
    assert(airport_scan(s3, Some(id), None, Some(position)) == (
        Scan::Found(AirportView { id, designator: Seq::empty(), latlon: position }),
        s.skip(4),
    ));
}

/// A search that finds its end tag stops at that tag, which is no terminal
/// step.
pub proof fn lemma_finds_end_stops_at_end(s: Seq<Step>, end: Seq<u8>, depth: nat)
    requires
        finds_end(s, end, depth),
    ensures
        1 <= end_distance(s, end, depth) <= s.len(),
        is_end(s[end_distance(s, end, depth) - 1], end),
    decreases s.len(),
{
    if is_end(s[0], end) {
        if depth > 0 {
            lemma_finds_end_stops_at_end(s.drop_first(), end, (depth - 1) as nat);
        }
    } else if is_start(s[0], end) {
        lemma_finds_end_stops_at_end(s.drop_first(), end, depth + 1);
    } else {
        lemma_finds_end_stops_at_end(s.drop_first(), end, depth);
    }
}

/// Where the text of an element is read, the reader stands behind the
/// element's end tag.
pub proof fn lemma_text_read_stops_at_end(s: Seq<Step>, end: Seq<u8>)
    requires
        element_text(s, end) is Some,
    ensures
        1 <= text_taken(s, end) <= s.len(),
        is_end(s[text_taken(s, end) - 1], end),
        after_text(s, end) == s.skip(text_taken(s, end) as int),
{
    if !is_end(s[0], end) {
        lemma_finds_end_stops_at_end(s.drop_first(), end, 0);
    }
}

/// A unit that is found or skipped was read up to the end tag of a unit
/// and no further: what is left are the steps behind that tag, where the
/// next element begins. The result is the number of steps taken.
pub proof fn lemma_unit_scan_stops_behind_end_tag(
    s: Seq<Step>,
    designator: Option<Seq<char>>,
    ty: Option<Seq<char>>,
    location: Option<Seq<char>>,
) -> (taken: int)
    requires
        unit_scan(s, designator, ty, location).0 is Found || unit_scan(
            s,
            designator,
            ty,
            location,
        ).0 is Skipped,
    ensures
        1 <= taken <= s.len(),
        is_end(s[taken - 1], UNIT_TAG.spec_bytes()),
        unit_scan(s, designator, ty, location).1 == s.skip(taken),
    decreases s.len(),
{
    let rest = after_taking(s, 1);
    assert(rest == s.skip(1));
    match s[0] {
        Ok(XmlEvent::Start { name, .. }) => {
            if name@ == DESIGNATOR_TAG.spec_bytes() || name@ == TYPE_TAG.spec_bytes() {
                lemma_text_read_stops_at_end(rest, name@);
                let read = text_taken(rest, name@) as int;
                let left = after_text(rest, name@);
                let text = element_text(rest, name@)->Some_0;
                let more = if name@ == DESIGNATOR_TAG.spec_bytes() {
                    lemma_unit_scan_stops_behind_end_tag(left, Some(text), ty, location)
                } else {
                    lemma_unit_scan_stops_behind_end_tag(left, designator, Some(text), location)
                };
                assert(left.skip(more) =~= s.skip(1 + read + more));
                assert(left[more - 1] == s[1 + read + more - 1]);
                1 + read + more
            } else {
                let more = lemma_unit_scan_stops_behind_end_tag(rest, designator, ty, location);
                assert(rest.skip(more) =~= s.skip(1 + more));
                assert(rest[more - 1] == s[more]);
                1 + more
            }
        },
        Ok(XmlEvent::Empty { name, content }) => {
            let more = if name@ == AIRPORT_LOCATION_TAG.spec_bytes() {
                lemma_unit_scan_stops_behind_end_tag(
                    rest,
                    designator,
                    ty,
                    lookup_text(gml_link(content@, name@.len() as int)),
                )
            } else {
                lemma_unit_scan_stops_behind_end_tag(rest, designator, ty, location)
            };
            assert(rest.skip(more) =~= s.skip(1 + more));
            assert(rest[more - 1] == s[more]);
            1 + more
        },
        Ok(XmlEvent::End { name }) => {
            if name@ == UNIT_TAG.spec_bytes() {
                1
            } else {
                let more = lemma_unit_scan_stops_behind_end_tag(rest, designator, ty, location);
                assert(rest.skip(more) =~= s.skip(1 + more));
                assert(rest[more - 1] == s[more]);
                1 + more
            }
        },
        Ok(XmlEvent::Eof) => 1,
        Err(_) => 1,
        Ok(_) => {
            let more = lemma_unit_scan_stops_behind_end_tag(rest, designator, ty, location);
            assert(rest.skip(more) =~= s.skip(1 + more));
            assert(rest[more - 1] == s[more]);
            1 + more
        },
    }
}

/// An airport that is found or skipped was read up to the end tag of an
/// airport and no further. The result is the number of steps taken.
pub proof fn lemma_airport_scan_stops_behind_end_tag(
    s: Seq<Step>,
    id: Option<Seq<char>>,
    designator: Option<Seq<char>>,
    latlon: Option<LatLon>,
) -> (taken: int)
    requires
        airport_scan(s, id, designator, latlon).0 is Found || airport_scan(
            s,
            id,
            designator,
            latlon,
        ).0 is Skipped,
    ensures
        1 <= taken <= s.len(),
        is_end(s[taken - 1], AIRPORT_TAG.spec_bytes()),
        airport_scan(s, id, designator, latlon).1 == s.skip(taken),
    decreases s.len(),
{
    let rest = after_taking(s, 1);
    assert(rest == s.skip(1));
    match s[0] {
        Ok(XmlEvent::Start { name, .. }) => {
            if name@ == DESIGNATOR_TAG.spec_bytes() || name@ == POSITION_TAG.spec_bytes() {
                lemma_text_read_stops_at_end(rest, name@);
                let read = text_taken(rest, name@) as int;
                let left = after_text(rest, name@);
                let text = element_text(rest, name@)->Some_0;
                let more = if name@ == DESIGNATOR_TAG.spec_bytes() {
                    lemma_airport_scan_stops_behind_end_tag(left, id, Some(text), latlon)
                } else {
                    lemma_airport_scan_stops_behind_end_tag(
                        left,
                        id,
                        designator,
                        aixm_position(text),
                    )
                };
                assert(left.skip(more) =~= s.skip(1 + read + more));
                assert(left[more - 1] == s[1 + read + more - 1]);
                1 + read + more
            } else {
                let more = lemma_airport_scan_stops_behind_end_tag(rest, id, designator, latlon);
                assert(rest.skip(more) =~= s.skip(1 + more));
                assert(rest[more - 1] == s[more]);
                1 + more
            }
        },
        Ok(XmlEvent::End { name }) => {
            if name@ == AIRPORT_TAG.spec_bytes() {
                1
            } else {
                let more = lemma_airport_scan_stops_behind_end_tag(rest, id, designator, latlon);
                assert(rest.skip(more) =~= s.skip(1 + more));
                assert(rest[more - 1] == s[more]);
                1 + more
            }
        },
        Ok(XmlEvent::Eof) => 1,
        Err(_) => 1,
        Ok(_) => {
            let more = lemma_airport_scan_stops_behind_end_tag(rest, id, designator, latlon);
            assert(rest.skip(more) =~= s.skip(1 + more));
            assert(rest[more - 1] == s[more]);
            1 + more
        },
    }
}

/// A navigation aid that is found or skipped was read up to the end tag of
/// a navigation aid and no further. The result is the number of steps
/// taken.
pub proof fn lemma_navaid_scan_stops_behind_end_tag(
    s: Seq<Step>,
    designator: Option<Seq<char>>,
    ty: Option<NavaidType>,
    latlon: Option<LatLon>,
    low_id: Option<Seq<char>>,
) -> (taken: int)
    requires
        navaid_scan(s, designator, ty, latlon, low_id).0 is Found || navaid_scan(
            s,
            designator,
            ty,
            latlon,
            low_id,
        ).0 is Skipped,
    ensures
        1 <= taken <= s.len(),
        is_end(s[taken - 1], NAVAID_TAG.spec_bytes()),
        navaid_scan(s, designator, ty, latlon, low_id).1 == s.skip(taken),
    decreases s.len(),
{
    let rest = after_taking(s, 1);
    assert(rest == s.skip(1));
    match s[0] {
        Ok(XmlEvent::Start { name, .. }) => {
            if name@ == DESIGNATOR_TAG.spec_bytes() || name@ == TYPE_TAG.spec_bytes() || name@
                == POSITION_TAG.spec_bytes() || name@ == LOW_ID_TAG.spec_bytes() {
                lemma_text_read_stops_at_end(rest, name@);
                let read = text_taken(rest, name@) as int;
                let left = after_text(rest, name@);
                let text = element_text(rest, name@)->Some_0;
                let more = if name@ == DESIGNATOR_TAG.spec_bytes() {
                    lemma_navaid_scan_stops_behind_end_tag(left, Some(text), ty, latlon, low_id)
                } else if name@ == TYPE_TAG.spec_bytes() {
                    lemma_navaid_scan_stops_behind_end_tag(
                        left,
                        designator,
                        match navaid_type(text) {
                            Some(kind) => Some(kind),
                            None => ty,
                        },
                        latlon,
                        low_id,
                    )
                } else if name@ == POSITION_TAG.spec_bytes() {
                    lemma_navaid_scan_stops_behind_end_tag(
                        left,
                        designator,
                        ty,
                        aixm_position(text),
                        low_id,
                    )
                } else {
                    lemma_navaid_scan_stops_behind_end_tag(left, designator, ty, latlon, Some(text))
                };
                assert(left.skip(more) =~= s.skip(1 + read + more));
                assert(left[more - 1] == s[1 + read + more - 1]);
                1 + read + more
            } else {
                let more = lemma_navaid_scan_stops_behind_end_tag(
                    rest,
                    designator,
                    ty,
                    latlon,
                    low_id,
                );
                assert(rest.skip(more) =~= s.skip(1 + more));
                assert(rest[more - 1] == s[more]);
                1 + more
            }
        },
        Ok(XmlEvent::End { name }) => {
            if name@ == NAVAID_TAG.spec_bytes() {
                1
            } else {
                let more = lemma_navaid_scan_stops_behind_end_tag(
                    rest,
                    designator,
                    ty,
                    latlon,
                    low_id,
                );
                assert(rest.skip(more) =~= s.skip(1 + more));
                assert(rest[more - 1] == s[more]);
                1 + more
            }
        },
        Ok(XmlEvent::Eof) => 1,
        Err(_) => 1,
        Ok(_) => {
            let more = lemma_navaid_scan_stops_behind_end_tag(rest, designator, ty, latlon, low_id);
            assert(rest.skip(more) =~= s.skip(1 + more));
            assert(rest[more - 1] == s[more]);
            1 + more
        },
    }
}

/// A run over a document ends with airports only at the end of the input,
/// with every step taken: a failure on the way leaves no airports.
pub proof fn lemma_airports_only_at_end_of_input(
    s: Seq<Step>,
    filter: Seq<Seq<char>>,
    ids: Seq<Seq<char>>,
    found: Seq<AirportView>,
)
    requires
        airports_scan(s, filter, ids, found).0 is Found,
    ensures
        airports_scan(s, filter, ids, found).1 == seq![Ok::<XmlEvent, quick_xml::Error>(XmlEvent::Eof)],
    decreases s.len(),
{
    let rest = after_taking(s, 1);
    match s[0] {
        Ok(XmlEvent::Start { name, content }) => {
            if name@ == UNIT_TAG.spec_bytes() {
                lemma_unit_scan_len(rest, None, None, None);
                let (outcome, left) = unit_scan(rest, None, None, None);
                match outcome {
                    Scan::Found(unit) => {
                        lemma_airports_only_at_end_of_input(
                            left,
                            filter,
                            if admits(unit, filter) {
                                ids.push(unit.airport_location)
                            } else {
                                ids
                            },
                            found,
                        );
                    },
                    Scan::Skipped => {
                        lemma_airports_only_at_end_of_input(left, filter, ids, found);
                    },
                    _ => {},
                }
            } else if name@ == AIRPORT_TAG.spec_bytes() {
                lemma_airport_scan_len(
                    rest,
                    lookup_text(
                        attribute_text(content@, name@.len() as int, ID_ATTRIBUTE.spec_bytes()),
                    ),
                    None,
                    None,
                );
                let (outcome, left) = airport_element(rest, content@, name@.len() as int);
                match outcome {
                    Scan::Found(airport) => {
                        lemma_airports_only_at_end_of_input(left, filter, ids, found.push(airport));
                    },
                    Scan::Skipped => {
                        lemma_airports_only_at_end_of_input(left, filter, ids, found);
                    },
                    _ => {},
                }
            } else {
                lemma_airports_only_at_end_of_input(rest, filter, ids, found);
            }
        },
        Ok(XmlEvent::Eof) => {},
        Err(_) => {},
        Ok(_) => {
            lemma_airports_only_at_end_of_input(rest, filter, ids, found);
        },
    }
}

} // verus!
