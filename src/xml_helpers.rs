//! XML events as the library sees them, and name-indexed access to attributes.
use vstd::prelude::*;

use crate::text::{opt_is, opt_view, str_is};
use xml::reader::{EventReader, XmlEvent as RawEvent};

verus! {

/// One attribute of an element: its local name and its value.
#[derive(Clone, Debug)]
pub struct XmlAttribute {
    pub name: String,
    pub value: String,
}

/// One event of the XML tokenizer, with names reduced to their local part.
#[derive(Clone, Debug)]
pub enum XmlEvent {
    StartElement(String, Vec<XmlAttribute>),
    EndElement(String),
    Characters(String),
    /// The tokenizer stopped on malformed input, with its message.
    Failure(String),
    /// Anything else (declarations, comments, whitespace between elements).
    Other,
}

/// The value of the first attribute named `name`.
pub open spec fn attr_value(attrs: Seq<XmlAttribute>, name: Seq<char>) -> Option<Seq<char>>
    decreases attrs.len(),
{
    if attrs.len() == 0 {
        None
    } else if attrs[0].name@ == name {
        Some(attrs[0].value@)
    } else {
        attr_value(attrs.drop_first(), name)
    }
}

/// The value of the first attribute whose local name is `match_string`.
pub fn get_id(attributes: &Vec<XmlAttribute>, match_string: &str) -> (r: Option<String>)
    ensures
        opt_view(r) == attr_value(attributes@, match_string@),
{
    let mut i: usize = 0;
    assert(attributes@.subrange(0, attributes@.len() as int) =~= attributes@);
    while i < attributes.len()
        invariant
            i <= attributes@.len(),
            attr_value(attributes@, match_string@) == attr_value(
                attributes@.subrange(i as int, attributes@.len() as int),
                match_string@,
            ),
        decreases attributes@.len() - i,
    {
        let ghost rest = attributes@.subrange(i as int, attributes@.len() as int);
        assert(rest.drop_first() =~= attributes@.subrange(i + 1, attributes@.len() as int));
        if str_is(attributes[i].name.as_str(), match_string) {
            return Some(attributes[i].value.clone());
        }
        i = i + 1;
    }
    None
}

/// The values of the attributes named in `match_string`, in that order.
pub fn get_ids(attributes: &Vec<XmlAttribute>, match_string: Vec<&str>) -> (r: Vec<Option<String>>)
    ensures
        r@.len() == match_string@.len(),
        forall|k: int|
            0 <= k < r@.len() ==> opt_view(#[trigger] r@[k]) == attr_value(
                attributes@,
                match_string@[k]@,
            ),
{
    let mut r: Vec<Option<String>> = Vec::new();
    let mut i: usize = 0;
    while i < match_string.len()
        invariant
            i <= match_string@.len(),
            r@.len() == i,
            forall|k: int|
                0 <= k < i ==> opt_view(#[trigger] r@[k]) == attr_value(
                    attributes@,
                    match_string@[k]@,
                ),
        decreases match_string@.len() - i,
    {
        r.push(get_id(attributes, match_string[i]));
        i = i + 1;
    }
    r
}

/// Whether the attributes `[channel, name, value, units]` of a `<channelProperty>` are all
/// present and name the resolution, the one property that is read.
pub open spec fn resolution_property(ids: Seq<Option<Seq<char>>>) -> bool {
    &&& forall|k: int| 0 <= k < ids.len() ==> (#[trigger] ids[k]) is Some
    &&& ids[1] == Some("resolution"@)
}

pub fn verify_channel_properties(ids: &Vec<Option<String>>) -> (r: bool)
    requires
        ids@.len() >= 2,
    ensures
        r == resolution_property(ids@.map_values(|o: Option<String>| opt_view(o))),
{
    let ghost v = ids@.map_values(|o: Option<String>| opt_view(o));
    let mut i: usize = 0;
    while i < ids.len()
        invariant
            i <= ids@.len(),
            v == ids@.map_values(|o: Option<String>| opt_view(o)),
            forall|k: int| 0 <= k < i ==> (#[trigger] v[k]) is Some,
        decreases ids@.len() - i,
    {
        if ids[i].is_none() {
            assert(v[i as int] is None);
            return false;
        }
        i = i + 1;
    }
    opt_is(&ids[1], "resolution")
}

/// Every event the tokenizer reads from a document, in order.
pub uninterp spec fn xml_events_of(bytes: Seq<u8>) -> Seq<XmlEvent>;

/// Relies on `xml::reader::EventReader` (xml-rs): reads `bytes` as XML and yields its
/// events until the end of the document or the first error. The events depend on the
/// bytes alone.
#[verifier::external_body]
pub fn read_xml_events(bytes: &[u8]) -> (r: Vec<XmlEvent>)
    ensures
        r@ == xml_events_of(bytes@),
{
    let mut events = Vec::new();
    for ev in EventReader::new(bytes) {
        events.push(match ev {
            Ok(RawEvent::StartElement { name, attributes, .. }) => XmlEvent::StartElement(
                name.local_name,
                attributes.into_iter().map(|a| XmlAttribute { name: a.name.local_name, value: a.value }).collect(),
            ),
            Ok(RawEvent::EndElement { name }) => XmlEvent::EndElement(name.local_name),
            Ok(RawEvent::Characters(text)) => XmlEvent::Characters(text),
            Ok(_) => XmlEvent::Other,
            Err(e) => XmlEvent::Failure(e.to_string()),
        });
    }
    events
}

} // verus!
