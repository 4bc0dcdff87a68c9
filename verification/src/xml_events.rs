//! The XML tokenizer of `quick_xml`, seen as a stream of plain events.
//!
//! `quick_xml` reads the bytes; what the library needs of each event (its
//! kind, the tag name, the attributes, the unescaped text, the byte offsets
//! around it) is converted here into values of the library's own types.

use vstd::prelude::*;
use quick_xml::events::{BytesStart, Event};
use quick_xml::reader::Reader;
use crate::text::{chars_of, same_text, string_of, string_of_range};

verus! {

/// `quick_xml`'s pull reader.
#[verifier::external_type_specification]
#[verifier::external_body]
#[verifier::reject_recursive_types(R)]
pub struct ExReader<R>(Reader<R>);

/// `quick_xml`'s start tag (`<name attr="v">` or `<name/>`).
#[verifier::external_type_specification]
#[verifier::external_body]
pub struct ExBytesStart<'a>(BytesStart<'a>);

/// One attribute of a tag: its qualified name and its raw (not unescaped)
/// value. Names and values are the bytes of the document decoded as UTF-8,
/// invalid sequences replaced by U+FFFD; an ASCII name compares equal to a
/// decoded name exactly when it equals the original bytes.
pub struct XmlAttr {
    pub key: String,
    pub value: String,
}

/// A start or empty tag: its qualified name and its attributes, in order;
/// an attribute that could not be read is `None`.
pub struct XmlTag {
    pub name: String,
    pub attrs: Vec<Option<XmlAttr>>,
}

/// One event of the tokenizer.
pub enum XmlEvent {
    Start(XmlTag),
    Empty(XmlTag),
    End(String),
    /// Character data: the unescaped text, or why it could not be unescaped.
    Text(Result<String, String>),
    Eof,
    /// Declarations, comments, CDATA, processing instructions, doctype.
    Other,
    /// The tokenizer failed; the message says why.
    Error(String),
}

/// An event with the byte offsets of the reader before and after it.
pub struct PosEvent {
    pub before: usize,
    pub after: usize,
    pub event: XmlEvent,
}

/// Name and attributes of a tag (`BytesStart::name`, `BytesStart::attributes`),
/// converted for [`read_all_events`]. Nothing is stated of them here: they
/// are part of the stream that [`xml_events`] names.
#[verifier::external_body]
fn tag_of(e: &BytesStart) -> XmlTag {
    XmlTag {
        name: String::from_utf8_lossy(e.name().as_ref()).into_owned(),
        attrs: e.attributes().map(|a| a.ok().map(|a| XmlAttr {
            key: String::from_utf8_lossy(a.key.as_ref()).into_owned(),
            value: String::from_utf8_lossy(&a.value).into_owned(),
        })).collect(),
    }
}

/// The next event of the reader (`Reader::read_event_into`), converted for
/// [`read_all_events`]. Nothing is stated of it here: it is part of the
/// stream that [`xml_events`] names.
#[verifier::external_body]
fn read_event(reader: &mut Reader<&[u8]>) -> XmlEvent {
    let mut buf = Vec::new();
    match reader.read_event_into(&mut buf) {
        Ok(Event::Start(e)) => XmlEvent::Start(tag_of(&e)),
        Ok(Event::Empty(e)) => XmlEvent::Empty(tag_of(&e)),
        Ok(Event::End(e)) => XmlEvent::End(String::from_utf8_lossy(e.name().as_ref()).into_owned()),
        Ok(Event::Text(t)) => XmlEvent::Text(t.unescape().map(|c| c.into_owned()).map_err(|e| e.to_string())),
        Ok(Event::Eof) => XmlEvent::Eof,
        Ok(_) => XmlEvent::Other,
        Err(e) => XmlEvent::Error(e.to_string()),
    }
}

/// The event ends the stream.
pub open spec fn is_final(e: XmlEvent) -> bool {
    e is Eof || e is Error
}

/// A stream of events as the tokenizer hands it out: it ends with its
/// first `Eof` or `Error` event.
pub open spec fn well_terminated(evs: Seq<PosEvent>) -> bool {
    &&& evs.len() > 0
    &&& is_final(evs.last().event)
    &&& forall|i: int| 0 <= i < evs.len() - 1 ==> !is_final(#[trigger] evs[i].event)
}

/// The offsets around the events lie in an input of `n` bytes and move
/// forward: each event ends no earlier than it starts, and the next one
/// starts where it ends.
pub open spec fn offsets_within(evs: Seq<PosEvent>, n: nat) -> bool {
    &&& forall|i: int| 0 <= i < evs.len() ==> (#[trigger] evs[i]).before <= evs[i].after <= n
    &&& forall|i: int| 0 <= i < evs.len() - 1 ==> (#[trigger] evs[i]).after == evs[i + 1].before
}

/// Each start, empty or end tag event consumes its tag: it ends after it
/// starts.
pub open spec fn tags_advance(evs: Seq<PosEvent>) -> bool {
    forall|i: int|
        0 <= i < evs.len() && ((#[trigger] evs[i]).event is Start || evs[i].event is Empty || evs[i].event is End)
            ==> evs[i].before < evs[i].after
}

/// The events that `quick_xml`'s reader reads from `xml`, converted as
/// [`read_event`] converts them, each with the reader's offset before and
/// after it, up to and including the first end of input or error.
pub uninterp spec fn xml_events(xml: Seq<u8>) -> Seq<PosEvent>;

/// All events of `xml` (`Reader::from_reader`, then `Reader::read_event_into`
/// and `Reader::buffer_position` around each event) up to and including the
/// first end of input or error. The stream is named, not stated. What the
/// contract claims besides: it ends there; the offsets never exceed the
/// input, since the reader counts the bytes it consumes (a leading byte
/// order mark is skipped without being counted), never move back, and the
/// next event starts at the offset where the last one ended; a start,
/// empty or end tag is read from its `<` to past its `>`, so such an event
/// ends after it starts. Every event but the last consumes input, so the
/// stream is finite.
#[verifier::external_body]
pub(crate) fn read_all_events(xml: &[u8]) -> (evs: Vec<PosEvent>)
    ensures
        evs@ == xml_events(xml@),
        well_terminated(evs@),
        offsets_within(evs@, xml@.len()),
        tags_advance(evs@),
{
    let mut reader = Reader::from_reader(xml);
    let mut evs = Vec::new();
    loop {
        let before = reader.buffer_position();
        let event = read_event(&mut reader);
        let stop = matches!(event, XmlEvent::Eof | XmlEvent::Error(_));
        evs.push(PosEvent { before, after: reader.buffer_position(), event });
        if stop {
            return evs;
        }
    }
}

/// Index of the first `:` in `q` at or after `from` (`q.len()` if none).
pub open spec fn colon_from(q: Seq<char>, from: nat) -> nat
    decreases q.len() - from,
{
    if from >= q.len() {
        q.len()
    } else if q[from as int] == ':' {
        from
    } else {
        colon_from(q, from + 1)
    }
}

/// The local part of a qualified name: what follows its first `:`.
pub open spec fn local_of(q: Seq<char>) -> Seq<char> {
    let i = colon_from(q, 0);
    if i < q.len() {
        q.skip(i + 1int)
    } else {
        q
    }
}

/// The local part of a qualified name (`w:p` gives `p`).
pub fn local_name(qname: &str) -> (r: String)
    ensures
        r@ == local_of(qname@),
{
    let v = chars_of(qname);
    let mut i: usize = 0;
    while i < v.len() && v[i] != ':'
        invariant
            v@ == qname@,
            i <= v@.len(),
            colon_from(v@, 0) == colon_from(v@, i as nat),
        decreases v@.len() - i,
    {
        i += 1;
    }
    if i < v.len() {
        string_of_range(v.as_slice(), i + 1, v.len())
    } else {
        string_of(v.as_slice())
    }
}

/// Value of the first readable attribute named `key`.
pub open spec fn attr_lookup(attrs: Seq<Option<XmlAttr>>, key: Seq<char>) -> Option<Seq<char>>
    decreases attrs.len(),
{
    if attrs.len() == 0 {
        None
    } else if attrs[0] is Some && attrs[0]->0.key@ == key {
        Some(attrs[0]->0.value@)
    } else {
        attr_lookup(attrs.drop_first(), key)
    }
}

/// Value of the first readable attribute of `tag` named `key`.
pub fn attr_val(tag: &XmlTag, key: &str) -> (r: Option<String>)
    ensures
        r is Some <==> attr_lookup(tag.attrs@, key@) is Some,
        r is Some ==> r->0@ == attr_lookup(tag.attrs@, key@)->0,
{
    let mut i: usize = 0;
    assert(tag.attrs@.skip(0) == tag.attrs@);
    while i < tag.attrs.len()
        invariant
            i <= tag.attrs@.len(),
            attr_lookup(tag.attrs@, key@) == attr_lookup(tag.attrs@.skip(i as int), key@),
        decreases tag.attrs@.len() - i,
    {
        assert(tag.attrs@.skip(i as int).drop_first() == tag.attrs@.skip(i + 1));
        if let Some(a) = &tag.attrs[i] {
            if same_text(a.key.as_str(), key) {
                return Some(a.value.clone());
            }
        }
        i += 1;
    }
    None
}

} // verus!
