//! The XML reader that feeds are read with: `quick_xml`, behind a contract.
use vstd::prelude::*;
use vstd::utf8::*;
use quick_xml::events::BytesText;
use quick_xml::events::Event::{CData, Empty, End, Eof, Start, Text};
use quick_xml::reader::Reader;
use crate::text;

verus! {

/// One event of an XML document, with its raw bytes.
#[derive(Debug)]
pub enum XmlEvent {
    /// An opening tag: its qualified name, and its attributes in order of
    /// appearance. An attribute that is malformed or a repetition is `None`.
    Start(Vec<u8>, Vec<Option<(Vec<u8>, Vec<u8>)>>),
    /// A self-closing tag, in the same way.
    Empty(Vec<u8>, Vec<Option<(Vec<u8>, Vec<u8>)>>),
    /// Character data, still escaped.
    Text(Vec<u8>),
    /// The content of a CDATA section.
    CData(Vec<u8>),
    /// A closing tag and its qualified name.
    End(Vec<u8>),
    /// A comment, a declaration, a document type or a processing instruction.
    Other,
    /// An error, which is the last event of its document.
    Broken,
}

/// What an [`XmlEvent`] holds.
pub enum XmlEventView {
    Start(Seq<u8>, Seq<Option<(Seq<u8>, Seq<u8>)>>),
    Empty(Seq<u8>, Seq<Option<(Seq<u8>, Seq<u8>)>>),
    Text(Seq<u8>),
    CData(Seq<u8>),
    End(Seq<u8>),
    Other,
    Broken,
}

impl DeepView for XmlEvent {
    type V = XmlEventView;

    open spec fn deep_view(&self) -> XmlEventView {
        match self {
            XmlEvent::Start(name, attributes) => XmlEventView::Start(
                name.deep_view(),
                attributes.deep_view(),
            ),
            XmlEvent::Empty(name, attributes) => XmlEventView::Empty(
                name.deep_view(),
                attributes.deep_view(),
            ),
            XmlEvent::Text(raw) => XmlEventView::Text(raw.deep_view()),
            XmlEvent::CData(raw) => XmlEventView::CData(raw.deep_view()),
            XmlEvent::End(name) => XmlEventView::End(name.deep_view()),
            XmlEvent::Other => XmlEventView::Other,
            XmlEvent::Broken => XmlEventView::Broken,
        }
    }
}

/// The pull parser of `quick_xml`, kept opaque.
#[verifier::external_type_specification]
#[verifier::external_body]
#[verifier::reject_recursive_types(R)]
pub struct ExReader<R>(quick_xml::reader::Reader<R>);

/// The events of a document, up to its end or to the first error in it, which is
/// then the last of them.
pub uninterp spec fn xml_events(xml: Seq<char>) -> Seq<XmlEventView>;

/// The events that a reader has yet to hand out, up to the end of its document or
/// the first error in it, which is then the last of them.
pub uninterp spec fn pending_events(reader: quick_xml::reader::Reader<&[u8]>) -> Seq<XmlEventView>;

/// The text that character data stands for once its entities are resolved;
/// `None` where an entity is unknown or not terminated.
pub uninterp spec fn xml_unescaped(raw: Seq<u8>) -> Option<Seq<char>>;

/// The text that bytes decode to, with U+FFFD for what is not UTF-8.
pub uninterp spec fn lossy_text(bytes: Seq<u8>) -> Seq<char>;

/// How many more tags a run of events opens than it closes.
pub open spec fn depth_after(events: Seq<XmlEventView>) -> int
    decreases events.len(),
{
    if events.len() == 0 {
        0
    } else {
        depth_after(events.drop_last()) + match events.last() {
            XmlEventView::Start(_, _) => 1int,
            XmlEventView::End(_) => -1int,
            _ => 0int,
        }
    }
}

/// Whether a run of events is that of a whole text: it has no error, and it
/// closes every tag that it opens.
pub open spec fn is_whole(events: Seq<XmlEventView>) -> bool {
    &&& forall|i: int| 0 <= i < events.len() ==> !(#[trigger] events[i] is Broken)
    &&& depth_after(events) == 0
}

/// `quick_xml::reader::Reader::from_str`: a reader at the beginning of a
/// document, which has all events of the document before it. The document is
/// read from left to right: once a whole text is read, with every tag in it
/// closed, markup that follows is read as it is at the beginning of a document.
#[verifier::external_body]
pub(crate) fn open_document<'a>(xml: &'a str) -> (r: Reader<&'a [u8]>)
    ensures
        pending_events(r) == xml_events(xml@),
        forall|a: Seq<char>, b: Seq<char>|
            xml@ == #[trigger] (a + b) && is_whole(xml_events(a)) && text::begins(b, "<"@)
                ==> pending_events(r) == xml_events(a) + xml_events(b),
{
    Reader::from_str(xml)
}

/// `quick_xml::reader::Reader::read_event`: takes the next event off the
/// reader. A tag comes with what `BytesStart::attributes` yields for it. `None`
/// stands for the end of the document. An error is the last event that counts,
/// and nothing is claimed of the reader after it.
#[verifier::external_body]
pub(crate) fn next_event<'a>(reader: &mut Reader<&'a [u8]>) -> (r: Option<XmlEvent>)
    ensures
        match r {
            Some(event) => {
                &&& pending_events(*old(reader)).len() > 0
                &&& event.deep_view() == pending_events(*old(reader))[0]
                &&& event is Broken ==> pending_events(*old(reader)).len() == 1
                &&& !(event is Broken) ==> pending_events(*final(reader)) == pending_events(
                    *old(reader),
                ).drop_first()
            },
            None => pending_events(*old(reader)).len() == 0,
        },
{
    let Ok(event) = reader.read_event() else { return Some(XmlEvent::Broken) };
    let tag = if matches!(event, Empty(_)) { XmlEvent::Empty } else { XmlEvent::Start };
    Some(match event {
        Start(e) | Empty(e) => tag(
            e.name().0.to_vec(),
            e.attributes().map(|a| a.ok().map(|a| (a.key.0.to_vec(), a.value.to_vec()))).collect(),
        ),
        Text(t) => XmlEvent::Text(t.to_vec()),
        CData(t) => XmlEvent::CData(t.to_vec()),
        End(e) => XmlEvent::End(e.name().0.to_vec()),
        Eof => return None,
        _ => XmlEvent::Other,
    })
}

/// `quick_xml::events::BytesText::unescape`: resolves the entities of character
/// data. Data without an ampersand is returned as it stands.
#[verifier::external_body]
pub(crate) fn unescape(raw: &Vec<u8>) -> (r: Option<String>)
    ensures
        r.deep_view() == xml_unescaped(raw@),
        valid_utf8(raw@) && !raw@.contains(0x26u8) ==> r.deep_view() == Some(decode_utf8(raw@)),
{
    let text = std::str::from_utf8(raw).ok()?;
    Some(BytesText::from_escaped(text).unescape().ok()?.into_owned())
}

/// `String::from_utf8_lossy`: bytes that are UTF-8 are decoded, and what is not
/// is replaced by U+FFFD.
#[verifier::external_body]
pub(crate) fn decode_lossy(bytes: &Vec<u8>) -> (r: String)
    ensures
        r@ == lossy_text(bytes@),
        valid_utf8(bytes@) ==> r@ == decode_utf8(bytes@),
{
    String::from_utf8_lossy(bytes).to_string()
}

} // verus!
