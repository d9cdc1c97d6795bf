//! The event layer over the XML reader.  The reader itself is outside
//! code; everything it hands back is converted to the plain [`XmlEvent`]
//! form at once, and all logic that interprets events is verified.
//!
//! The event stream of a document is a function of its bytes alone — the
//! reader consults nothing else — so the stream is given a name,
//! [`xml_event_at`]: the event that the reader yields on its `i`-th read.
//! [`XmlDocument::next_event`] is the trusted item that ties each answer
//! to that name; what any stream of events does to a coverage store is
//! then stated and verified in the parsers.

use vstd::prelude::*;

verus! {

/// One tag, with its name and its attributes decoded to owned text.
pub struct XmlTag {
    pub name: String,
    pub attrs: Vec<(String, String)>,
}

/// One event of an XML document, in plain form.
pub enum XmlEvent {
    /// An opening tag `<name ...>`.
    Open(XmlTag),
    /// A self-closing tag `<name ... />`.
    SelfClosed(XmlTag),
    /// A closing tag `</name>`.
    Close(String),
    /// Anything else: text, comments, declarations, processing
    /// instructions, document type declarations or references.
    Other,
    /// The end of the document.
    Eof,
}

/// A document whose structure or attributes could not be read.
#[derive(Debug)]
pub struct XmlError;

/// One event at the specification level: what a read yields, including
/// the end of the document and a read that fails.
pub enum XmlEventModel {
    Open(Seq<char>, Seq<(Seq<char>, Seq<char>)>),
    SelfClosed(Seq<char>, Seq<(Seq<char>, Seq<char>)>),
    Close(Seq<char>),
    Other,
    End,
    Fail,
}

/// The event that the reader over `data` yields on its `i`-th read.
/// Deterministic: the reader reads nothing but the document bytes.
pub uninterp spec fn xml_event_at(data: Seq<u8>, i: int) -> XmlEventModel;

/// The views of an attribute list.
pub open spec fn attrs_view(attrs: Seq<(String, String)>) -> Seq<(Seq<char>, Seq<char>)> {
    attrs.map_values(|a: (String, String)| (a.0@, a.1@))
}

/// The model that a returned event denotes.
pub open spec fn event_view(ev: XmlEvent) -> XmlEventModel {
    match ev {
        XmlEvent::Open(tag) => XmlEventModel::Open(tag.name@, attrs_view(tag.attrs@)),
        XmlEvent::SelfClosed(tag) => XmlEventModel::SelfClosed(tag.name@, attrs_view(tag.attrs@)),
        XmlEvent::Close(name) => XmlEventModel::Close(name@),
        XmlEvent::Other => XmlEventModel::Other,
        XmlEvent::Eof => XmlEventModel::End,
    }
}

/// An event that stops the read loop: the end of the document, or a read
/// that fails.
pub open spec fn is_terminal(m: XmlEventModel) -> bool {
    m is End || m is Fail
}

/// First position `>= i`, below `bound`, whose event is terminal; `bound`
/// when none is.
pub open spec fn first_terminal_from(data: Seq<u8>, i: int, bound: int) -> int
    decreases bound - i,
{
    if i < 0 || i >= bound {
        bound
    } else if is_terminal(xml_event_at(data, i)) {
        i
    } else {
        first_terminal_from(data, i + 1, bound)
    }
}

/// The position of the first terminal event of the document.  The reader
/// consumes input on every event before the end, so the end or a failure
/// comes within `data.len() + 1` reads; [`XmlDocument::next_event`]
/// states that, which makes this position terminal.
pub open spec fn first_terminal(data: Seq<u8>) -> int {
    first_terminal_from(data, 0, data.len() as int + 1)
}

pub proof fn lemma_first_terminal_props(data: Seq<u8>, i: int, bound: int)
    requires
        0 <= i <= bound,
    ensures
        i <= first_terminal_from(data, i, bound) <= bound,
        first_terminal_from(data, i, bound) < bound ==> is_terminal(
            xml_event_at(data, first_terminal_from(data, i, bound)),
        ),
        forall|j: int|
            i <= j < first_terminal_from(data, i, bound) ==> !is_terminal(
                #[trigger] xml_event_at(data, j),
            ),
        (exists|n: int| i <= n < bound && is_terminal(#[trigger] xml_event_at(data, n)))
            ==> first_terminal_from(data, i, bound) < bound,
    decreases bound - i,
{
    if i < bound && !is_terminal(xml_event_at(data, i)) {
        lemma_first_terminal_props(data, i + 1, bound);
    }
}

#[verifier::external_type_specification]
#[verifier::external_body]
#[verifier::reject_recursive_types(R)]
pub struct ExXmlReader<R>(quick_xml::Reader<R>);

#[verifier::external_type_specification]
#[verifier::external_body]
pub struct ExXmlEvent<'a>(quick_xml::events::Event<'a>);

/// Relies on `quick_xml::Reader::from_reader`: a reader over the given
/// bytes, with the default configuration.
#[verifier::external_body]
fn xml_reader_from<'a>(data: &'a [u8]) -> quick_xml::Reader<&'a [u8]> {
    quick_xml::Reader::from_reader(data)
}

/// Relies on `BytesStart::name`, `BytesStart::attributes` and
/// `Attribute::unescape_value`: the tag's name and its attributes as owned
/// text, values with their character and entity references resolved; a
/// malformed attribute list is an error.
#[verifier::external_body]
#[allow(deprecated)]
fn xml_tag_view(e: &quick_xml::events::Event<'_>) -> (res: Result<XmlTag, XmlError>) {
    let t = match e {
        quick_xml::events::Event::Start(t) => t,
        quick_xml::events::Event::Empty(t) => t,
        _ => return Err(XmlError),
    };
    let name = String::from(t.name().as_ref());
    let mut attrs: Vec<(String, String)> = Vec::new();
    for a in t.attributes() {
        let a = a.map_err(|_| XmlError)?;
        let v = a.unescape_value().map_err(|_| XmlError)?.into_owned();
        attrs.push((String::from(a.key.as_ref()), v));
    }
    Ok(XmlTag { name, attrs })
}

/// Relies on the variants of `quick_xml::events::Event`, `BytesEnd::name`
/// and [`xml_tag_view`]'s reading of a tag: the event in plain form.
#[verifier::external_body]
fn xml_event_convert(e: &quick_xml::events::Event<'_>) -> (res: Result<XmlEvent, XmlError>) {
    match e {
        quick_xml::events::Event::Start(_) => Ok(XmlEvent::Open(xml_tag_view(e)?)),
        quick_xml::events::Event::Empty(_) => Ok(XmlEvent::SelfClosed(xml_tag_view(e)?)),
        quick_xml::events::Event::End(t) => Ok(XmlEvent::Close(String::from(t.name().as_ref()))),
        quick_xml::events::Event::Eof => Ok(XmlEvent::Eof),
        _ => Ok(XmlEvent::Other),
    }
}

/// A handle on an XML document being read event by event, tracking the
/// document bytes and the read position in ghost state.  The fields are
/// private: a document can only be made by [`XmlDocument::new`] and only
/// advanced by [`XmlDocument::next_event`], so the ghost state always
/// describes the reader beside it.
pub(crate) struct XmlDocument<'a> {
    reader: quick_xml::Reader<&'a [u8]>,
    data: Ghost<Seq<u8>>,
    pos: Ghost<int>,
}

impl<'a> XmlDocument<'a> {
    /// The document bytes this handle reads.
    pub(crate) closed spec fn data_spec(self) -> Seq<u8> {
        self.data@
    }

    /// How many events have been read.
    pub(crate) closed spec fn pos_spec(self) -> int {
        self.pos@
    }

    /// Starts reading the given document text.
    pub(crate) fn new(data: &'a [u8]) -> (r: XmlDocument<'a>)
        ensures
            r.data_spec() == data@,
            r.pos_spec() == 0,
    {
        XmlDocument { reader: xml_reader_from(data), data: Ghost(data@), pos: Ghost(0) }
    }

    /// The next event, in plain form.
    ///
    /// Relies on `quick_xml::Reader::read_event_into` (via
    /// [`xml_event_convert`]): the answer on the `i`-th read is a function
    /// of the document bytes alone, named [`xml_event_at`]; an `Err`
    /// denotes a failed read.  The last clause is the reader's progress:
    /// every event before the end of the document consumes input, so a
    /// terminal event comes within `data.len() + 1` reads.
    #[verifier::external_body]
    pub(crate) fn next_event(&mut self) -> (res: Result<XmlEvent, XmlError>)
        ensures
            final(self).data_spec() == old(self).data_spec(),
            final(self).pos_spec() == old(self).pos_spec() + 1,
            match res {
                Ok(ev) => event_view(ev) == xml_event_at(
                    old(self).data_spec(),
                    old(self).pos_spec(),
                ) && !(event_view(ev) is Fail),
                Err(_) => xml_event_at(old(self).data_spec(), old(self).pos_spec()) is Fail,
            },
            exists|n: int|
                0 <= n <= old(self).data_spec().len() && is_terminal(
                    #[trigger] xml_event_at(old(self).data_spec(), n),
                ),
    {
        let mut buf: Vec<u8> = Vec::new();
        match self.reader.read_event_into(&mut buf) {
            Ok(e) => xml_event_convert(&e),
            Err(_) => Err(XmlError),
        }
    }
}

} // verus!
