//! The metadata file: its decoding into text, the removal of a second XML
//! prolog, and the channels that its elements describe.

use crate::dts::{
    optional_text, AnalogInputChannel, ChannelEntry, ChannelView, DtsError, ZeroMethod,
};
use crate::text::{
    chars_of, eq_ignore_ascii_case, eq_ignoring_ascii_case, find_from, first_occurrence,
    occurs_at, parse_number, parsed_number, str_equal, string_of_range,
};
use vstd::prelude::*;
use vstd::utf8::*;

verus! {

// ---------------------------------------------------------------------------
// Decoding
// ---------------------------------------------------------------------------

/// The encodings in which a metadata file is read.
#[derive(Clone, Copy, Debug, PartialEq, Eq, Structural)]
pub enum TextEncoding {
    /// UTF-8.
    Utf8,
    /// UTF-16, least significant byte first.
    Utf16Le,
    /// UTF-16, most significant byte first.
    Utf16Be,
}

/// Whether `bytes` begins with the bytes of `mark`.
pub open spec fn starts_with(bytes: Seq<u8>, mark: Seq<u8>) -> bool {
    bytes.len() >= mark.len() && bytes.take(mark.len() as int) == mark
}

/// The encoding that a byte-order mark at the beginning of `bytes` names,
/// with the length of the mark.
pub open spec fn byte_order_mark(bytes: Seq<u8>) -> Option<(TextEncoding, usize)> {
    if starts_with(bytes, seq![0xEFu8, 0xBBu8, 0xBFu8]) {
        Some((TextEncoding::Utf8, 3usize))
    } else if starts_with(bytes, seq![0xFFu8, 0xFEu8]) {
        Some((TextEncoding::Utf16Le, 2usize))
    } else if starts_with(bytes, seq![0xFEu8, 0xFFu8]) {
        Some((TextEncoding::Utf16Be, 2usize))
    } else {
        None
    }
}

/// Looks for a byte-order mark at the beginning of `bytes`.
pub fn sniff_bom(bytes: &[u8]) -> (r: Option<(TextEncoding, usize)>)
    ensures
        r == byte_order_mark(bytes@),
{
    if bytes.len() >= 3 && bytes[0] == 0xEF && bytes[1] == 0xBB && bytes[2] == 0xBF {
        assert(bytes@.take(3) == seq![0xEFu8, 0xBBu8, 0xBFu8]);
        Some((TextEncoding::Utf8, 3))
    } else if bytes.len() >= 2 && bytes[0] == 0xFF && bytes[1] == 0xFE {
        assert(bytes@.take(2) == seq![0xFFu8, 0xFEu8]);
        proof {
            if bytes@.len() >= 3 {
                assert(bytes@.take(3)[0] != 0xEFu8);
            }
        }
        Some((TextEncoding::Utf16Le, 2))
    } else if bytes.len() >= 2 && bytes[0] == 0xFE && bytes[1] == 0xFF {
        assert(bytes@.take(2) == seq![0xFEu8, 0xFFu8]);
        proof {
            if bytes@.len() >= 3 {
                assert(bytes@.take(3)[0] != 0xEFu8);
            }
        }
        Some((TextEncoding::Utf16Be, 2))
    } else {
        proof {
            if bytes@.len() >= 3 {
                assert(bytes@.take(3)[0] == bytes@[0]);
                assert(bytes@.take(3)[1] == bytes@[1]);
                assert(bytes@.take(3)[2] == bytes@[2]);
            }
            if bytes@.len() >= 2 {
                assert(bytes@.take(2)[0] == bytes@[0]);
                assert(bytes@.take(2)[1] == bytes@[1]);
            }
        }
        None
    }
}

/// What `encoding_rs` makes of `bytes` in the given encoding, without regard
/// to a byte-order mark: the text, with a replacement character for each
/// malformed sequence, and whether there was such a sequence.
pub uninterp spec fn decoded_text(encoding: TextEncoding, bytes: Seq<u8>) -> (Seq<char>, bool);

/// Largest number of bytes that [`decode_text`] takes: an eighth of the
/// address space, so that the sizes it computes stay within it.
pub open spec fn decode_limit() -> nat {
    (usize::MAX / 8) as nat
}

/// Decodes `bytes` in the given encoding.
///
/// Trusted: calls `Encoding::decode_without_bom_handling` of `encoding_rs` on
/// its `UTF_8`, `UTF_16LE` or `UTF_16BE`. The library knows the result only
/// by the name [`decoded_text`]. The call computes buffer sizes of up to
/// three times the input and rounds them up to a power of two, and panics
/// where that overflows: `requires` keeps the input below an eighth of the
/// address space.
#[verifier::external_body]
fn decode_text(encoding: TextEncoding, bytes: &[u8]) -> (r: (String, bool))
    requires
        bytes@.len() <= decode_limit(),
    ensures
        (r.0@, r.1) == decoded_text(encoding, bytes@),
{
    let outside = match encoding {
        TextEncoding::Utf8 => encoding_rs::UTF_8,
        TextEncoding::Utf16Le => encoding_rs::UTF_16LE,
        TextEncoding::Utf16Be => encoding_rs::UTF_16BE,
    };
    let (text, had_errors) = outside.decode_without_bom_handling(bytes);
    (text.into_owned(), had_errors)
}

/// Reads `bytes` as UTF-8.
///
/// Trusted: `std::str::from_utf8` gives the text whose UTF-8 form `bytes`
/// is, and none where `bytes` is not well-formed UTF-8.
#[verifier::external_body]
fn utf8_text(bytes: &[u8]) -> (r: Option<String>)
    ensures
        r is Some <==> valid_utf8(bytes@),
        r matches Some(text) ==> text@ == decode_utf8(bytes@),
{
    match std::str::from_utf8(bytes) {
        Ok(text) => Some(text.to_string()),
        Err(_) => None,
    }
}

/// The text of a metadata file with the given bytes. An empty file is an
/// empty text. A file with a byte-order mark is in the encoding that the
/// mark names. A file without one is UTF-8 where that is well-formed, else
/// UTF-16 in the byte order that a zero in its first two bytes suggests.
/// A file that its mark's encoding cannot decode without loss fails with
/// [`DtsError::InvalidCharacters`]; a file without a mark that is in none of
/// these encodings, or too large to decode, with [`DtsError::Encoding`].
pub open spec fn metadata_text(bytes: Seq<u8>) -> Result<Seq<char>, DtsError> {
    if bytes.len() == 0 {
        Ok(Seq::<char>::empty())
    } else if bytes.len() > decode_limit() {
        Err(DtsError::Encoding)
    } else if byte_order_mark(bytes) is Some {
        let (encoding, skip) = byte_order_mark(bytes).unwrap();
        let (text, had_errors) = decoded_text(encoding, bytes.skip(skip as int));
        if had_errors {
            Err(DtsError::InvalidCharacters)
        } else {
            Ok(text)
        }
    } else if valid_utf8(bytes) {
        Ok(decode_utf8(bytes))
    } else if bytes.len() > 1 && (bytes[1] == 0 || bytes[0] == 0) {
        let encoding = if bytes[1] == 0 {
            TextEncoding::Utf16Le
        } else {
            TextEncoding::Utf16Be
        };
        let (text, had_errors) = decoded_text(encoding, bytes);
        if had_errors {
            Err(DtsError::Encoding)
        } else {
            Ok(text)
        }
    } else {
        Err(DtsError::Encoding)
    }
}

/// Decodes the bytes of a metadata file into text.
pub fn read_dts_xml(bytes: &[u8]) -> (r: Result<String, DtsError>)
    ensures
        match r {
            Ok(text) => metadata_text(bytes@) == Ok::<Seq<char>, DtsError>(text@),
            Err(e) => metadata_text(bytes@) == Err::<Seq<char>, DtsError>(e),
        },
{
    if bytes.len() == 0 {
        return Ok(String::new());
    }
    if bytes.len() > usize::MAX / 8 {
        return Err(DtsError::Encoding);
    }
    match sniff_bom(bytes) {
        Some((encoding, bom_len)) => {
            let rest = vstd::slice::slice_subrange(bytes, bom_len, bytes.len());
            assert(rest@ == bytes@.skip(bom_len as int));
            let (decoded, had_errors) = decode_text(encoding, rest);
            if had_errors {
                return Err(DtsError::InvalidCharacters);
            }
            return Ok(decoded);
        },
        None => {},
    }
    match utf8_text(bytes) {
        Some(text) => {
            return Ok(text);
        },
        None => {},
    }
    let looks_utf16le = bytes.len() > 1 && bytes[1] == 0;
    let looks_utf16be = bytes.len() > 1 && bytes[0] == 0;
    if looks_utf16le || looks_utf16be {
        let encoding = if looks_utf16le {
            TextEncoding::Utf16Le
        } else {
            TextEncoding::Utf16Be
        };
        let (decoded, had_errors) = decode_text(encoding, bytes);
        if !had_errors {
            return Ok(decoded);
        }
    }
    Err(DtsError::Encoding)
}

// ---------------------------------------------------------------------------
// The second prolog
// ---------------------------------------------------------------------------

/// How an XML prolog begins.
pub const PROLOG: &'static str = "<?xml";

/// Whether a second prolog begins at `at`: the first prolog of `xml` begins
/// somewhere before, and `at` is where the next one begins behind it.
pub open spec fn second_prolog_at(xml: Seq<char>, at: int) -> bool {
    exists|first: int| #[trigger]
        first_occurrence(xml, PROLOG@, 0, first) && first_occurrence(
            xml,
            PROLOG@,
            first + PROLOG@.len(),
            at,
        )
}

/// Where the second prolog of `chars` begins, if it has two.
pub fn second_prolog(chars: &Vec<char>) -> (r: Option<usize>)
    ensures
        match r {
            Some(at) => second_prolog_at(chars@, at as int),
            None => forall|at: int| !second_prolog_at(chars@, at),
        },
{
    let pattern = chars_of(PROLOG);
    match find_from(chars, &pattern, 0) {
        None => {
            assert forall|at: int| !second_prolog_at(chars@, at) by {
                assert forall|first: int| !first_occurrence(chars@, PROLOG@, 0, first) by {}
            }
            None
        },
        Some(first) => {
            assert(occurs_at(chars@, pattern@, first as int));
            let total = chars.len();
            assert(first + pattern@.len() <= total);
            let from = first + pattern.len();
            match find_from(chars, &pattern, from) {
                Some(at) => Some(at),
                None => {
                    assert forall|at: int| !second_prolog_at(chars@, at) by {
                        assert forall|other: int| #[trigger]
                            first_occurrence(chars@, PROLOG@, 0, other) implies other
                            == first by {}
                    }
                    None
                },
            }
        },
    }
}

/// The text `xml` cut off where its second prolog begins; all of it where
/// it has none.
pub open spec fn sanitized(xml: Seq<char>) -> Seq<char> {
    if exists|at: int| second_prolog_at(xml, at) {
        xml.take(choose|at: int| second_prolog_at(xml, at))
    } else {
        xml
    }
}

/// Cuts `xml` off where its second prolog begins; leaves it as it is where
/// it has none.
pub fn sanitize_duplicate_xml_headers(xml: &mut String)
    ensures
        final(xml)@ == sanitized(old(xml)@),
        forall|at: int| second_prolog_at(old(xml)@, at) ==> final(xml)@ == old(xml)@.take(at),
        (forall|at: int| !second_prolog_at(old(xml)@, at)) ==> final(xml)@ == old(xml)@,
{
    let chars = chars_of(xml.as_str());
    match second_prolog(&chars) {
        Some(cut) => {
            let ghost witness = choose|first: int| #[trigger]
                first_occurrence(chars@, PROLOG@, 0, first) && first_occurrence(
                    chars@,
                    PROLOG@,
                    first + PROLOG@.len(),
                    cut as int,
                );
            assert forall|at: int| second_prolog_at(chars@, at) implies at == cut by {
                let other = choose|first: int| #[trigger]
                    first_occurrence(chars@, PROLOG@, 0, first) && first_occurrence(
                        chars@,
                        PROLOG@,
                        first + PROLOG@.len(),
                        at,
                    );
                assert(other == witness);
            }
            *xml = string_of_range(&chars, 0, cut);
        },
        None => {},
    }
}

// ---------------------------------------------------------------------------
// Elements
// ---------------------------------------------------------------------------

/// One attribute as it stands in the file: key and value, the value still
/// with its escapes.
pub struct RawAttribute {
    /// The key.
    pub key: Vec<u8>,
    /// The value between its quotes.
    pub value: Vec<u8>,
}

/// One element's tag: its name and its attributes in the order in which
/// they stand, `None` for what is no well-formed attribute.
pub struct XmlElement {
    /// The name of the element.
    pub name: Vec<u8>,
    /// The attributes of the element.
    pub attributes: Vec<Option<RawAttribute>>,
}

/// What the reader meets in a document.
pub enum XmlNode {
    /// The tag that opens an element.
    Start(XmlElement),
    /// The tag of an element without content.
    Empty(XmlElement),
    /// The tag that closes the element of the given name.
    End(Vec<u8>),
    /// Anything else: text, a comment, a declaration.
    Other,
}

#[verifier::external_type_specification]
#[verifier::external_body]
#[verifier::reject_recursive_types(R)]
pub struct ExReader<R>(quick_xml::Reader<R>);

#[verifier::external_type_specification]
#[verifier::external_body]
pub struct ExBytesStart<'a>(quick_xml::events::BytesStart<'a>);

#[verifier::external_type_specification]
#[verifier::external_body]
pub struct ExBytesEnd<'a>(quick_xml::events::BytesEnd<'a>);

#[verifier::external_type_specification]
#[verifier::external_body]
pub struct ExXmlError(quick_xml::Error);

/// One step of the outside reader, told apart by kind.
pub enum RawEvent<'a> {
    /// An opening tag.
    Start(quick_xml::events::BytesStart<'a>),
    /// The tag of an element without content.
    Empty(quick_xml::events::BytesStart<'a>),
    /// A closing tag.
    End(quick_xml::events::BytesEnd<'a>),
    /// The end of the document.
    Eof,
    /// Anything else.
    Other,
}

/// One attribute as plain values: key and value.
pub type AttributeView = (Seq<u8>, Seq<u8>);

/// An [`XmlElement`] as plain values.
pub ghost struct ElementView {
    pub name: Seq<u8>,
    pub attributes: Seq<Option<AttributeView>>,
}

/// An [`XmlNode`] as plain values.
pub ghost enum NodeView {
    Start(ElementView),
    Empty(ElementView),
    End(Seq<u8>),
    Other,
}

/// One step of a reader as plain values: a node, the end of the document,
/// or a failure.
pub ghost enum StepView {
    Node(NodeView),
    Eof,
    Failed,
}

/// An optional attribute as plain values.
pub open spec fn attribute_view(attribute: Option<RawAttribute>) -> Option<AttributeView> {
    match attribute {
        Some(a) => Some((a.key@, a.value@)),
        None => None,
    }
}

/// Attributes as plain values.
pub open spec fn attributes_view(attributes: Seq<Option<RawAttribute>>) -> Seq<
    Option<AttributeView>,
> {
    attributes.map_values(|a: Option<RawAttribute>| attribute_view(a))
}

impl View for XmlElement {
    type V = ElementView;

    open spec fn view(&self) -> ElementView {
        ElementView { name: self.name@, attributes: attributes_view(self.attributes@) }
    }
}

impl View for XmlNode {
    type V = NodeView;

    open spec fn view(&self) -> NodeView {
        match *self {
            XmlNode::Start(element) => NodeView::Start(element@),
            XmlNode::Empty(element) => NodeView::Empty(element@),
            XmlNode::End(name) => NodeView::End(name@),
            XmlNode::Other => NodeView::Other,
        }
    }
}

/// Nodes as plain values.
pub open spec fn nodes_view(nodes: Seq<XmlNode>) -> Seq<NodeView> {
    nodes.map_values(|n: XmlNode| n@)
}

/// What `quick_xml` gives at step `k`, counted from zero, of reading the
/// document `xml` with white space around text dropped.
pub uninterp spec fn document_step(xml: Seq<char>, k: nat) -> StepView;

/// What a reader will give at its step `k` from now, counted from zero.
pub uninterp spec fn step_ahead(reader: quick_xml::Reader<&[u8]>, k: nat) -> StepView;

/// What a reader would give at its step `k` from now, counted from zero,
/// were it set to drop the white space around text.
pub uninterp spec fn trimmed_ahead(reader: quick_xml::Reader<&[u8]>, k: nat) -> StepView;

/// The name that a tag holds.
pub uninterp spec fn tag_name(tag: quick_xml::events::BytesStart<'_>) -> Seq<u8>;

/// The attributes that a tag holds, in order, none for what is no
/// well-formed attribute.
pub uninterp spec fn tag_attributes(tag: quick_xml::events::BytesStart<'_>) -> Seq<
    Option<AttributeView>,
>;

/// The name that a closing tag holds.
pub uninterp spec fn closing_name(tag: quick_xml::events::BytesEnd<'_>) -> Seq<u8>;

/// The element that a tag holds.
pub open spec fn tag_element(tag: quick_xml::events::BytesStart<'_>) -> ElementView {
    ElementView { name: tag_name(tag), attributes: tag_attributes(tag) }
}

/// One step of a reader, as it came back, as plain values.
pub open spec fn step_view(step: Result<RawEvent<'_>, quick_xml::Error>) -> StepView {
    match step {
        Ok(RawEvent::Start(tag)) => StepView::Node(NodeView::Start(tag_element(tag))),
        Ok(RawEvent::Empty(tag)) => StepView::Node(NodeView::Empty(tag_element(tag))),
        Ok(RawEvent::End(tag)) => StepView::Node(NodeView::End(closing_name(tag))),
        Ok(RawEvent::Other) => StepView::Node(NodeView::Other),
        Ok(RawEvent::Eof) => StepView::Eof,
        Err(_) => StepView::Failed,
    }
}

/// A reader over the text of a document.
///
/// Trusted: `quick_xml::Reader::from_str`. The reader works on the text
/// alone, so what it will give step by step, once it is set to drop white
/// space, is a function of the text: the library knows it only by the name
/// [`document_step`].
#[verifier::external_body]
fn open_reader<'a>(xml: &'a str) -> (reader: quick_xml::Reader<&'a [u8]>)
    ensures
        forall|k: nat| #[trigger] trimmed_ahead(reader, k) == document_step(xml@, k),
{
    quick_xml::Reader::from_str(xml)
}

/// Sets a reader to drop the white space around text, and text that is
/// nothing else.
///
/// Trusted: `quick_xml::Reader::trim_text`. What the reader will give from
/// now on is what the name [`trimmed_ahead`] says of it as it was.
#[verifier::external_body]
fn trim_text<'a>(reader: &mut quick_xml::Reader<&'a [u8]>)
    ensures
        forall|k: nat| #[trigger] step_ahead(*final(reader), k) == trimmed_ahead(*old(reader), k),
{
    reader.trim_text(true);
}

/// The next step of the reader.
///
/// Trusted: `quick_xml::Reader::read_event`, its result told apart by kind.
/// What comes back is what the reader was to give next, and what it will
/// give from now on is what it was to give after that.
#[verifier::external_body]
fn next_event<'a>(reader: &mut quick_xml::Reader<&'a [u8]>) -> (step: Result<
    RawEvent<'a>,
    quick_xml::Error,
>)
    ensures
        step_view(step) == step_ahead(*old(reader), 0),
        forall|k: nat|
            #[trigger] step_ahead(*final(reader), k) == step_ahead(*old(reader), (k + 1) as nat),
{
    Ok(
        match reader.read_event()? {
            quick_xml::events::Event::Start(e) => RawEvent::Start(e),
            quick_xml::events::Event::Empty(e) => RawEvent::Empty(e),
            quick_xml::events::Event::End(e) => RawEvent::End(e),
            quick_xml::events::Event::Eof => RawEvent::Eof,
            _ => RawEvent::Other,
        },
    )
}

/// The name of a tag.
///
/// Trusted: `quick_xml::events::BytesStart::name`, known to the library by
/// the name [`tag_name`].
#[verifier::external_body]
fn start_name(tag: &quick_xml::events::BytesStart<'_>) -> (name: Vec<u8>)
    ensures
        name@ == tag_name(*tag),
{
    tag.name().as_ref().to_vec()
}

/// The name of a closing tag.
///
/// Trusted: `quick_xml::events::BytesEnd::name`, known to the library by the
/// name [`closing_name`].
#[verifier::external_body]
fn end_name(tag: &quick_xml::events::BytesEnd<'_>) -> (name: Vec<u8>)
    ensures
        name@ == closing_name(*tag),
{
    tag.name().as_ref().to_vec()
}

/// The attributes of a tag, in order, keys not checked for repetition.
///
/// Trusted: `quick_xml::events::BytesStart::attributes` with
/// `Attributes::with_checks(false)`, each item as key and value or `None`
/// where the outside crate reports an error. The library knows them by the
/// name [`tag_attributes`].
#[verifier::external_body]
fn start_attributes(tag: &quick_xml::events::BytesStart<'_>) -> (attributes: Vec<
    Option<RawAttribute>,
>)
    ensures
        attributes_view(attributes@) == tag_attributes(*tag),
{
    tag.attributes().with_checks(false).map(
        |item| item.ok().map(
            |a| RawAttribute { key: a.key.as_ref().to_vec(), value: a.value.into_owned() },
        ),
    ).collect()
}

/// What `quick_xml` makes of an attribute's value: the text with its
/// escapes resolved, or none where the value is not UTF-8 or an escape is
/// not known.
pub uninterp spec fn unescaped_value(value: Seq<u8>) -> Option<Seq<char>>;

/// Resolves the escapes of an attribute's value.
///
/// Trusted: `quick_xml::events::attributes::Attribute::unescape_value` on an
/// attribute with the given value. The library knows the result only by the
/// name [`unescaped_value`].
#[verifier::external_body]
fn unescape_value(value: &[u8]) -> (r: Option<String>)
    ensures
        optional_text(r) == unescaped_value(value@),
{
    let attribute = quick_xml::events::attributes::Attribute {
        key: quick_xml::name::QName(&[]),
        value: std::borrow::Cow::Borrowed(value),
    };
    attribute.unescape_value().ok().map(|text| text.into_owned())
}

/// The plain form of one step of the reader; none at the end of the
/// document.
fn plain_node(event: &RawEvent<'_>) -> (node: Option<XmlNode>)
    ensures
        match step_view(Ok(*event)) {
            StepView::Node(view) => node matches Some(found) && found@ == view,
            _ => node is None,
        },
{
    match event {
        RawEvent::Start(tag) => Some(
            XmlNode::Start(XmlElement { name: start_name(tag), attributes: start_attributes(tag) }),
        ),
        RawEvent::Empty(tag) => Some(
            XmlNode::Empty(XmlElement { name: start_name(tag), attributes: start_attributes(tag) }),
        ),
        RawEvent::End(tag) => Some(XmlNode::End(end_name(tag))),
        RawEvent::Eof => None,
        RawEvent::Other => Some(XmlNode::Other),
    }
}

/// What reading the document `xml` gives from step `k` on, `so_far` being
/// the nodes of the steps before: the nodes up to the end of the document.
/// A failure of the reader is an error, and so is a document that has not
/// ended after `limit` steps.
pub open spec fn nodes_from(xml: Seq<char>, k: nat, limit: nat, so_far: Seq<NodeView>) -> Result<
    Seq<NodeView>,
    DtsError,
>
    decreases limit + 1 - k,
{
    if k > limit {
        Err(DtsError::Xml)
    } else {
        match document_step(xml, k) {
            StepView::Eof => Ok(so_far),
            StepView::Failed => Err(DtsError::Xml),
            StepView::Node(node) => nodes_from(xml, k + 1, limit, so_far.push(node)),
        }
    }
}

/// The nodes of the document `xml`, in order. No document has more nodes
/// than bytes, so a reading that goes on beyond that many is given up as an
/// error.
pub open spec fn document_nodes(xml: Seq<char>) -> Result<Seq<NodeView>, DtsError> {
    nodes_from(xml, 0, encode_utf8(xml).len(), Seq::<NodeView>::empty())
}

/// Reads the document `xml` to its end and gives what the reader met, in
/// order. Fails where the outside reader reports an error, and where it
/// gives more steps than the document has bytes.
pub fn read_nodes(xml: &str) -> (r: Result<Vec<XmlNode>, DtsError>)
    ensures
        match r {
            Ok(nodes) => document_nodes(xml@) == Ok::<Seq<NodeView>, DtsError>(
                nodes_view(nodes@),
            ),
            Err(e) => document_nodes(xml@) == Err::<Seq<NodeView>, DtsError>(e),
        },
{
    let mut reader = open_reader(xml);
    let ghost opened = reader;
    trim_text(&mut reader);
    assert forall|k: nat| #[trigger] step_ahead(reader, k) == document_step(xml@, k) by {
        assert(step_ahead(reader, k) == trimmed_ahead(opened, k));
    }
    let mut nodes: Vec<XmlNode> = Vec::new();
    let limit: usize = xml.as_bytes().len();
    let mut steps: usize = 0;
    assert(nodes_view(nodes@) =~= Seq::<NodeView>::empty());
    while steps <= limit
        invariant
            steps <= limit + 1,
            limit == encode_utf8(xml@).len(),
            forall|k: nat|
                #[trigger] step_ahead(reader, k) == document_step(xml@, (steps + k) as nat),
            document_nodes(xml@) == nodes_from(
                xml@,
                steps as nat,
                limit as nat,
                nodes_view(nodes@),
            ),
        decreases limit + 1 - steps,
    {
        let ghost before = reader;
        assert(step_ahead(before, 0) == document_step(xml@, steps as nat));
        let step = next_event(&mut reader);
        assert forall|k: nat| #[trigger] step_ahead(reader, k) == document_step(
            xml@,
            (steps + 1 + k) as nat,
        ) by {
            assert(step_ahead(reader, k) == step_ahead(before, (k + 1) as nat));
        }
        let event = match step {
            Ok(event) => event,
            Err(_) => {
                return Err(DtsError::Xml);
            },
        };
        match plain_node(&event) {
            Some(node) => {
                let ghost earlier = nodes_view(nodes@);
                nodes.push(node);
                assert(nodes_view(nodes@) =~= earlier.push(node@));
            },
            None => {
                return Ok(nodes);
            },
        }
        assert(document_nodes(xml@) == nodes_from(
            xml@,
            (steps + 1) as nat,
            limit as nat,
            nodes_view(nodes@),
        ));
        if steps == limit {
            return Err(DtsError::Xml);
        }
        steps += 1;
    }
    Err(DtsError::Xml)
}

// ---------------------------------------------------------------------------
// Channels
// ---------------------------------------------------------------------------

/// The element that groups channels.
pub const MODULE_TAG: &'static str = "Module";

/// The element that describes one channel.
pub const CHANNEL_TAG: &'static str = "AnalogInputChanel";

/// The attribute of a module that gives its start sample.
pub const START_SAMPLE_KEY: &'static str = "StartRecordSampleNumber";

/// Whether the bytes `name` are the text `tag` in UTF-8.
pub open spec fn is_tag(name: Seq<u8>, tag: Seq<char>) -> bool {
    name == encode_utf8(tag)
}

/// Whether two runs of bytes are the same.
pub fn bytes_equal(a: &[u8], b: &[u8]) -> (same: bool)
    ensures
        same == (a@ == b@),
{
    if a.len() != b.len() {
        return false;
    }
    let mut i: usize = 0;
    while i < a.len()
        invariant
            i <= a.len(),
            a@.len() == b@.len(),
            a@.take(i as int) == b@.take(i as int),
        decreases a.len() - i,
    {
        if a[i] != b[i] {
            return false;
        }
        i += 1;
        assert(a@.take(i as int) == a@.take(i as int - 1).push(a@[i as int - 1]));
        assert(b@.take(i as int) == b@.take(i as int - 1).push(b@[i as int - 1]));
    }
    assert(a@.take(a.len() as int) == a@);
    assert(b@.take(b.len() as int) == b@);
    true
}

/// Whether the bytes `name` are the text `tag`.
pub fn names_tag(name: &Vec<u8>, tag: &str) -> (same: bool)
    ensures
        same == is_tag(name@, tag@),
{
    bytes_equal(name.as_slice(), tag.as_bytes())
}

/// A channel of which nothing is said.
pub open spec fn default_channel() -> ChannelView {
    ChannelView {
        proportional_to_excitation: false,
        is_inverted: false,
        measured_excitation_voltage: None,
        factory_excitation_voltage: None,
        initial_eu: None,
        zero_method: ZeroMethod::NoZero,
        eu: Seq::<char>::empty(),
        display_order: 0,
        name: None,
        description: Seq::<char>::empty(),
        serial_number: Seq::<char>::empty(),
        sensitivity: None,
    }
}

/// The zero method that a text names.
pub open spec fn zero_method_of(value: Seq<char>) -> ZeroMethod {
    if value == "UsePreCalZero"@ {
        ZeroMethod::UsePreCalZero
    } else if value == "AverageOverTime"@ {
        ZeroMethod::AverageOverTime
    } else {
        ZeroMethod::NoZero
    }
}

/// The display order that a text writes; zero where it writes no number
/// that fits.
pub open spec fn display_order_of(value: Seq<char>) -> u32 {
    match parsed_number(value, u32::MAX as nat) {
        Ok(n) => n as u32,
        Err(_) => 0,
    }
}

/// The channel `ch` after the attribute `key` with the text `value`. A key
/// that the reader does not know changes nothing.
pub open spec fn with_attribute(ch: ChannelView, key: Seq<u8>, value: Seq<char>) -> ChannelView {
    if is_tag(key, "ProportionalToExcitation"@) {
        ChannelView { proportional_to_excitation: eq_ignoring_ascii_case(value, "True"@), ..ch }
    } else if is_tag(key, "IsInverted"@) {
        ChannelView { is_inverted: eq_ignoring_ascii_case(value, "True"@), ..ch }
    } else if is_tag(key, "MeasuredExcitationVoltage"@) {
        ChannelView { measured_excitation_voltage: Some(value), ..ch }
    } else if is_tag(key, "FactoryExcitationVoltage"@) {
        ChannelView { factory_excitation_voltage: Some(value), ..ch }
    } else if is_tag(key, "InitialEu"@) {
        ChannelView { initial_eu: Some(value), ..ch }
    } else if is_tag(key, "ZeroMethod"@) {
        ChannelView { zero_method: zero_method_of(value), ..ch }
    } else if is_tag(key, "Eu"@) {
        ChannelView { eu: value, ..ch }
    } else if is_tag(key, "AbsoluteDisplayOrder"@) {
        ChannelView { display_order: display_order_of(value), ..ch }
    } else if is_tag(key, "Name"@) {
        ChannelView { name: Some(value), ..ch }
    } else if is_tag(key, "Description"@) {
        ChannelView { description: value, ..ch }
    } else if is_tag(key, "SerialNumber"@) {
        ChannelView { serial_number: value, ..ch }
    } else if is_tag(key, "Sensitivity"@) {
        ChannelView { sensitivity: Some(value), ..ch }
    } else {
        ch
    }
}

/// The channel that the attributes of an element describe: each attribute
/// in turn, a later one over an earlier one of the same key. None where an
/// attribute is not well-formed or its value cannot be unescaped.
pub open spec fn channel_of(attributes: Seq<Option<AttributeView>>) -> Option<ChannelView>
    decreases attributes.len(),
{
    if attributes.len() == 0 {
        Some(default_channel())
    } else {
        match (channel_of(attributes.drop_last()), attributes.last()) {
            (Some(ch), Some(a)) => match unescaped_value(a.1) {
                Some(value) => Some(with_attribute(ch, a.0, value)),
                None => None,
            },
            _ => None,
        }
    }
}

/// The start sample that the attributes of a module give, as text; none
/// where they give none. The outer `None` where an attribute is not
/// well-formed or the start sample's value cannot be unescaped.
pub open spec fn module_start_of(attributes: Seq<Option<AttributeView>>) -> Option<
    Option<Seq<char>>,
>
    decreases attributes.len(),
{
    if attributes.len() == 0 {
        Some(None)
    } else {
        match (module_start_of(attributes.drop_last()), attributes.last()) {
            (Some(before), Some(a)) => if is_tag(a.0, START_SAMPLE_KEY@) {
                match unescaped_value(a.1) {
                    Some(value) => Some(Some(value)),
                    None => None,
                }
            } else {
                Some(before)
            },
            _ => None,
        }
    }
}

/// One channel with the start sample of its module, as plain values.
pub type EntryView = (ChannelView, Option<Seq<char>>);

/// A [`ChannelEntry`] as plain values.
pub open spec fn entry_view(entry: ChannelEntry) -> EntryView {
    (entry.0@, optional_text(entry.1))
}

/// A sequence of [`ChannelEntry`] as plain values.
pub open spec fn entries_view(entries: Seq<ChannelEntry>) -> Seq<EntryView> {
    entries.map_values(|e: ChannelEntry| entry_view(e))
}

/// The channel that the attributes of `element` describe.
fn build_channel(element: &XmlElement) -> (r: Option<AnalogInputChannel>)
    ensures
        match r {
            Some(channel) => channel_of(element@.attributes) == Some(channel@),
            None => channel_of(element@.attributes) is None,
        },
{
    let mut channel = AnalogInputChannel {
        proportional_to_excitation: false,
        is_inverted: false,
        measured_excitation_voltage: None,
        factory_excitation_voltage: None,
        initial_eu: None,
        zero_method: ZeroMethod::NoZero,
        eu: String::new(),
        display_order: 0,
        name: None,
        description: String::new(),
        serial_number: String::new(),
        sensitivity: None,
    };
    let ghost attributes = attributes_view(element.attributes@);
    let mut i: usize = 0;
    while i < element.attributes.len()
        invariant
            i <= element.attributes.len(),
            attributes == attributes_view(element.attributes@),
            channel_of(attributes.take(i as int)) == Some(channel@),
        decreases element.attributes.len() - i,
    {
        proof {
            assert(attributes.take(i as int + 1).drop_last() == attributes.take(i as int));
            assert(attributes.take(i as int + 1).last() == attributes[i as int]);
            assert(attributes[i as int] == attribute_view(element.attributes@[i as int]));
        }
        let attribute = match &element.attributes[i] {
            Some(attribute) => attribute,
            None => {
                proof {
                    lemma_channel_failure_stays(attributes, i as int + 1);
                }
                return None;
            },
        };
        let value = match unescape_value(attribute.value.as_slice()) {
            Some(value) => value,
            None => {
                proof {
                    lemma_channel_failure_stays(attributes, i as int + 1);
                }
                return None;
            },
        };
        let key = &attribute.key;
        if names_tag(key, "ProportionalToExcitation") {
            channel.proportional_to_excitation = eq_ignore_ascii_case(value.as_str(), "True");
        } else if names_tag(key, "IsInverted") {
            channel.is_inverted = eq_ignore_ascii_case(value.as_str(), "True");
        } else if names_tag(key, "MeasuredExcitationVoltage") {
            channel.measured_excitation_voltage = Some(value);
        } else if names_tag(key, "FactoryExcitationVoltage") {
            channel.factory_excitation_voltage = Some(value);
        } else if names_tag(key, "InitialEu") {
            channel.initial_eu = Some(value);
        } else if names_tag(key, "ZeroMethod") {
            channel.zero_method = if str_equal(value.as_str(), "UsePreCalZero") {
                ZeroMethod::UsePreCalZero
            } else if str_equal(value.as_str(), "AverageOverTime") {
                ZeroMethod::AverageOverTime
            } else {
                ZeroMethod::NoZero
            };
        } else if names_tag(key, "Eu") {
            channel.eu = value;
        } else if names_tag(key, "AbsoluteDisplayOrder") {
            channel.display_order = match parse_number(value.as_str(), 0xFFFF_FFFF) {
                Ok(n) => n as u32,
                Err(_) => 0,
            };
        } else if names_tag(key, "Name") {
            channel.name = Some(value);
        } else if names_tag(key, "Description") {
            channel.description = value;
        } else if names_tag(key, "SerialNumber") {
            channel.serial_number = value;
        } else if names_tag(key, "Sensitivity") {
            channel.sensitivity = Some(value);
        }
        i += 1;
    }
    assert(attributes.take(element.attributes.len() as int) == attributes);
    Some(channel)
}

/// A failure among the first attributes is a failure of all.
pub proof fn lemma_channel_failure_stays(attributes: Seq<Option<AttributeView>>, upto: int)
    requires
        0 <= upto <= attributes.len(),
        channel_of(attributes.take(upto)) is None,
    ensures
        channel_of(attributes) is None,
    decreases attributes.len() - upto,
{
    if upto < attributes.len() {
        assert(attributes.take(upto + 1).drop_last() == attributes.take(upto));
        lemma_channel_failure_stays(attributes, upto + 1);
    } else {
        assert(attributes.take(upto) == attributes);
    }
}

/// Adds to `channels` the channel that `element` describes, with the start
/// sample of its module. On an error `channels` stays as it is.
pub fn collect_channel(
    element: &XmlElement,
    start_sample: Option<String>,
    channels: &mut Vec<ChannelEntry>,
) -> (r: Result<(), DtsError>)
    ensures
        match channel_of(element@.attributes) {
            Some(channel) => r is Ok && entries_view(final(channels)@) == entries_view(
                old(channels)@,
            ).push((channel, optional_text(start_sample))),
            None => r == Err::<(), DtsError>(DtsError::Xml) && final(channels)@ == old(channels)@,
        },
{
    match build_channel(element) {
        Some(channel) => {
            channels.push((channel, start_sample));
            assert(entries_view(channels@) =~= entries_view(old(channels)@).push(
                (channel@, optional_text(start_sample)),
            ));
            Ok(())
        },
        None => Err(DtsError::Xml),
    }
}

/// The start sample that the attributes of `element` give.
fn module_start(element: &XmlElement) -> (r: Option<Option<String>>)
    ensures
        match r {
            Some(start) => module_start_of(element@.attributes) == Some(optional_text(start)),
            None => module_start_of(element@.attributes) is None,
        },
{
    let mut start: Option<String> = None;
    let ghost attributes = attributes_view(element.attributes@);
    let mut i: usize = 0;
    while i < element.attributes.len()
        invariant
            i <= element.attributes.len(),
            attributes == attributes_view(element.attributes@),
            module_start_of(attributes.take(i as int)) == Some(optional_text(start)),
        decreases element.attributes.len() - i,
    {
        proof {
            assert(attributes.take(i as int + 1).drop_last() == attributes.take(i as int));
            assert(attributes.take(i as int + 1).last() == attributes[i as int]);
            assert(attributes[i as int] == attribute_view(element.attributes@[i as int]));
        }
        let attribute = match &element.attributes[i] {
            Some(attribute) => attribute,
            None => {
                proof {
                    lemma_module_failure_stays(attributes, i as int + 1);
                }
                return None;
            },
        };
        if names_tag(&attribute.key, START_SAMPLE_KEY) {
            match unescape_value(attribute.value.as_slice()) {
                Some(value) => {
                    start = Some(value);
                },
                None => {
                    proof {
                        lemma_module_failure_stays(attributes, i as int + 1);
                    }
                    return None;
                },
            }
        }
        i += 1;
    }
    assert(attributes.take(element.attributes.len() as int) == attributes);
    Some(start)
}

/// A failure among the first attributes of a module is a failure of all.
pub proof fn lemma_module_failure_stays(attributes: Seq<Option<AttributeView>>, upto: int)
    requires
        0 <= upto <= attributes.len(),
        module_start_of(attributes.take(upto)) is None,
    ensures
        module_start_of(attributes) is None,
    decreases attributes.len() - upto,
{
    if upto < attributes.len() {
        assert(attributes.take(upto + 1).drop_last() == attributes.take(upto));
        lemma_module_failure_stays(attributes, upto + 1);
    } else {
        assert(attributes.take(upto) == attributes);
    }
}

/// Where the reader stands in a document: the start samples of the modules
/// that are open, the innermost last, and the channels found so far.
pub ghost struct Flattening {
    pub modules: Seq<Option<Seq<char>>>,
    pub channels: Seq<EntryView>,
}

/// The start sample of the innermost open module; none outside all modules.
pub open spec fn current_start(modules: Seq<Option<Seq<char>>>) -> Option<Seq<char>> {
    if modules.len() == 0 {
        None
    } else {
        modules.last()
    }
}

/// The state after the channel element with the given attributes.
pub open spec fn after_channel(state: Flattening, attributes: Seq<Option<AttributeView>>) -> Option<
    Flattening,
> {
    match channel_of(attributes) {
        Some(channel) => Some(
            Flattening {
                channels: state.channels.push((channel, current_start(state.modules))),
                ..state
            },
        ),
        None => None,
    }
}

/// The state after one node: a module opens or closes, a channel is added,
/// anything else is passed over. None where the attributes of a module or
/// of a channel cannot be read.
pub open spec fn after_node(state: Flattening, node: NodeView) -> Option<Flattening> {
    match node {
        NodeView::Start(element) => if is_tag(element.name, MODULE_TAG@) {
            match module_start_of(element.attributes) {
                Some(start) => Some(Flattening { modules: state.modules.push(start), ..state }),
                None => None,
            }
        } else if is_tag(element.name, CHANNEL_TAG@) {
            after_channel(state, element.attributes)
        } else {
            Some(state)
        },
        NodeView::Empty(element) => if is_tag(element.name, CHANNEL_TAG@) {
            after_channel(state, element.attributes)
        } else {
            Some(state)
        },
        NodeView::End(name) => if is_tag(name, MODULE_TAG@) && state.modules.len() > 0 {
            Some(Flattening { modules: state.modules.drop_last(), ..state })
        } else {
            Some(state)
        },
        NodeView::Other => Some(state),
    }
}

/// The state after the nodes of a document, in order.
pub open spec fn after_nodes(nodes: Seq<NodeView>) -> Option<Flattening>
    decreases nodes.len(),
{
    if nodes.len() == 0 {
        Some(Flattening { modules: Seq::empty(), channels: Seq::empty() })
    } else {
        match after_nodes(nodes.drop_last()) {
            Some(state) => after_node(state, nodes.last()),
            None => None,
        }
    }
}

/// The channels of a document in the order in which they stand, each with
/// the start sample of the module that holds it; none where the attributes
/// of a module or a channel cannot be read.
pub open spec fn flattened(nodes: Seq<NodeView>) -> Option<Seq<EntryView>> {
    match after_nodes(nodes) {
        Some(state) => Some(state.channels),
        None => None,
    }
}

/// A failure among the first nodes is a failure of the document.
pub proof fn lemma_node_failure_stays(nodes: Seq<NodeView>, upto: int)
    requires
        0 <= upto <= nodes.len(),
        after_nodes(nodes.take(upto)) is None,
    ensures
        after_nodes(nodes) is None,
    decreases nodes.len() - upto,
{
    if upto < nodes.len() {
        assert(nodes.take(upto + 1).drop_last() == nodes.take(upto));
        lemma_node_failure_stays(nodes, upto + 1);
    } else {
        assert(nodes.take(upto) == nodes);
    }
}

/// The texts that optional strings hold.
pub open spec fn starts_view(modules: Seq<Option<String>>) -> Seq<Option<Seq<char>>> {
    modules.map_values(|m: Option<String>| optional_text(m))
}

/// The channels among `nodes`, flattened out of their modules.
pub fn channels_of_nodes(nodes: &Vec<XmlNode>) -> (r: Result<Vec<ChannelEntry>, DtsError>)
    ensures
        match r {
            Ok(channels) => flattened(nodes_view(nodes@)) == Some(entries_view(channels@)),
            Err(e) => e == DtsError::Xml && flattened(nodes_view(nodes@)) is None,
        },
{
    let mut module_stack: Vec<Option<String>> = Vec::new();
    let mut channels: Vec<ChannelEntry> = Vec::new();
    let mut i: usize = 0;
    let ghost views = nodes_view(nodes@);
    assert(starts_view(module_stack@) =~= Seq::empty());
    assert(entries_view(channels@) =~= Seq::empty());
    while i < nodes.len()
        invariant
            i <= nodes.len(),
            views == nodes_view(nodes@),
            after_nodes(views.take(i as int)) == Some(
                Flattening {
                    modules: starts_view(module_stack@),
                    channels: entries_view(channels@),
                },
            ),
        decreases nodes.len() - i,
    {
        proof {
            assert(views.take(i as int + 1).drop_last() == views.take(i as int));
            assert(views.take(i as int + 1).last() == nodes@[i as int]@);
        }
        let ghost before = module_stack@;
        match &nodes[i] {
            XmlNode::Start(element) => {
                if names_tag(&element.name, MODULE_TAG) {
                    match module_start(element) {
                        Some(start) => {
                            module_stack.push(start);
                            assert(starts_view(module_stack@) =~= starts_view(before).push(
                                optional_text(start),
                            ));
                        },
                        None => {
                            proof {
                                lemma_node_failure_stays(views, i as int + 1);
                            }
                            return Err(DtsError::Xml);
                        },
                    }
                } else if names_tag(&element.name, CHANNEL_TAG) {
                    let start = innermost(&module_stack);
                    match collect_channel(element, start, &mut channels) {
                        Ok(()) => {},
                        Err(e) => {
                            proof {
                                lemma_node_failure_stays(views, i as int + 1);
                            }
                            return Err(e);
                        },
                    }
                }
            },
            XmlNode::Empty(element) => {
                if names_tag(&element.name, CHANNEL_TAG) {
                    let start = innermost(&module_stack);
                    match collect_channel(element, start, &mut channels) {
                        Ok(()) => {},
                        Err(e) => {
                            proof {
                                lemma_node_failure_stays(views, i as int + 1);
                            }
                            return Err(e);
                        },
                    }
                }
            },
            XmlNode::End(name) => {
                if names_tag(name, MODULE_TAG) && module_stack.len() > 0 {
                    module_stack.pop();
                    assert(starts_view(module_stack@) =~= starts_view(before).drop_last());
                }
            },
            XmlNode::Other => {},
        }
        i += 1;
    }
    assert(views.take(nodes.len() as int) == views);
    Ok(channels)
}

/// A copy of the start sample of the innermost open module.
fn innermost(module_stack: &Vec<Option<String>>) -> (start: Option<String>)
    ensures
        optional_text(start) == current_start(starts_view(module_stack@)),
{
    if module_stack.len() == 0 {
        None
    } else {
        crate::dts::clone_optional(&module_stack[module_stack.len() - 1])
    }
}

/// The channels that the bytes of a metadata file describe: the bytes
/// decoded, the text cut off at a second prolog, the document read, and the
/// channels flattened out of their modules in the order of the document.
/// An undecodable file fails as [`metadata_text`] says, a document that
/// cannot be read with [`DtsError::Xml`].
pub open spec fn parsed_metadata(bytes: Seq<u8>) -> Result<Seq<EntryView>, DtsError> {
    match metadata_text(bytes) {
        Err(e) => Err(e),
        Ok(text) => match document_nodes(sanitized(text)) {
            Err(e) => Err(e),
            Ok(nodes) => match flattened(nodes) {
                Some(entries) => Ok(entries),
                None => Err(DtsError::Xml),
            },
        },
    }
}

/// Reads the channels out of the bytes of a metadata file; see
/// [`parsed_metadata`].
pub fn parse_dts_metadata(bytes: &[u8]) -> (r: Result<Vec<ChannelEntry>, DtsError>)
    ensures
        match r {
            Ok(channels) => parsed_metadata(bytes@) == Ok::<Seq<EntryView>, DtsError>(
                entries_view(channels@),
            ),
            Err(e) => parsed_metadata(bytes@) == Err::<Seq<EntryView>, DtsError>(e),
        },
{
    let mut xml = match read_dts_xml(bytes) {
        Ok(xml) => xml,
        Err(e) => {
            return Err(e);
        },
    };
    sanitize_duplicate_xml_headers(&mut xml);
    let nodes = match read_nodes(xml.as_str()) {
        Ok(nodes) => nodes,
        Err(e) => {
            return Err(e);
        },
    };
    channels_of_nodes(&nodes)
}

} // verus!
