//! The boundary to the tokenizer and the encoder.
//!
//! Tokenizing and encoding are done by `quick_xml`. The functions marked
//! `external_body` here each make one call into it; what their contracts
//! say is taken on trust from its source. Everything else is verified.

use vstd::prelude::*;
use vstd::utf8::{decode_utf8, encode_utf8, valid_utf8};
use quick_xml::events::attributes::{AttrError, Attribute, Attributes};
use quick_xml::events::{BytesEnd, BytesStart, BytesText, Event};
use quick_xml::name::QName;
use quick_xml::{Reader, Writer};
use crate::element::{
    attributes_markup, attrs_view, AttributeView, ElementView, NormalisedAttribute,
    NormalisedElement,
};
use crate::error::Feature;
use crate::iteritem::{Token, TokenView};

verus! {

#[verifier::external_type_specification]
#[verifier::external_body]
#[verifier::reject_recursive_types(R)]
pub struct ExReader<R>(Reader<R>);

#[verifier::external_type_specification]
#[verifier::external_body]
pub struct ExEvent<'a>(Event<'a>);

#[verifier::external_type_specification]
#[verifier::external_body]
pub struct ExAttributes<'a>(Attributes<'a>);

#[verifier::external_type_specification]
#[verifier::external_body]
pub struct ExAttribute<'a>(Attribute<'a>);

#[verifier::external_type_specification]
#[verifier::external_body]
pub struct ExAttrError(AttrError);

#[verifier::external_type_specification]
#[verifier::external_body]
pub struct ExError(quick_xml::Error);

#[verifier::external_type_specification]
#[verifier::external_body]
pub struct ExFromUtf8Error(std::string::FromUtf8Error);

/// `String::from_utf8`: the bytes as a string where they are valid UTF-8, an
/// error where they are not.
pub assume_specification[ String::from_utf8 ](vec: Vec<u8>) -> (r: Result<
    String,
    std::string::FromUtf8Error,
>)
    ensures
        r is Ok <==> valid_utf8(vec@),
        r matches Ok(s) ==> s@ == decode_utf8(vec@),
;

/// The shapes of event that the tokenizer tells apart.
#[derive(Debug, Clone, Copy, PartialEq, Eq, Structural)]
pub enum EventKind {
    Start,
    End,
    Empty,
    Text,
    CData,
    Comment,
    Decl,
    PI,
    DocType,
    Eof,
}

/// `quick_xml::Reader::from_reader` on a byte slice, followed by
/// `check_end_names(false)`: the tokenizer then reports every end tag as it
/// stands and leaves it to the caller to hold it against the open element.
/// Nothing is claimed of the reader.
#[verifier::external_body]
pub(crate) fn open_reader<'a>(input: &'a [u8]) -> Reader<&'a [u8]> {
    let mut reader = Reader::from_reader(input);
    reader.check_end_names(false);
    reader
}

/// `quick_xml::Reader::read_event`: the next event of the input, or the
/// tokenizer's error. Nothing is claimed of either.
#[verifier::external_body]
pub(crate) fn read_event<'a>(reader: &mut Reader<&'a [u8]>) -> Result<Event<'a>, quick_xml::Error> {
    reader.read_event()
}

/// Tells the variants of `quick_xml::events::Event` apart. Nothing is
/// claimed of the answer.
#[verifier::external_body]
pub(crate) fn event_kind(event: &Event<'_>) -> EventKind {
    match event {
        Event::Start(_) => EventKind::Start,
        Event::End(_) => EventKind::End,
        Event::Empty(_) => EventKind::Empty,
        Event::Text(_) => EventKind::Text,
        Event::CData(_) => EventKind::CData,
        Event::Comment(_) => EventKind::Comment,
        Event::Decl(_) => EventKind::Decl,
        Event::PI(_) => EventKind::PI,
        Event::DocType(_) => EventKind::DocType,
        Event::Eof => EventKind::Eof,
    }
}

/// The name of a start or end tag, by `BytesStart::name` or `BytesEnd::name`
/// and `Decoder::decode`; the empty string for an event without a name.
/// Nothing is claimed of the result.
#[verifier::external_body]
pub(crate) fn event_name(event: &Event<'_>, reader: &Reader<&[u8]>) -> Result<
    String,
    quick_xml::Error,
> {
    let raw: &[u8] = match event {
        Event::Start(e) | Event::Empty(e) => e.name().into_inner(),
        Event::End(e) => e.name().into_inner(),
        _ => &[],
    };
    Ok(reader.decoder().decode(raw)?.into_owned())
}

/// The attributes of a start tag, still to be read: `BytesStart::attributes`
/// with the check for repeated names switched off by `with_checks(false)`;
/// for another event, the attributes of the empty text. Nothing is claimed
/// of the result.
#[verifier::external_body]
pub(crate) fn event_attributes<'e>(event: &'e Event<'_>) -> Attributes<'e> {
    let mut attributes = match event {
        Event::Start(start) => start.attributes(),
        _ => Attributes::new("", 0),
    };
    attributes.with_checks(false);
    attributes
}

/// The next attribute, by `Attributes::next` and `Decoder::decode` on its
/// key and on its raw value; `None` once there is no more. Nothing is
/// claimed of the result.
#[verifier::external_body]
pub(crate) fn next_attribute(attributes: &mut Attributes<'_>, reader: &Reader<&[u8]>) -> Option<
    Result<NormalisedAttribute, quick_xml::Error>,
> {
    let attribute = match attributes.next()? {
        Ok(attribute) => attribute,
        Err(error) => return Some(Err(error.into())),
    };
    let name = match reader.decoder().decode(attribute.key.as_ref()) {
        Ok(name) => name.into_owned(),
        Err(error) => return Some(Err(error)),
    };
    Some(reader.decoder().decode(&attribute.value).map(|v| NormalisedAttribute { name, value: v.into_owned() }))
}

/// The content of a text or document type event, by `BytesText::unescape`;
/// the empty string for another event. Nothing is claimed of the result.
#[verifier::external_body]
pub(crate) fn event_text(event: &Event<'_>) -> Result<String, quick_xml::Error> {
    match event {
        Event::Text(text) | Event::DocType(text) => Ok(text.unescape()?.into_owned()),
        _ => Ok(String::new()),
    }
}

/// What `Debug` makes of a text: the text in double quotes, with the
/// characters that cannot stand there as they are written as escapes.
pub uninterp spec fn quoted(text: Seq<char>) -> Seq<char>;

/// `<str as Debug>::fmt`, through `format!`: the text as `Debug` shows it.
/// What that is for a given text is not spelled out here; the result is
/// named, as a function of the text.
#[verifier::external_body]
pub(crate) fn debug_text(text: &str) -> (r: String)
    ensures
        r@ == quoted(text@),
{
    format!("{:?}", text)
}

/// The message of a `quick_xml::Error`, as its `Display` gives it. Nothing
/// is claimed of the text.
#[verifier::external_body]
pub(crate) fn error_message(error: &quick_xml::Error) -> String {
    format!("{}", error)
}

/// Reads the next parse event off `reader`: asks the tokenizer for the
/// event, for its shape and for the parts that an event of that shape has,
/// and hands them to `token_of`. An error of the tokenizer comes back as it
/// is. What the tokenizer reports is its own affair: nothing is stated of
/// the result here.
pub(crate) fn read_token(reader: &mut Reader<&[u8]>) -> (r: Result<Token, quick_xml::Error>) {
    let event = match read_event(reader) {
        Ok(event) => event,
        Err(error) => {
            return Err(error);
        },
    };
    let kind = event_kind(&event);
    let mut name = String::new();
    let mut attrs: Vec<NormalisedAttribute> = Vec::new();
    let mut text = String::new();
    match kind {
        EventKind::Start => {
            name = match event_name(&event, reader) {
                Ok(name) => name,
                Err(error) => {
                    return Err(error);
                },
            };
            let mut attributes = event_attributes(&event);
            let mut more = true;
            while more && attrs.len() < usize::MAX
                decreases usize::MAX - attrs.len() + if more { 1int } else { 0int },
            {
                match next_attribute(&mut attributes, reader) {
                    Some(Ok(attribute)) => attrs.push(attribute),
                    Some(Err(error)) => {
                        return Err(error);
                    },
                    None => {
                        more = false;
                    },
                }
            }
        },
        EventKind::End => {
            name = match event_name(&event, reader) {
                Ok(name) => name,
                Err(error) => {
                    return Err(error);
                },
            };
        },
        EventKind::Text | EventKind::DocType => {
            text = match event_text(&event) {
                Ok(text) => text,
                Err(error) => {
                    return Err(error);
                },
            };
        },
        _ => {},
    }
    Ok(token_of(kind, name, attrs, text))
}

/// The parse event that stands for what the tokenizer has reported: an
/// event of shape `kind` with the name, the attributes and the text that
/// go with it. A start tag keeps the name and the attributes, an end tag
/// the name, text and document type the text; the end of the input is
/// itself; each other shape is the unsupported construct that it is.
pub open spec fn token_view_of(
    kind: EventKind,
    name: Seq<char>,
    attrs: Seq<AttributeView>,
    text: Seq<char>,
) -> TokenView {
    match kind {
        EventKind::Start => TokenView::Start(ElementView { name, attrs }),
        EventKind::End => TokenView::End(name),
        EventKind::Text => TokenView::Text(text),
        EventKind::DocType => TokenView::DocType(text),
        EventKind::Eof => TokenView::Eof,
        EventKind::Empty => TokenView::Unsupported(Feature::SelfClosingTag),
        EventKind::CData => TokenView::Unsupported(Feature::CData),
        EventKind::Comment => TokenView::Unsupported(Feature::Comment),
        EventKind::Decl => TokenView::Unsupported(Feature::Declaration),
        EventKind::PI => TokenView::Unsupported(Feature::ProcessingInstruction),
    }
}

/// Makes a parse event of the shape and the parts that the tokenizer has
/// reported.
pub fn token_of(kind: EventKind, name: String, attrs: Vec<NormalisedAttribute>, text: String) -> (r:
    Token)
    ensures
        r@ == token_view_of(kind, name@, attrs_view(attrs@), text@),
{
    match kind {
        EventKind::Start => Token::Start(NormalisedElement { name, attrs }),
        EventKind::End => Token::End(name),
        EventKind::Text => Token::Text(text),
        EventKind::DocType => Token::DocType(text),
        EventKind::Eof => Token::Eof,
        EventKind::Empty => Token::Unsupported(Feature::SelfClosingTag),
        EventKind::CData => Token::Unsupported(Feature::CData),
        EventKind::Comment => Token::Unsupported(Feature::Comment),
        EventKind::Decl => Token::Unsupported(Feature::Declaration),
        EventKind::PI => Token::Unsupported(Feature::ProcessingInstruction),
    }
}

/// The characters that stand for one character of text in markup: an
/// entity for each of `<`, `>`, `&`, `'` and `"`, the character itself
/// otherwise.
pub open spec fn escaped_char(c: char) -> Seq<char> {
    if c == '<' {
        seq!['&', 'l', 't', ';']
    } else if c == '>' {
        seq!['&', 'g', 't', ';']
    } else if c == '&' {
        seq!['&', 'a', 'm', 'p', ';']
    } else if c == '\'' {
        seq!['&', 'a', 'p', 'o', 's', ';']
    } else if c == '"' {
        seq!['&', 'q', 'u', 'o', 't', ';']
    } else {
        seq![c]
    }
}

/// Text as it stands in markup: each character escaped, in order.
pub open spec fn escaped(text: Seq<char>) -> Seq<char>
    decreases text.len(),
{
    if text.len() == 0 {
        Seq::empty()
    } else {
        escaped(text.drop_last()) + escaped_char(text.last())
    }
}

/// A start tag.
pub open spec fn start_markup(name: Seq<char>, attrs: Seq<AttributeView>) -> Seq<char> {
    seq!['<'] + name + attributes_markup(attrs) + seq!['>']
}

/// An end tag.
pub open spec fn end_markup(name: Seq<char>) -> Seq<char> {
    seq!['<', '/'] + name + seq!['>']
}

/// A document type declaration.
pub open spec fn doctype_markup(text: Seq<char>) -> Seq<char> {
    seq!['<', '!', 'D', 'O', 'C', 'T', 'Y', 'P', 'E', ' '] + escaped(text) + seq!['>']
}

/// The markup that an event is written as.
pub open spec fn markup(token: TokenView) -> Seq<char> {
    match token {
        TokenView::Start(e) => start_markup(e.name, e.attrs),
        TokenView::End(name) => end_markup(name),
        TokenView::Text(text) => escaped(text),
        TokenView::DocType(text) => doctype_markup(text),
        TokenView::Eof => Seq::empty(),
        TokenView::Unsupported(_) => Seq::empty(),
    }
}

/// `quick_xml::Writer::write_event` on `Event::Start`, with the tag built by
/// `BytesStart::new` and `with_attributes` from raw names and values. It
/// appends `<`, the name, each attribute as ` name="value"` and `>` to
/// `out`, as UTF-8. It succeeds: the writer hands on nothing but the errors
/// of its sink, and the sink is a byte vector, which takes every write.
#[verifier::external_body]
pub(crate) fn write_start(out: &mut Vec<u8>, name: &str, attrs: &Vec<NormalisedAttribute>) -> (r:
    Result<(), quick_xml::Error>)
    ensures
        r is Ok,
        final(out)@ == old(out)@ + encode_utf8(start_markup(name@, attrs_view(attrs@))),
{
    let start = BytesStart::new(name).with_attributes(
        attrs.iter().map(
            |a| Attribute { key: QName(a.name.as_bytes()), value: a.value.as_bytes().into() },
        ),
    );
    Writer::new(out).write_event(Event::Start(start))
}

/// `quick_xml::Writer::write_event` on `Event::End`, with the tag built by
/// `BytesEnd::new`. It appends `</`, the name and `>` to `out`, as UTF-8.
/// It succeeds: the writer hands on nothing but the errors of its sink, and
/// the sink is a byte vector, which takes every write.
#[verifier::external_body]
pub(crate) fn write_end(out: &mut Vec<u8>, name: &str) -> (r: Result<(), quick_xml::Error>)
    ensures
        r is Ok,
        final(out)@ == old(out)@ + encode_utf8(end_markup(name@)),
{
    Writer::new(out).write_event(Event::End(BytesEnd::new(name)))
}

/// `quick_xml::Writer::write_event` on `Event::Text`, with the content
/// built by `BytesText::new`, which escapes it. It appends the escaped text
/// to `out`, as UTF-8. It succeeds: the writer hands on nothing but the
/// errors of its sink, and the sink is a byte vector, which takes every
/// write.
#[verifier::external_body]
pub(crate) fn write_text(out: &mut Vec<u8>, text: &str) -> (r: Result<(), quick_xml::Error>)
    ensures
        r is Ok,
        final(out)@ == old(out)@ + encode_utf8(escaped(text@)),
{
    Writer::new(out).write_event(Event::Text(BytesText::new(text)))
}

/// `quick_xml::Writer::write_event` on `Event::DocType`, with the content
/// built by `BytesText::new`, which escapes it. It appends `<!DOCTYPE `, the
/// escaped text and `>` to `out`, as UTF-8. It succeeds: the writer hands on
/// nothing but the errors of its sink, and the sink is a byte vector, which
/// takes every write.
#[verifier::external_body]
pub(crate) fn write_doctype(out: &mut Vec<u8>, text: &str) -> (r: Result<(), quick_xml::Error>)
    ensures
        r is Ok,
        final(out)@ == old(out)@ + encode_utf8(doctype_markup(text@)),
{
    Writer::new(out).write_event(Event::DocType(BytesText::new(text)))
}

/// Encoding text piece by piece gives the encoding of the whole.
pub proof fn lemma_encode_add(a: Seq<char>, b: Seq<char>)
    ensures
        encode_utf8(a + b) == encode_utf8(a) + encode_utf8(b),
    decreases a.len(),
{
    if a.len() == 0 {
        assert(a + b =~= b);
        assert(encode_utf8(a) + encode_utf8(b) =~= encode_utf8(b));
    } else {
        assert((a + b).drop_first() =~= a.drop_first() + b);
        lemma_encode_add(a.drop_first(), b);
        assert(encode_utf8(a + b) =~= encode_utf8(a) + encode_utf8(b));
    }
}

/// Appends an event to `out` as markup. A start tag, an end tag, text and
/// a document type go to the encoder. The end of the input and unsupported
/// constructs write nothing.
pub(crate) fn write_token(out: &mut Vec<u8>, token: &Token) -> (r: Result<(), quick_xml::Error>)
    ensures
        r is Ok,
        final(out)@ == old(out)@ + encode_utf8(markup(token@)),
        token@ is Eof || token@ is Unsupported ==> final(out)@ == old(out)@,
{
    match token {
        Token::Start(element) => write_start(out, element.name.as_str(), &element.attrs),
        Token::End(name) => write_end(out, name.as_str()),
        Token::Text(text) => write_text(out, text.as_str()),
        Token::DocType(text) => write_doctype(out, text.as_str()),
        Token::Eof => {
            assert(encode_utf8(Seq::<char>::empty()) =~= Seq::<u8>::empty());
            assert(out@ + Seq::<u8>::empty() =~= out@);
            Ok(())
        },
        Token::Unsupported(_) => {
            assert(encode_utf8(Seq::<char>::empty()) =~= Seq::<u8>::empty());
            assert(out@ + Seq::<u8>::empty() =~= out@);
            Ok(())
        },
    }
}

} // verus!
