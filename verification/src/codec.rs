//! The trusted boundary to the external XML codec (quick-xml): the
//! byte-level tokenizer that turns text into events, and the pretty-printing
//! writer that turns events back into text. Entity decoding, escaping and
//! well-formedness scanning live on the other side of this boundary; the
//! wrappers here only move values across it.

use vstd::prelude::*;
use crate::error::Error;
use crate::events::{EventV, XmlEvent, events_view};
use quick_xml::Reader;
use quick_xml::Writer;
use quick_xml::events::{BytesCData, BytesDecl, BytesEnd, BytesStart, BytesText, Event};

verus! {

#[verifier::external_type_specification]
#[verifier::external_body]
#[verifier::reject_recursive_types(R)]
pub struct ExReader<R>(Reader<R>);

#[verifier::external_type_specification]
#[verifier::external_body]
pub struct ExEvent<'a>(Event<'a>);

#[verifier::external_type_specification]
#[verifier::external_body]
pub struct ExBytesStart<'a>(BytesStart<'a>);

#[verifier::external_type_specification]
#[verifier::external_body]
pub struct ExBytesEnd<'a>(BytesEnd<'a>);

#[verifier::external_type_specification]
#[verifier::external_body]
pub struct ExBytesText<'a>(BytesText<'a>);

#[verifier::external_type_specification]
#[verifier::external_body]
pub struct ExBytesCData<'a>(BytesCData<'a>);

#[verifier::external_type_specification]
#[verifier::external_body]
pub struct ExBytesDecl<'a>(BytesDecl<'a>);

#[verifier::external_type_specification]
#[verifier::external_body]
#[verifier::reject_recursive_types(W)]
pub struct ExWriter<W>(Writer<W>);

/// What the tokenizer makes of a string: the event stream of the text with
/// surrounding whitespace of text events trimmed, or the first tokenizer
/// error. Over an in-memory string this is a function of the text alone.
pub uninterp spec fn tokens_of(s: Seq<char>) -> Result<Seq<EventV>, Error>;

/// Relies on quick_xml::Reader::from_str, trim_text and read_event: the
/// whole event stream of `s`, ending with the end-of-input event, converted
/// to plain values by the helpers below; the result depends on the text
/// alone, which `tokens_of` names. A doctype without a name is excluded: the
/// tokenizer's doctype scan does not return on it in debug builds.
#[verifier::external_body]
pub(crate) fn tokenize(s: &str) -> (r: Result<Vec<XmlEvent>, Error>)
    requires
        !crate::parser::has_empty_doctype(s@),
    ensures
        (match tokens_of(s@) {
            Ok(evs) => r is Ok && events_view(r->Ok_0@) == evs,
            Err(e) => r is Err && r->Err_0 == e,
        }),
{
    let mut reader = Reader::from_str(s);
    reader.trim_text(true);
    let mut out: Vec<XmlEvent> = Vec::new();
    loop {
        match read_owned_event(&mut reader).and_then(convert_event) {
            Ok(XmlEvent::Eof) => {
                out.push(XmlEvent::Eof);
                return Ok(out);
            },
            Ok(ev) => out.push(ev),
            Err(e) => return Err(e),
        }
    }
}

/// Tells the codec's event variants apart, one arm each, converting each
/// payload to plain values through the helpers below.
#[verifier::external_body]
pub(crate) fn convert_event(ev: Event<'static>) -> Result<XmlEvent, Error> {
    match ev {
        Event::Decl(d) => convert_decl(d),
        Event::Start(e) => convert_start(e, false),
        Event::Empty(e) => convert_start(e, true),
        Event::End(e) => Ok(XmlEvent::End(end_name(&e))),
        Event::Text(t) => Ok(XmlEvent::Text(text_unescaped(&t)?)),
        Event::Comment(t) => Ok(XmlEvent::Comment(text_unescaped(&t)?)),
        Event::CData(c) => Ok(XmlEvent::CData(cdata_content(c))),
        Event::PI(t) => Ok(XmlEvent::PI(text_unescaped(&t)?)),
        Event::DocType(t) => Ok(XmlEvent::DocType(text_unescaped(&t)?)),
        Event::Eof => Ok(XmlEvent::Eof),
    }
}

/// Converts a declaration payload through the three field helpers.
#[verifier::external_body]
pub(crate) fn convert_decl(d: BytesDecl<'static>) -> Result<XmlEvent, Error> {
    let version = decl_version(&d)?;
    let encoding = decl_encoding(&d)?;
    let standalone = decl_standalone(&d)?;
    Ok(XmlEvent::Decl { version, encoding, standalone })
}

/// Converts a start-tag payload to its name and attribute list.
#[verifier::external_body]
pub(crate) fn convert_start(e: BytesStart<'static>, self_closing: bool) -> Result<XmlEvent, Error> {
    let name = start_name(&e);
    let attrs = start_attributes(&e)?;
    if self_closing {
        Ok(XmlEvent::Empty { name, attrs })
    } else {
        Ok(XmlEvent::Start { name, attrs })
    }
}

/// Relies on quick_xml::Reader::read_event (and Event::into_owned): the next
/// token of the input, owned; a tokenizer error becomes `MalformedXML`, an
/// I/O error `Io`.
#[verifier::external_body]
pub(crate) fn read_owned_event<'a>(reader: &mut Reader<&'a [u8]>) -> Result<Event<'static>, Error> {
    match reader.read_event() {
        Ok(ev) => Ok(ev.into_owned()),
        Err(quick_xml::Error::Io(e)) => Err(Error::Io(e.to_string())),
        Err(_) => Err(Error::MalformedXML),
    }
}

/// Relies on quick_xml::events::BytesStart::name: the raw tag name bytes,
/// decoded here as UTF-8.
#[verifier::external_body]
pub(crate) fn start_name(e: &BytesStart<'static>) -> String {
    String::from_utf8_lossy(e.name().as_ref()).into_owned()
}

/// Relies on quick_xml::events::BytesStart::attributes and
/// Attribute::unescape_value: the attribute list in source order, names
/// decoded and values unescaped; a malformed attribute list or a bad escape
/// becomes `MalformedXML`.
#[verifier::external_body]
pub(crate) fn start_attributes(e: &BytesStart<'static>) -> Result<Vec<(String, String)>, Error> {
    let mut out: Vec<(String, String)> = Vec::new();
    for attr in e.attributes() {
        match attr {
            Ok(a) => {
                let key = String::from_utf8_lossy(a.key.as_ref()).into_owned();
                match a.unescape_value() {
                    Ok(v) => out.push((key, v.into_owned())),
                    Err(_) => return Err(Error::MalformedXML),
                }
            },
            Err(_) => return Err(Error::MalformedXML),
        }
    }
    Ok(out)
}

/// Relies on quick_xml::events::BytesEnd::name: the raw end-tag name bytes,
/// decoded here as UTF-8.
#[verifier::external_body]
pub(crate) fn end_name(e: &BytesEnd<'static>) -> String {
    String::from_utf8_lossy(e.name().as_ref()).into_owned()
}

/// Relies on quick_xml::Writer::write_event: marks the end of the output.
#[verifier::external_body]
pub(crate) fn emit_eof(w: &mut Writer<Vec<u8>>) -> Result<(), Error> {
    match w.write_event(Event::Eof) {
        Ok(()) => Ok(()),
        Err(_) => Err(Error::MalformedXML),
    }
}

/// Relies on quick_xml::events::BytesText::unescape: the text content with
/// entity and character references decoded.
#[verifier::external_body]
pub(crate) fn text_unescaped(t: &BytesText<'static>) -> Result<String, Error> {
    match t.unescape() {
        Ok(c) => Ok(c.into_owned()),
        Err(_) => Err(Error::MalformedXML),
    }
}

/// Relies on quick_xml::events::BytesCData::into_inner: the raw CDATA bytes,
/// decoded here as UTF-8.
#[verifier::external_body]
pub(crate) fn cdata_content(c: BytesCData<'static>) -> String {
    String::from_utf8_lossy(&c.into_inner()).into_owned()
}

/// Relies on quick_xml::events::BytesDecl::version: the declared version
/// text; a declaration without one becomes `MalformedXML`.
#[verifier::external_body]
pub(crate) fn decl_version(d: &BytesDecl<'static>) -> Result<String, Error> {
    match d.version() {
        Ok(v) => Ok(String::from_utf8_lossy(&v).into_owned()),
        Err(_) => Err(Error::MalformedXML),
    }
}

/// Relies on quick_xml::events::BytesDecl::encoding: the declared encoding
/// text, if the declaration has one.
#[verifier::external_body]
pub(crate) fn decl_encoding(d: &BytesDecl<'static>) -> Result<Option<String>, Error> {
    match d.encoding() {
        Some(Ok(v)) => Ok(Some(String::from_utf8_lossy(&v).into_owned())),
        Some(Err(_)) => Err(Error::MalformedXML),
        None => Ok(None),
    }
}

/// Relies on quick_xml::events::BytesDecl::standalone: the declared
/// standalone text, if the declaration has one.
#[verifier::external_body]
pub(crate) fn decl_standalone(d: &BytesDecl<'static>) -> Result<Option<String>, Error> {
    match d.standalone() {
        Some(Ok(v)) => Ok(Some(String::from_utf8_lossy(&v).into_owned())),
        Some(Err(_)) => Err(Error::MalformedXML),
        None => Ok(None),
    }
}

/// What the writer makes of an event stream under the given indent
/// settings: the serialized text, or the writer's error. Over a byte buffer
/// this is a function of the events and the indent settings alone.
pub uninterp spec fn rendered_of(evs: Seq<EventV>, indent_char: u8, indent_size: int) -> Result<
    Seq<char>,
    Error,
>;

/// Dispatches one event to the matching emit helper below, one arm each.
#[verifier::external_body]
pub(crate) fn emit_event(w: &mut Writer<Vec<u8>>, ev: &XmlEvent) -> Result<(), Error> {
    match ev {
        XmlEvent::Decl { version, encoding, standalone } => emit_decl(w, version, encoding, standalone),
        XmlEvent::Start { name, attrs } => emit_tag(w, name, attrs, false),
        XmlEvent::Empty { name, attrs } => emit_tag(w, name, attrs, true),
        XmlEvent::End(name) => emit_end(w, name),
        XmlEvent::Text(t) => emit_text(w, t),
        XmlEvent::Comment(t) => emit_comment(w, t),
        XmlEvent::CData(t) => emit_cdata(w, t),
        XmlEvent::PI(t) => emit_pi(w, t),
        XmlEvent::DocType(t) => emit_doctype(w, t),
        XmlEvent::Eof => emit_eof(w),
    }
}

/// Relies on quick_xml::Writer::new_with_indent, write_event and into_inner:
/// serializes the event stream over a byte buffer that indents with
/// `indent_size` copies of `indent_char`; the result depends on the events
/// and the indent settings alone, which `rendered_of` names. Bytes that are
/// not UTF-8 (possible only through the indent byte) come back as
/// `CannotDecode`.
#[verifier::external_body]
pub(crate) fn render(events: &Vec<XmlEvent>, indent_char: u8, indent_size: usize) -> (r: Result<
    String,
    Error,
>)
    ensures
        (match rendered_of(events_view(events@), indent_char, indent_size as int) {
            Ok(cs) => r is Ok && r->Ok_0@ == cs,
            Err(e) => r is Err && r->Err_0 == e,
        }),
{
    let mut w = Writer::new_with_indent(Vec::new(), indent_char, indent_size);
    for ev in events.iter() {
        if let Err(e) = emit_event(&mut w, ev) {
            return Err(e);
        }
    }
    match String::from_utf8(w.into_inner()) {
        Ok(s) => Ok(s),
        Err(_) => Err(Error::CannotDecode),
    }
}

/// Relies on quick_xml::Writer::write_event with BytesDecl::new: writes the
/// leading declaration exactly as the event holds it.
#[verifier::external_body]
pub(crate) fn emit_decl(
    w: &mut Writer<Vec<u8>>,
    version: &str,
    encoding: &Option<String>,
    standalone: &Option<String>,
) -> Result<(), Error> {
    let enc = encoding.as_deref();
    let sa = standalone.as_deref();
    match w.write_event(Event::Decl(BytesDecl::new(version, enc, sa))) {
        Ok(()) => Ok(()),
        Err(_) => Err(Error::MalformedXML),
    }
}

/// Relies on quick_xml::Writer::write_event with BytesStart::new and
/// push_attribute: writes a start or self-closing tag with the given
/// attribute list, values escaped by the codec.
#[verifier::external_body]
pub(crate) fn emit_tag(
    w: &mut Writer<Vec<u8>>,
    name: &str,
    attrs: &Vec<(String, String)>,
    self_closing: bool,
) -> Result<(), Error> {
    let mut start = BytesStart::new(name);
    for (k, v) in attrs.iter() {
        start.push_attribute((k.as_str(), v.as_str()));
    }
    let ev = if self_closing { Event::Empty(start) } else { Event::Start(start) };
    match w.write_event(ev) {
        Ok(()) => Ok(()),
        Err(_) => Err(Error::MalformedXML),
    }
}

/// Relies on quick_xml::Writer::write_event with BytesEnd::new: writes an
/// end tag.
#[verifier::external_body]
pub(crate) fn emit_end(w: &mut Writer<Vec<u8>>, name: &str) -> Result<(), Error> {
    match w.write_event(Event::End(BytesEnd::new(name))) {
        Ok(()) => Ok(()),
        Err(_) => Err(Error::MalformedXML),
    }
}

/// Relies on quick_xml::Writer::write_event with BytesText::new: writes
/// character data, escaped by the codec.
#[verifier::external_body]
pub(crate) fn emit_text(w: &mut Writer<Vec<u8>>, content: &str) -> Result<(), Error> {
    match w.write_event(Event::Text(BytesText::new(content))) {
        Ok(()) => Ok(()),
        Err(_) => Err(Error::MalformedXML),
    }
}

/// Relies on quick_xml::Writer::write_event with BytesText::from_escaped:
/// writes comment content through unchanged.
#[verifier::external_body]
pub(crate) fn emit_comment(w: &mut Writer<Vec<u8>>, content: &str) -> Result<(), Error> {
    match w.write_event(Event::Comment(BytesText::from_escaped(content))) {
        Ok(()) => Ok(()),
        Err(_) => Err(Error::MalformedXML),
    }
}

/// Relies on quick_xml::Writer::write_event with BytesCData::new: writes a
/// CDATA section.
#[verifier::external_body]
pub(crate) fn emit_cdata(w: &mut Writer<Vec<u8>>, content: &str) -> Result<(), Error> {
    match w.write_event(Event::CData(BytesCData::new(content))) {
        Ok(()) => Ok(()),
        Err(_) => Err(Error::MalformedXML),
    }
}

/// Relies on quick_xml::Writer::write_event with BytesText::from_escaped:
/// writes processing instruction content through unchanged.
#[verifier::external_body]
pub(crate) fn emit_pi(w: &mut Writer<Vec<u8>>, content: &str) -> Result<(), Error> {
    match w.write_event(Event::PI(BytesText::from_escaped(content))) {
        Ok(()) => Ok(()),
        Err(_) => Err(Error::MalformedXML),
    }
}

/// Relies on quick_xml::Writer::write_event with BytesText::new: writes a
/// document type declaration.
#[verifier::external_body]
pub(crate) fn emit_doctype(w: &mut Writer<Vec<u8>>, content: &str) -> Result<(), Error> {
    match w.write_event(Event::DocType(BytesText::new(content))) {
        Ok(()) => Ok(()),
        Err(_) => Err(Error::MalformedXML),
    }
}

} // verus!
