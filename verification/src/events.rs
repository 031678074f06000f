//! The codec event vocabulary: what the tokenizer produces while reading and
//! the writer consumes while serializing, as plain values, plus the read and
//! write configuration.

use vstd::prelude::*;

verus! {

/// One event of the XML codec.
#[derive(Debug, PartialEq, Eq)]
pub enum XmlEvent {
    /// XML declaration `<?xml ...?>`.
    Decl { version: String, encoding: Option<String>, standalone: Option<String> },
    /// Start tag with its attribute list in source order.
    Start { name: String, attrs: Vec<(String, String)> },
    /// End tag.
    End(String),
    /// Self-closing tag.
    Empty { name: String, attrs: Vec<(String, String)> },
    /// Character data, entities already decoded.
    Text(String),
    /// Comment.
    Comment(String),
    /// CDATA section content.
    CData(String),
    /// Processing instruction.
    PI(String),
    /// Document type declaration.
    DocType(String),
    /// End of the input.
    Eof,
}

/// Spec-level event.
pub enum EventV {
    Decl { version: Seq<char>, encoding: Option<Seq<char>>, standalone: Option<Seq<char>> },
    Start { name: Seq<char>, attrs: Seq<(Seq<char>, Seq<char>)> },
    End(Seq<char>),
    Empty { name: Seq<char>, attrs: Seq<(Seq<char>, Seq<char>)> },
    Text(Seq<char>),
    Comment(Seq<char>),
    CData(Seq<char>),
    PI(Seq<char>),
    DocType(Seq<char>),
    Eof,
}

pub open spec fn attrs_view(v: Seq<(String, String)>) -> Seq<(Seq<char>, Seq<char>)> {
    Seq::new(v.len(), |i: int| (v[i].0@, v[i].1@))
}

/// The spec-level stream an event vector stands for.
pub open spec fn events_view(v: Seq<XmlEvent>) -> Seq<EventV> {
    Seq::new(v.len(), |i: int| v[i]@)
}

impl View for XmlEvent {
    type V = EventV;

    open spec fn view(&self) -> EventV {
        match self {
            XmlEvent::Decl { version, encoding, standalone } => EventV::Decl {
                version: version@,
                encoding: match encoding {
                    Some(e) => Some(e@),
                    None => None,
                },
                standalone: match standalone {
                    Some(s) => Some(s@),
                    None => None,
                },
            },
            XmlEvent::Start { name, attrs } => EventV::Start {
                name: name@,
                attrs: attrs_view(attrs@),
            },
            XmlEvent::End(n) => EventV::End(n@),
            XmlEvent::Empty { name, attrs } => EventV::Empty {
                name: name@,
                attrs: attrs_view(attrs@),
            },
            XmlEvent::Text(s) => EventV::Text(s@),
            XmlEvent::Comment(s) => EventV::Comment(s@),
            XmlEvent::CData(s) => EventV::CData(s@),
            XmlEvent::PI(s) => EventV::PI(s@),
            XmlEvent::DocType(s) => EventV::DocType(s@),
            XmlEvent::Eof => EventV::Eof,
        }
    }
}

impl DeepView for XmlEvent {
    type V = EventV;

    open spec fn deep_view(&self) -> EventV {
        self.view()
    }
}

/// Options for parsing.
#[derive(Debug, Clone, PartialEq, Eq)]
pub struct ReadOptions {
    /// When `true` (the default), `<tag></tag>` gets a single empty text
    /// child, preserving the distinction from `<tag/>` on round trips.
    pub empty_text_node: bool,
    /// When `true`, the document's declared-or-assumed encoding must match
    /// the expected `encoding`, else parsing fails with `CannotDecode`.
    /// Default `false`.
    pub enforce_encoding: bool,
    /// The encoding `enforce_encoding` checks against; with enforcement on
    /// and no expectation set, every parse fails with `CannotDecode`.
    pub encoding: Option<String>,
}

impl ReadOptions {
    /// The default read options: empty text nodes on, no encoding
    /// enforcement.
    pub fn default() -> (r: ReadOptions)
        ensures
            r.empty_text_node == true,
            r.enforce_encoding == false,
            r.encoding is None,
    {
        ReadOptions { empty_text_node: true, enforce_encoding: false, encoding: None }
    }
}

/// Options for writing.
#[derive(Debug, Clone, PartialEq, Eq)]
pub struct WriteOptions {
    /// The byte to indent with (default: a space).
    pub indent_char: u8,
    /// How many `indent_char` bytes make one indent level (default: 2).
    pub indent_size: usize,
    /// Whether a leading XML declaration is written (default: `true`).
    pub write_decl: bool,
}

impl WriteOptions {
    /// The default write options: two spaces of indent, with a declaration.
    pub fn default() -> (r: WriteOptions)
        ensures
            r.indent_char == 32u8,
            r.indent_size == 2usize,
            r.write_decl == true,
    {
        WriteOptions { indent_char: 32u8, indent_size: 2, write_decl: true }
    }
}

} // verus!
