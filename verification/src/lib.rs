pub mod order;
pub mod strmap;
pub mod model;
pub mod error;
pub mod document;
pub mod element;
pub mod ns;
pub mod subtree;
pub mod query;
pub mod builder;
pub mod events;
pub mod codec;
pub mod parser;
pub mod writer;
pub mod laws;

pub use document::{Document, Node};
pub use element::Element;
pub use error::Error;
pub use builder::ElementBuilder;
pub use strmap::{Smap, Sset};
pub use events::{ReadOptions, WriteOptions, XmlEvent};
