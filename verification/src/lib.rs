//! Streaming transformation of markup documents.
//!
//! A document is consumed as a flat sequence of parse events. Each event is
//! exposed as an item that carries the chain of elements open at that point,
//! so that selectors can be evaluated against the ancestor context without a
//! document tree ever being built.

pub mod element;
pub mod element_path;
pub mod error;
pub mod itemext;
pub mod iteritem;
pub mod matcher;
pub mod selector;
pub mod stream;
pub mod traverser;
pub mod xml;

pub use element::{Element, FilterAttributes, RawElement};
pub use element_path::RawItem;
pub use error::{ErrorKind, Feature, TraversalError};
pub use itemext::{IncludeItem, ItemExt};
pub use iteritem::{Item, MapAll};
pub use selector::ContextualSelector;
pub use stream::{
    Exclude, HtmlIter, HtmlIterator, HtmlIteratorExt, HtmlWriter, Include, MappedItems,
    SliceSource, TokenSource,
};
