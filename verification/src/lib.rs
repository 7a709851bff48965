//! Content-type detection over a hierarchy of MIME types.
//!
//! The hierarchy is a directed graph whose nodes are type identifiers and
//! whose edges run from a type to each of its more specific subclasses. A
//! classification starts at a node, tests its subclasses against the
//! candidate bytes and descends into the first one that matches, until no
//! subclass of the type reached matches any more.

pub mod digraph;
pub mod index;
pub mod mime;
pub mod hierarchy;
pub mod checker;
pub mod walker;

pub use checker::{load_types, match_u8, starts_with, Checker, Registry, Signature};
pub use hierarchy::{graph_init, TypeStruct};
pub use walker::{from_u8, from_u8_node, root, Walker};
