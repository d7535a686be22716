//! An in-memory HTML document object model: an arena of nodes with
//! parent and child links, built from HTML text and then queried and
//! changed through handles.
//!
//! A [`Dom`] is the arena; a [`NodeRepr`] is a handle to one of its
//! nodes. Every operation on a node takes the arena that the node lives
//! in. Nodes are never taken out of the arena, so a handle stays good
//! for as long as its arena lives.

pub mod node;
pub mod model;
pub mod dom;
pub mod error;
pub mod mutate;
pub mod text;
pub mod tree;
pub mod navigate;
pub mod attrs;
pub mod chardata;
pub mod html;
pub mod fill;
pub mod query;
pub mod info;
pub mod create;
pub mod content;
pub mod ingest;
pub mod normalize;
pub mod normal_form;
pub mod normal_proof;
pub mod kept;
pub mod order;
pub mod laws;

pub use dom::Dom;
pub use error::DomError;
pub use ingest::parse;
pub use model::NodeRepr;
pub use node::NodeData;
pub use node::NodeKind;
