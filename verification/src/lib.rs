//! An in-memory document tree: nodes held in one store, addressed by handles,
//! with DOM-shaped mutation, traversal, comparison and character-data editing.
//!
//! A [`Dom`] holds every node; a [`DomNode`] is a handle that names one of
//! them. Operations are methods of the handle and take the store they work on.

pub mod adjacent;
pub mod attrs;
pub mod chardata;
pub mod copy;
pub mod document;
pub mod factory;
pub mod fragment;
pub mod lists;
pub mod markup;
pub mod modify;
pub mod node;
pub mod normal;
pub mod order;
pub mod props;
pub mod query;
pub mod shape;
pub mod text;
pub mod tree;

pub use adjacent::Place;
pub use markup::{parse, parse_into};
pub use modify::DomError;
pub use node::{Attribute, Dom, NodeData, QualName};
pub use shape::DomNode;
pub use text::{camel_to_kebab, kebab_to_camel};
