//! Removal of CSS that no element of a set of HTML documents can use, over a document
//! tree of the library's own, together with a minimising serializer for such trees.
//!
//! Selector matching itself belongs to a selector engine outside the library: it hands in,
//! for each selector and each document, what the engine reports for the node at each
//! pre-order position, and the library searches, prunes and proves against that.

pub mod document;
pub mod dom;
pub mod element;
pub mod error;
pub mod matching;
pub mod names;
pub mod node_ext;
pub mod normalize;
pub mod rules;
pub mod serializer;
pub mod text;

pub use document::{QuirksMode, RcDom, RcDomExt};
pub use dom::{Attribute, Node, NodeData, QualName};
pub use element::{
    CaseSensitivity, NamespaceConstraint, NonTreeStructuralPseudoClass,
    PreprocessedHtml5ElementWrappingNode,
};
pub use error::PurifyError;
pub use matching::FindHtmlElementsMatchingCssSelector;
pub use names::QualNameExt;
pub use node_ext::NodeExt;
pub use rules::{
    ConditionalGroupRule, CssRule, DeduplicatedSelectors, DeduplicatedSelectorsExt,
    HasCssRulesExt, StyleRule, Stylesheet,
};
pub use serializer::MinifyingHtmlSerializer;
