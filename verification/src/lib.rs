//! Editing core of a structured rich-text composer.
//!
//! A document is an ordered tree of inline leaves (text runs, line breaks,
//! mentions) inside structural containers (paragraphs, lists, quotes,
//! formatting spans, links).  A single cursor/selection is kept as a pair of
//! absolute character offsets into the flattened document.  The heart of the
//! crate is the cursor-relative node-insertion engine: it reconciles the flat
//! offset space with the tree position space, splits text runs where needed,
//! repositions the cursor and decides when a trailing separator space must be
//! synthesized.

pub mod dom;
pub mod position;
pub mod mutation;
pub mod model;
pub mod laws;

pub use dom::ContainerKind;
pub use dom::DomNode;
pub use model::ComposerModel;
pub use model::ComposerUpdate;
pub use model::DocState;
pub use model::MenuAction;
pub use model::SuggestionPattern;
pub use model::TextUpdate;
pub use position::DomRange;
pub use position::LeafPos;
