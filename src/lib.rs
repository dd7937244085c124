//! A retained-mode view-tree reconciler: a keyed-list view that aligns the
//! previous and the next list of items by their keys, and the longest-run
//! matcher that drives the alignment.

pub mod align;
pub mod for_keyed;
pub mod host;
pub mod lcs;
pub mod node_span;
pub mod view;

pub use for_keyed::{ForKeyed, KeyedListItem};
pub use host::ElementContext;
pub use lcs::lcs;
pub use node_span::{NodeId, NodeSpan};
pub use view::{Element, ElementState, NodeView};
