//! Two ordered skip structures over items that carry an integer ordering key.
//!
//! `skip_list::SkipLinkedList` keeps its items in a leaf level under levels of
//! index nodes, each index node covering a range of the level below; `list::SkipList`
//! is a classic tower skip list. Every level is a `Vec` whose node `i` links to
//! node `i + 1`, and a link downward is the index of a node in the level below.
pub mod order;
pub mod internal_node;
pub mod skip_node;
pub mod leaf_node;
pub mod forest;
pub mod skip_list;
pub mod node;
pub mod list;
