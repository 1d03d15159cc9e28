//! An ordered trie over UTF-8 string keys, backed by a flat arena of nodes
//! addressed by integer index.

use vstd::prelude::*;

mod count;
/// UTF-8 helpers for node paths.
pub mod text;
/// The main type.
pub mod string_tree;
/// A reference to a node within a StringTree: viewing and traversal.
pub mod string_tree_node;
/// A mutable reference to a node within a StringTree: viewing, traversal
/// and editing.
pub mod string_tree_node_mut;
/// Laws of the tree as a map, proved once and for all.
pub mod laws;

pub use string_tree::StringTree;
pub use string_tree_node::StringTreeNode;
pub use string_tree_node_mut::StringTreeNodeMut;

verus! {

/// Utility wrapper that lets an eagerly collected sequence be stepped
/// through item by item.
pub struct IterableCoroutine<Y> {
    items: Vec<Y>,
}

impl<Y> IterableCoroutine<Y> {
    /// The items still to be yielded, in yield order.
    pub closed spec fn remaining(self) -> Seq<Y> {
        self.items@
    }

    /// Wraps a vector of items, to be yielded in their vector order.
    pub fn from_items(items: Vec<Y>) -> (r: Self)
        ensures
            r.remaining() == items@,
    {
        IterableCoroutine { items }
    }

    /// Yields the next item, or `None` once the sequence is exhausted.
    pub fn next(&mut self) -> (r: Option<Y>)
        ensures
            old(self).remaining().len() == 0 ==> r is None && final(self).remaining() == old(
                self,
            ).remaining(),
            old(self).remaining().len() > 0 ==> r == Some(old(self).remaining()[0])
                && final(self).remaining() == old(self).remaining().skip(1),
    {
        if self.items.len() == 0 {
            None
        } else {
            let x = self.items.remove(0);
            proof {
                assert(self.items@ =~= old(self).remaining().skip(1));
            }
            Some(x)
        }
    }
}

} // verus!
