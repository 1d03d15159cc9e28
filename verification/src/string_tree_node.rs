//! A read-only reference to a node within a [`StringTree`]: a pair of a
//! shared tree handle and a node index. Any number of these may coexist;
//! every access re-reads the arena through the handle.

use vstd::prelude::*;
use vstd::string::StrSliceExecFns;
use vstd::string::StringExecFns;
use vstd::string::StringSliceAdditionalSpecFns;
use vstd::utf8::decode_utf8;
use vstd::utf8::encode_utf8;
use vstd::utf8::encode_utf8_valid_utf8;
use vstd::utf8::valid_utf8;
use vstd::utf8::valid_utf8_concat;
use crate::string_tree::StringTree;
use crate::string_tree_node_mut::StringTreeNodeMut;
use crate::text::bytes_to_string;
use crate::text::lemma_whole_char_extension;
use crate::IterableCoroutine;

verus! {

/// A reference to a node within a StringTree.
pub struct StringTreeNode<'a, T> {
    pub(crate) ref_tree: &'a StringTree<T>,
    pub(crate) index: u32,
}

impl<'a, T> StringTreeNode<'a, T> {
    /// The tree this cursor looks into.
    pub closed spec fn tree(self) -> StringTree<T> {
        *self.ref_tree
    }

    /// The arena index of the node this cursor stands on.
    pub closed spec fn node_index(self) -> int {
        self.index as int
    }

    /// The byte path from the root to this node.
    pub open spec fn path_spec(self) -> Seq<u8> {
        self.tree().path_at(self.node_index())
    }

    /// What the closed cursor representation holds: the handle and index
    /// behind [`StringTreeNode::tree`] and [`StringTreeNode::node_index`].
    pub(crate) proof fn lemma_repr(self)
        ensures
            self.node_index() == self.index as int,
            self.tree() == *self.ref_tree,
    {
    }

    /// A usable cursor: its tree is well-formed, its node exists, and it was
    /// reached over whole characters, so its path is valid UTF-8.
    pub open spec fn wf(self) -> bool {
        &&& self.tree().wf()
        &&& 0 <= self.node_index() < self.tree().node_count()
        &&& valid_utf8(self.path_spec())
    }

    /// Steps further into the tree and returns the value at the desired
    /// position (or `None`).
    pub fn get(&self, key: &str) -> (r: Option<&'a T>)
        requires
            self.wf(),
        ensures
            r == (if self.tree()@.contains_key(self.path_spec() + encode_utf8(key@)) {
                Some(&self.tree()@[self.path_spec() + encode_utf8(key@)])
            } else {
                None::<&T>
            }),
    {
        proof {
            assert(self.path_spec() + key.spec_bytes() == self.path_spec() + encode_utf8(key@));
        }
        self.ref_tree.get_at(self.index, key.as_bytes())
    }

    /// Steps further into the tree and returns the value at the desired
    /// position (or an error).
    ///
    /// The error value is the attempted absolute path: this node's path
    /// followed by the key.
    pub fn try_get(&self, key: &str) -> (r: Result<&'a T, String>)
        requires
            self.wf(),
        ensures
            ({
                let k = self.path_spec() + encode_utf8(key@);
                match r {
                    Ok(v) => self.tree()@.contains_key(k) && v == &self.tree()@[k],
                    Err(s) => !self.tree()@.contains_key(k) && s@ == decode_utf8(self.path_spec())
                        + key@,
                }
            }),
    {
        match self.get(key) {
            Some(v) => Ok(v),
            None => Err(self.path().concat(key)),
        }
    }

    /// Steps further into the tree and returns a new node (or `None`).
    pub fn step(&self, key: &str) -> (r: Option<StringTreeNode<'a, T>>)
        requires
            self.wf(),
        ensures
            ({
                let pk = self.path_spec() + encode_utf8(key@);
                match r {
                    Some(c) => c.wf() && c.tree() == self.tree() && c.path_spec() == pk,
                    None => !self.tree()@.contains_key(pk) && forall|i: int|
                        0 <= i < self.tree().node_count() ==> (#[trigger] self.tree().path_at(i))
                            != pk,
                }
            }),
    {
        proof {
            assert(self.path_spec() + key.spec_bytes() == self.path_spec() + encode_utf8(key@));
        }
        match self.ref_tree.find_at(self.index, key.as_bytes()) {
            Some(j) => {
                proof {
                    encode_utf8_valid_utf8(key@);
                    valid_utf8_concat(self.path_spec(), encode_utf8(key@));
                }
                Some(StringTreeNode { ref_tree: self.ref_tree, index: j })
            },
            None => {
                proof {
                    self.ref_tree.lemma_no_node_no_key(self.path_spec() + encode_utf8(key@));
                }
                None
            },
        }
    }

    /// Steps further into the tree and returns a new node (or an error).
    ///
    /// The error value is the attempted absolute path: this node's path
    /// followed by the key.
    pub fn try_step(&self, key: &str) -> (r: Result<StringTreeNode<'a, T>, String>)
        requires
            self.wf(),
        ensures
            ({
                let pk = self.path_spec() + encode_utf8(key@);
                match r {
                    Ok(c) => c.wf() && c.tree() == self.tree() && c.path_spec() == pk,
                    Err(s) => !self.tree()@.contains_key(pk) && (forall|i: int|
                        0 <= i < self.tree().node_count() ==> (#[trigger] self.tree().path_at(i))
                            != pk) && s@ == decode_utf8(self.path_spec()) + key@,
                }
            }),
    {
        match self.step(key) {
            Some(c) => Ok(c),
            None => Err(self.path().concat(key)),
        }
    }

    /// Returns the value at this node (or `None`).
    pub fn value(&self) -> (r: Option<&'a T>)
        requires
            self.wf(),
        ensures
            r == (if self.tree()@.contains_key(self.path_spec()) {
                Some(&self.tree()@[self.path_spec()])
            } else {
                None::<&T>
            }),
    {
        self.ref_tree.value_at(self.index)
    }

    /// Returns the value at this node (or an error).
    ///
    /// The error value is the path of the current node.
    pub fn value_result(&self) -> (r: Result<&'a T, String>)
        requires
            self.wf(),
        ensures
            match r {
                Ok(v) => self.tree()@.contains_key(self.path_spec()) && v == &self.tree()@[
                    self.path_spec()
                ],
                Err(s) => !self.tree()@.contains_key(self.path_spec()) && s@ == decode_utf8(
                    self.path_spec(),
                ),
            },
    {
        match self.value() {
            Some(v) => Ok(v),
            None => Err(self.path()),
        }
    }

    /// Creates and returns the string that is needed to reach this node from
    /// the root node.
    pub fn path(&self) -> (r: String)
        requires
            self.wf(),
        ensures
            r@ == decode_utf8(self.path_spec()),
            encode_utf8(r@) == self.path_spec(),
    {
        let bytes = self.ref_tree.path_bytes(self.index);
        proof {
            vstd::utf8::decode_utf8_encode_utf8(bytes@);
        }
        match bytes_to_string(&bytes) {
            Some(s) => s,
            None => vstd::pervasive::unreached(),
        }
    }

    /// The logical children of this node, one per whole Unicode character
    /// reachable directly below it: single-byte characters first, then the
    /// two-, three- and four-byte classes, each in ascending lead-byte
    /// order. A multi-byte character contributes its terminal node, never an
    /// intermediate continuation node.
    pub fn children(&self) -> (r: IterableCoroutine<StringTreeNode<'a, T>>)
        requires
            self.wf(),
        ensures
            ({
                let cs = r.remaining();
                let ids = self.tree().logical_children(self.node_index());
                &&& cs.len() == ids.len()
                &&& forall|k: int|
                    0 <= k < cs.len() ==> {
                        &&& (#[trigger] cs[k]).wf()
                        &&& cs[k].tree() == self.tree()
                        &&& cs[k].node_index() == ids[k] as int
                        &&& self.tree().whole_char_child(self.node_index(), cs[k].node_index())
                    }
            }),
    {
        let ids = self.ref_tree.child_indices(self.index);
        let mut cs: Vec<StringTreeNode<'a, T>> = Vec::new();
        let mut m: usize = 0;
        while m < ids.len()
            invariant
                self.wf(),
                ids@ == self.tree().logical_children(self.node_index()),
                forall|k: int|
                    0 <= k < ids@.len() ==> self.tree().whole_char_child(
                        self.node_index(),
                        (#[trigger] ids@[k]) as int,
                    ),
                forall|k: int|
                    0 <= k < ids@.len() ==> crate::text::utf8_prefix(
                        self.tree().path_at((#[trigger] ids@[k]) as int),
                    ),
                m <= ids@.len(),
                cs@.len() == m,
                forall|k: int|
                    0 <= k < m ==> {
                        &&& (#[trigger] cs@[k]).wf()
                        &&& cs@[k].tree() == self.tree()
                        &&& cs@[k].node_index() == ids@[k] as int
                    },
            decreases ids@.len() - m,
        {
            let c = StringTreeNode { ref_tree: self.ref_tree, index: ids[m] };
            proof {
                let e = ids@[m as int] as int;
                let p = self.path_spec();
                let s = self.tree().path_at(e).skip(p.len() as int);
                assert(p + s =~= self.tree().path_at(e));
                lemma_whole_char_extension(p, s);
                assert(c.wf());
            }
            cs.push(c);
            m = m + 1;
        }
        IterableCoroutine::from_items(cs)
    }

    /// Turns this node reference into a mutable node reference.
    pub fn to_mut(&self) -> (r: StringTreeNodeMut)
        ensures
            r.node_index() == self.node_index(),
    {
        let r = StringTreeNodeMut { index: self.index };
        proof {
            r.lemma_repr();
        }
        r
    }
}

impl<T> StringTree<T> {
    /// A read cursor standing on the root node.
    pub fn root_node<'a>(&'a self) -> (r: StringTreeNode<'a, T>)
        requires
            self.wf(),
        ensures
            r.wf(),
            r.tree() == *self,
            r.node_index() == 0,
            r.path_spec() == Seq::<u8>::empty(),
    {
        proof {
            self.lemma_root_facts();
        }
        StringTreeNode { ref_tree: self, index: 0 }
    }

    /// Steps further into the tree and returns a node reference (or `None`).
    pub fn step<'a>(&'a self, key: &str) -> (r: Option<StringTreeNode<'a, T>>)
        requires
            self.wf(),
        ensures
            match r {
                Some(c) => c.wf() && c.tree() == *self && c.path_spec() == encode_utf8(key@),
                None => !self@.contains_key(encode_utf8(key@)) && forall|i: int|
                    0 <= i < self.node_count() ==> (#[trigger] self.path_at(i)) != encode_utf8(
                        key@,
                    ),
            },
    {
        proof {
            self.lemma_root_facts();
            assert(Seq::<u8>::empty() + encode_utf8(key@) =~= encode_utf8(key@));
        }
        self.root_node().step(key)
    }
}

} // verus!
