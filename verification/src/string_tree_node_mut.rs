//! A mutable reference to a node within a [`StringTree`]: the node's index,
//! used together with an exclusive borrow of the tree passed to each
//! operation. Exactly one such borrow can be live at a time, which keeps
//! structural edits exclusive.

use vstd::prelude::*;
use vstd::string::StrSliceExecFns;
use vstd::string::StringExecFns;
use vstd::string::StringSliceAdditionalSpecFns;
use vstd::utf8::decode_utf8;
use vstd::utf8::encode_utf8;
use vstd::utf8::encode_utf8_valid_utf8;
use vstd::utf8::valid_utf8;
use vstd::utf8::valid_utf8_concat;
use crate::string_tree::StringTree;
use crate::string_tree_node::StringTreeNode;
use crate::text::bytes_to_string;
use crate::text::lemma_whole_char_extension;
use crate::IterableCoroutine;

verus! {

/// A mutable reference to a node within a StringTree.
pub struct StringTreeNodeMut {
    pub(crate) index: u32,
}

impl StringTreeNodeMut {
    /// The arena index of the node this cursor stands on.
    pub closed spec fn node_index(self) -> int {
        self.index as int
    }

    /// What the closed cursor representation holds: the index behind
    /// [`StringTreeNodeMut::node_index`].
    pub(crate) proof fn lemma_repr(self)
        ensures
            self.node_index() == self.index as int,
    {
    }

    /// This cursor stands on a real node of the given well-formed tree,
    /// reached over whole characters.
    pub open spec fn valid_in<T>(self, tree: StringTree<T>) -> bool {
        &&& tree.wf()
        &&& 0 <= self.node_index() < tree.node_count()
        &&& valid_utf8(tree.path_at(self.node_index()))
    }

    /// The byte path from the root of `tree` to this node.
    pub open spec fn path_in<T>(self, tree: StringTree<T>) -> Seq<u8> {
        tree.path_at(self.node_index())
    }

    /// Steps further into the tree and returns the value at the desired
    /// position (or `None`).
    pub fn get<'a, T>(&self, tree: &'a StringTree<T>, key: &str) -> (r: Option<&'a T>)
        requires
            self.valid_in(*tree),
        ensures
            r == (if tree@.contains_key(self.path_in(*tree) + encode_utf8(key@)) {
                Some(&tree@[self.path_in(*tree) + encode_utf8(key@)])
            } else {
                None::<&T>
            }),
    {
        proof {
            assert(self.path_in(*tree) + key.spec_bytes() == self.path_in(*tree) + encode_utf8(
                key@,
            ));
        }
        tree.get_at(self.index, key.as_bytes())
    }

    /// Steps further into the tree and returns the value at the desired
    /// position as mut (or `None`); writing through the returned reference
    /// rebinds the key.
    pub fn get_mut<'a, T>(&self, tree: &'a mut StringTree<T>, key: &str) -> (r: Option<&'a mut T>)
        requires
            self.valid_in(*old(tree)),
        ensures
            final(tree).wf(),
            final(tree).node_count() == old(tree).node_count(),
            forall|q: int|
                0 <= q < old(tree).node_count() ==> final(tree).path_at(q) == old(tree).path_at(q),
            self.valid_in(*final(tree)),
            r is Some <==> old(tree)@.contains_key(self.path_in(*old(tree)) + encode_utf8(key@)),
            r is Some ==> *r.unwrap() == old(tree)@[self.path_in(*old(tree)) + encode_utf8(key@)]
                && final(tree)@ == old(tree)@.insert(
                self.path_in(*old(tree)) + encode_utf8(key@),
                *final(r.unwrap()),
            ),
            r is None ==> final(tree)@ == old(tree)@,
    {
        proof {
            assert(self.path_in(*tree) + key.spec_bytes() == self.path_in(*tree) + encode_utf8(
                key@,
            ));
        }
        let t = match tree.find_at(self.index, key.as_bytes()) {
            Some(t) => t,
            None => {
                proof {
                    tree.lemma_no_node_no_key(self.path_in(*tree) + encode_utf8(key@));
                }
                return None;
            },
        };
        tree.value_at_mut(t)
    }

    /// Steps further into the tree and returns the value at the desired
    /// position (or an error).
    ///
    /// The error value is the attempted absolute path: this node's path
    /// followed by the key.
    pub fn try_get<'a, T>(&self, tree: &'a StringTree<T>, key: &str) -> (r: Result<&'a T, String>)
        requires
            self.valid_in(*tree),
        ensures
            ({
                let k = self.path_in(*tree) + encode_utf8(key@);
                match r {
                    Ok(v) => tree@.contains_key(k) && v == &tree@[k],
                    Err(s) => !tree@.contains_key(k) && s@ == decode_utf8(self.path_in(*tree))
                        + key@,
                }
            }),
    {
        match self.get(tree, key) {
            Some(v) => Ok(v),
            None => Err(self.path(tree).concat(key)),
        }
    }

    /// Steps further into the tree and returns the value at the desired
    /// position as mut (or an error).
    ///
    /// The error value is the attempted absolute path: this node's path
    /// followed by the key.
    pub fn try_get_mut<'a, T>(&self, tree: &'a mut StringTree<T>, key: &str) -> (r: Result<
        &'a mut T,
        String,
    >)
        requires
            self.valid_in(*old(tree)),
        ensures
            final(tree).wf(),
            final(tree).node_count() == old(tree).node_count(),
            forall|q: int|
                0 <= q < old(tree).node_count() ==> final(tree).path_at(q) == old(tree).path_at(q),
            self.valid_in(*final(tree)),
            ({
                let k = self.path_in(*old(tree)) + encode_utf8(key@);
                match r {
                    Ok(v) => old(tree)@.contains_key(k) && *v == old(tree)@[k] && final(tree)@
                        == old(tree)@.insert(k, *final(v)),
                    Err(s) => !old(tree)@.contains_key(k) && final(tree)@ == old(tree)@ && s@
                        == decode_utf8(self.path_in(*old(tree))) + key@,
                }
            }),
    {
        let err = self.path(tree).concat(key);
        match self.get_mut(tree, key) {
            Some(v) => Ok(v),
            None => Err(err),
        }
    }

    /// Steps further into the tree, sets the value at that node, and returns
    /// the previous value if it exists; nodes are allocated lazily for every
    /// key byte past the longest existing prefix.
    pub fn set<T>(&self, tree: &mut StringTree<T>, key: &str, value: T) -> (prev: Option<T>)
        requires
            self.valid_in(*old(tree)),
            old(tree).node_count() + encode_utf8(key@).len() <= u32::MAX,
        ensures
            final(tree).wf(),
            self.valid_in(*final(tree)),
            self.path_in(*final(tree)) == self.path_in(*old(tree)),
            final(tree)@ == old(tree)@.insert(
                self.path_in(*old(tree)) + encode_utf8(key@),
                value,
            ),
            prev == (if old(tree)@.contains_key(self.path_in(*old(tree)) + encode_utf8(key@)) {
                Some(old(tree)@[self.path_in(*old(tree)) + encode_utf8(key@)])
            } else {
                None::<T>
            }),
            old(tree).node_count() <= final(tree).node_count() <= old(tree).node_count()
                + encode_utf8(key@).len(),
            forall|q: int|
                0 <= q < old(tree).node_count() ==> final(tree).path_at(q) == old(tree).path_at(q),
    {
        proof {
            encode_utf8_valid_utf8(key@);
            assert(self.path_in(*tree) + key.spec_bytes() == self.path_in(*tree) + encode_utf8(
                key@,
            ));
        }
        tree.set_at(self.index, key.as_bytes(), value)
    }

    /// Steps further into the tree, removes the value at that node, and
    /// returns the previous value if it exists.
    ///
    /// This also reclaims any node made useless by the removal, so the
    /// arena never keeps dead weight. Compaction renumbers nodes, so only a
    /// root cursor is guaranteed to remain valid afterwards; a removal that
    /// finds nothing, though, provably leaves every node in place.
    pub fn remove<T>(&self, tree: &mut StringTree<T>, key: &str) -> (prev: Option<T>)
        requires
            self.valid_in(*old(tree)),
        ensures
            final(tree).wf(),
            final(tree)@ == old(tree)@.remove(self.path_in(*old(tree)) + encode_utf8(key@)),
            prev == (if old(tree)@.contains_key(self.path_in(*old(tree)) + encode_utf8(key@)) {
                Some(old(tree)@[self.path_in(*old(tree)) + encode_utf8(key@)])
            } else {
                None::<T>
            }),
            final(tree).node_count() <= old(tree).node_count(),
            self.node_index() == 0 ==> self.valid_in(*final(tree)),
            !old(tree)@.contains_key(self.path_in(*old(tree)) + encode_utf8(key@))
                ==> final(tree).node_count() == old(tree).node_count() && (forall|q: int|
                0 <= q < old(tree).node_count() ==> final(tree).path_at(q) == old(tree).path_at(
                    q,
                )),
    {
        proof {
            assert(self.path_in(*tree) + key.spec_bytes() == self.path_in(*tree) + encode_utf8(
                key@,
            ));
        }
        tree.remove_at(self.index, key.as_bytes())
    }

    /// Steps further into the tree and returns a new mutable node reference
    /// (or `None`).
    pub fn step<T>(&self, tree: &StringTree<T>, key: &str) -> (r: Option<StringTreeNodeMut>)
        requires
            self.valid_in(*tree),
        ensures
            ({
                let pk = self.path_in(*tree) + encode_utf8(key@);
                match r {
                    Some(c) => c.valid_in(*tree) && c.path_in(*tree) == pk,
                    None => !tree@.contains_key(pk) && forall|i: int|
                        0 <= i < tree.node_count() ==> (#[trigger] tree.path_at(i)) != pk,
                }
            }),
    {
        proof {
            assert(self.path_in(*tree) + key.spec_bytes() == self.path_in(*tree) + encode_utf8(
                key@,
            ));
        }
        match tree.find_at(self.index, key.as_bytes()) {
            Some(j) => {
                proof {
                    encode_utf8_valid_utf8(key@);
                    valid_utf8_concat(self.path_in(*tree), encode_utf8(key@));
                }
                Some(StringTreeNodeMut { index: j })
            },
            None => {
                proof {
                    tree.lemma_no_node_no_key(self.path_in(*tree) + encode_utf8(key@));
                }
                None
            },
        }
    }

    /// Steps further into the tree and returns a new mutable node reference
    /// (or an error).
    ///
    /// The error value is the attempted absolute path: this node's path
    /// followed by the key.
    pub fn try_step<T>(&self, tree: &StringTree<T>, key: &str) -> (r: Result<
        StringTreeNodeMut,
        String,
    >)
        requires
            self.valid_in(*tree),
        ensures
            ({
                let pk = self.path_in(*tree) + encode_utf8(key@);
                match r {
                    Ok(c) => c.valid_in(*tree) && c.path_in(*tree) == pk,
                    Err(s) => !tree@.contains_key(pk) && (forall|i: int|
                        0 <= i < tree.node_count() ==> (#[trigger] tree.path_at(i)) != pk) && s@
                        == decode_utf8(self.path_in(*tree)) + key@,
                }
            }),
    {
        match self.step(tree, key) {
            Some(c) => Ok(c),
            None => Err(self.path(tree).concat(key)),
        }
    }

    /// Returns mutable access to the value at this node (or `None`); writing
    /// through the returned reference rebinds this node's path.
    pub fn value<'a, T>(&self, tree: &'a mut StringTree<T>) -> (r: Option<&'a mut T>)
        requires
            self.valid_in(*old(tree)),
        ensures
            final(tree).wf(),
            final(tree).node_count() == old(tree).node_count(),
            forall|q: int|
                0 <= q < old(tree).node_count() ==> final(tree).path_at(q) == old(tree).path_at(q),
            self.valid_in(*final(tree)),
            r is Some <==> old(tree)@.contains_key(self.path_in(*old(tree))),
            r is Some ==> *r.unwrap() == old(tree)@[self.path_in(*old(tree))] && final(tree)@
                == old(tree)@.insert(self.path_in(*old(tree)), *final(r.unwrap())),
            r is None ==> final(tree)@ == old(tree)@,
    {
        tree.value_at_mut(self.index)
    }

    /// Returns the value at this node (or `None`) without mutable access.
    pub fn value_non_mut<'a, T>(&self, tree: &'a StringTree<T>) -> (r: Option<&'a T>)
        requires
            self.valid_in(*tree),
        ensures
            r == (if tree@.contains_key(self.path_in(*tree)) {
                Some(&tree@[self.path_in(*tree)])
            } else {
                None::<&T>
            }),
    {
        tree.value_at(self.index)
    }

    /// Returns mutable access to the value at this node (or an error).
    ///
    /// The error value is the path of the current node.
    pub fn value_result<'a, T>(&self, tree: &'a mut StringTree<T>) -> (r: Result<
        &'a mut T,
        String,
    >)
        requires
            self.valid_in(*old(tree)),
        ensures
            final(tree).wf(),
            final(tree).node_count() == old(tree).node_count(),
            forall|q: int|
                0 <= q < old(tree).node_count() ==> final(tree).path_at(q) == old(tree).path_at(q),
            self.valid_in(*final(tree)),
            match r {
                Ok(v) => old(tree)@.contains_key(self.path_in(*old(tree))) && *v == old(tree)@[
                    self.path_in(*old(tree))
                ] && final(tree)@ == old(tree)@.insert(self.path_in(*old(tree)), *final(v)),
                Err(s) => !old(tree)@.contains_key(self.path_in(*old(tree))) && final(tree)@ == old(
                    tree,
                )@ && s@ == decode_utf8(self.path_in(*old(tree))),
            },
    {
        let err = self.path(tree);
        match self.value(tree) {
            Some(v) => Ok(v),
            None => Err(err),
        }
    }

    /// Returns the value at this node (or an error) without mutable access.
    ///
    /// The error value is the path of the current node.
    pub fn value_result_non_mut<'a, T>(&self, tree: &'a StringTree<T>) -> (r: Result<
        &'a T,
        String,
    >)
        requires
            self.valid_in(*tree),
        ensures
            match r {
                Ok(v) => tree@.contains_key(self.path_in(*tree)) && v == &tree@[self.path_in(
                    *tree,
                )],
                Err(s) => !tree@.contains_key(self.path_in(*tree)) && s@ == decode_utf8(
                    self.path_in(*tree),
                ),
            },
    {
        match self.value_non_mut(tree) {
            Some(v) => Ok(v),
            None => Err(self.path(tree)),
        }
    }

    /// Creates and returns the string that is needed to reach this node from
    /// the root node.
    pub fn path<T>(&self, tree: &StringTree<T>) -> (r: String)
        requires
            self.valid_in(*tree),
        ensures
            r@ == decode_utf8(self.path_in(*tree)),
            encode_utf8(r@) == self.path_in(*tree),
    {
        let bytes = tree.path_bytes(self.index);
        proof {
            vstd::utf8::decode_utf8_encode_utf8(bytes@);
        }
        match bytes_to_string(&bytes) {
            Some(s) => s,
            None => vstd::pervasive::unreached(),
        }
    }

    /// The logical children of this node, one per whole Unicode character
    /// reachable directly below it, as mutable node references over disjoint
    /// subtrees; same order as the read cursor's enumeration.
    pub fn children<T>(&self, tree: &StringTree<T>) -> (r: IterableCoroutine<StringTreeNodeMut>)
        requires
            self.valid_in(*tree),
        ensures
            ({
                let cs = r.remaining();
                let ids = tree.logical_children(self.node_index());
                &&& cs.len() == ids.len()
                &&& forall|k: int|
                    0 <= k < cs.len() ==> {
                        &&& (#[trigger] cs[k]).valid_in(*tree)
                        &&& cs[k].node_index() == ids[k] as int
                        &&& tree.whole_char_child(self.node_index(), cs[k].node_index())
                    }
            }),
    {
        let ids = tree.child_indices(self.index);
        let mut cs: Vec<StringTreeNodeMut> = Vec::new();
        let mut m: usize = 0;
        while m < ids.len()
            invariant
                self.valid_in(*tree),
                ids@ == tree.logical_children(self.node_index()),
                forall|k: int|
                    0 <= k < ids@.len() ==> tree.whole_char_child(
                        self.node_index(),
                        (#[trigger] ids@[k]) as int,
                    ),
                forall|k: int|
                    0 <= k < ids@.len() ==> crate::text::utf8_prefix(
                        tree.path_at((#[trigger] ids@[k]) as int),
                    ),
                m <= ids@.len(),
                cs@.len() == m,
                forall|k: int|
                    0 <= k < m ==> {
                        &&& (#[trigger] cs@[k]).valid_in(*tree)
                        &&& cs@[k].node_index() == ids@[k] as int
                    },
            decreases ids@.len() - m,
        {
            let c = StringTreeNodeMut { index: ids[m] };
            proof {
                let e = ids@[m as int] as int;
                let p = self.path_in(*tree);
                let s = tree.path_at(e).skip(p.len() as int);
                assert(p + s =~= tree.path_at(e));
                lemma_whole_char_extension(p, s);
                assert(c.valid_in(*tree));
            }
            cs.push(c);
            m = m + 1;
        }
        IterableCoroutine::from_items(cs)
    }

    /// Turns this mutable node reference into a regular node reference.
    pub fn as_ref<'a, T>(&self, tree: &'a StringTree<T>) -> (r: StringTreeNode<'a, T>)
        requires
            self.valid_in(*tree),
        ensures
            r.wf(),
            r.tree() == *tree,
            r.node_index() == self.node_index(),
    {
        let r = StringTreeNode { ref_tree: tree, index: self.index };
        proof {
            r.lemma_repr();
        }
        r
    }
}

impl<T> StringTree<T> {
    /// A write cursor standing on the root node.
    pub fn root_node_mut(&self) -> (r: StringTreeNodeMut)
        requires
            self.wf(),
        ensures
            r.valid_in(*self),
            r.node_index() == 0,
            r.path_in(*self) == Seq::<u8>::empty(),
    {
        proof {
            self.lemma_root_facts();
        }
        StringTreeNodeMut { index: 0 }
    }

    /// Steps further into the tree and returns a mutable node reference (or
    /// `None`).
    pub fn step_mut(&self, key: &str) -> (r: Option<StringTreeNodeMut>)
        requires
            self.wf(),
        ensures
            match r {
                Some(c) => c.valid_in(*self) && c.path_in(*self) == encode_utf8(key@),
                None => !self@.contains_key(encode_utf8(key@)) && forall|i: int|
                    0 <= i < self.node_count() ==> (#[trigger] self.path_at(i)) != encode_utf8(
                        key@,
                    ),
            },
    {
        proof {
            self.lemma_root_facts();
            assert(Seq::<u8>::empty() + encode_utf8(key@) =~= encode_utf8(key@));
        }
        self.root_node_mut().step(self, key)
    }
}

} // verus!
