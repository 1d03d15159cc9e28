//! A trie mapping UTF-8 string keys to values, stored in a flat arena.
//!
//! Every node lives at a dense integer index of one backing vector; index 0
//! is the permanent root and doubles as the "no child" sentinel inside child
//! tables. Each node carries a 256-slot child table (one slot per possible
//! edge byte), a fill count (number of occupied slots), a parent link
//! (parent index plus the edge byte leading here), and an optional value.
//! The child table is kept as a flat 256-entry array: one bounded lookup per
//! key byte, at a fixed one-kilobyte cost per node.
//!
//! The abstract state of the whole structure is a map from byte paths to
//! values ([`StringTree::as_map`]); insertion, lookup and removal are
//! specified as the corresponding operations on that map.

use vstd::prelude::*;
use vstd::map::*;
use vstd::string::StringSliceAdditionalSpecFns;
use vstd::utf8::*;
use crate::count::{
    lemma_nonzero_below_all_zero, lemma_nonzero_below_bounds, lemma_nonzero_below_find,
    lemma_nonzero_below_occupied, lemma_nonzero_below_update, lemma_nonzero_below_vacant,
    nonzero_below,
};
use crate::text::{
    class_complete, lemma_boundary_step, lemma_lex_head, lemma_lex_shift, lemma_prefix_of_prefix,
    lemma_scalar_class_complete, lemma_valid_is_prefix, lex_lt, suffix_lt, utf8_prefix,
};

verus! {

broadcast use vstd::seq::group_seq_axioms;

/// One arena row: child table, fill count, parent link, value slot.
#[derive(Clone)]
pub(crate) struct Node<T> {
    pub(crate) children: Vec<u32>,
    pub(crate) fill: u16,
    pub(crate) parent: u32,
    pub(crate) parent_byte: u8,
    pub(crate) value: Option<T>,
}

/// A [trie](https://en.wikipedia.org/wiki/Trie) that maps strings to values.
///
/// Keys are arbitrary UTF-8 strings; descending one level consumes one key
/// byte. Nodes are created lazily during insertion and reclaimed by
/// swap-remove compaction during removal, so the arena never holds a node
/// that is not needed to reach some value.
///
/// To traverse the tree node by node, call [`StringTree::root_node`] or
/// [`StringTree::root_node_mut`].
#[derive(Clone)]
pub struct StringTree<T> {
    pub(crate) nodes: Vec<Node<T>>,
    pub(crate) paths: Ghost<Seq<Seq<u8>>>,
}

impl<T> StringTree<T> {
    /// Number of nodes currently held by the arena (the root included).
    pub closed spec fn node_count(self) -> nat {
        self.nodes@.len()
    }

    /// The byte path leading from the root to node `i`.
    pub closed spec fn path_at(self, i: int) -> Seq<u8> {
        self.paths@[i]
    }

    /// Child table entry of node `i` at edge byte `b` (0 means absent).
    spec fn child_at(self, i: int, b: int) -> int {
        self.nodes@[i].children@[b] as int
    }

    /// Lengths and the root's place: the root always exists at index 0 with
    /// the empty path, indices fit in `u32`, the path table mirrors the node
    /// table, and every child table has one slot per possible byte.
    spec fn wf_base(self) -> bool {
        &&& 1 <= self.nodes@.len() <= u32::MAX
        &&& self.paths@.len() == self.nodes@.len()
        &&& self.paths@[0] == Seq::<u8>::empty()
        &&& forall|i: int|
            0 <= i < self.nodes@.len() ==> (#[trigger] self.nodes@[i]).children@.len() == 256
    }

    /// An occupied child slot points at a real, non-root node whose recorded
    /// edge byte and path extend the parent's.
    spec fn edge_target_ok(self, i: int, b: int) -> bool {
        let c = self.child_at(i, b);
        c != 0 ==> {
            &&& 0 < c < self.nodes@.len()
            &&& self.nodes@[c].parent_byte as int == b
            &&& self.paths@[c] == self.paths@[i].push(b as u8)
        }
    }

    /// An occupied child slot is acknowledged by the child's parent link.
    spec fn edge_backlink_ok(self, i: int, b: int) -> bool {
        let c = self.child_at(i, b);
        c != 0 ==> self.nodes@[c].parent as int == i
    }

    /// A non-root node's parent link leads to a node whose child table points
    /// back at it.
    spec fn parent_ok(self, i: int) -> bool {
        let p = self.nodes@[i].parent as int;
        &&& 0 <= p < self.nodes@.len()
        &&& self.child_at(p, self.nodes@[i].parent_byte as int) == i
    }

    /// The stored fill count equals the number of occupied child slots.
    spec fn fill_ok(self, i: int) -> bool {
        self.nodes@[i].fill as int == nonzero_below(self.nodes@[i].children@, 256)
    }

    /// No two nodes share a path.
    spec fn inj_ok(self) -> bool {
        forall|i: int, j: int|
            #![trigger self.paths@[i], self.paths@[j]]
            0 <= i < j < self.nodes@.len() ==> self.paths@[i] != self.paths@[j]
    }

    /// Every stored path can be completed to valid UTF-8.
    spec fn paths_utf8_ok(self) -> bool {
        forall|i: int| 0 <= i < self.nodes@.len() ==> utf8_prefix(#[trigger] self.paths@[i])
    }

    /// Node `i` is still needed: it has a child or holds a value.
    spec fn live_ok(self, i: int) -> bool {
        self.nodes@[i].fill != 0 || self.nodes@[i].value is Some
    }

    /// The structural invariant: consistent tables in both directions,
    /// accurate fill counts, and distinct UTF-8-prefix paths.
    spec fn wf_core(self) -> bool {
        &&& self.wf_base()
        &&& forall|i: int, b: int|
            0 <= i < self.nodes@.len() && 0 <= b < 256 ==> #[trigger] self.edge_target_ok(i, b)
        &&& forall|i: int, b: int|
            0 <= i < self.nodes@.len() && 0 <= b < 256 ==> #[trigger] self.edge_backlink_ok(i, b)
        &&& forall|i: int| 1 <= i < self.nodes@.len() ==> #[trigger] self.parent_ok(i)
        &&& forall|i: int| 0 <= i < self.nodes@.len() ==> #[trigger] self.fill_ok(i)
        &&& self.inj_ok()
        &&& self.paths_utf8_ok()
    }

    /// No reclaimable node is left behind: every non-root node has a child or
    /// a value.
    spec fn tidy(self) -> bool {
        forall|i: int| 1 <= i < self.nodes@.len() ==> #[trigger] self.live_ok(i)
    }

    /// Values sit only on whole keys: a node holding a value has a path
    /// that is valid UTF-8 outright, not merely completable.
    spec fn valued_ok(self) -> bool {
        forall|i: int|
            0 <= i < self.nodes@.len() && (#[trigger] self.nodes@[i]).value is Some
                ==> valid_utf8(self.paths@[i])
    }

    /// Well-formedness: established by every constructor and preserved by
    /// every public operation.
    pub closed spec fn wf(self) -> bool {
        self.wf_core() && self.tidy() && self.valued_ok()
    }

    /// Spec-level descent: follow `key` byte by byte from node `i`; `None`
    /// the moment a child slot is empty.
    spec fn locate_from(self, i: int, key: Seq<u8>) -> Option<int>
        decreases key.len(),
    {
        if key.len() <= 0 {
            Some(i)
        } else {
            let c = self.child_at(i, key[0] as int);
            if c == 0 {
                None
            } else {
                self.locate_from(c, key.skip(1))
            }
        }
    }

    /// The tree as the map it represents: a byte path is bound to a value
    /// exactly when descending it from the root lands on a node holding one.
    pub closed spec fn as_map(self) -> Map<Seq<u8>, T> {
        Map::new(
            |k: Seq<u8>|
                match self.locate_from(0, k) {
                    Some(j) => self.nodes@[j].value is Some,
                    None => false,
                },
            |k: Seq<u8>|
                match self.locate_from(0, k) {
                    Some(j) => self.nodes@[j].value->0,
                    None => arbitrary(),
                },
        )
    }
}

impl<T> StringTree<T> {
    /// A successful descent lands on a node whose path extends the start
    /// node's path by exactly the key.
    proof fn lemma_locate_sound(self, i: int, key: Seq<u8>)
        requires
            self.wf_core(),
            0 <= i < self.nodes@.len(),
        ensures
            match self.locate_from(i, key) {
                Some(j) => 0 <= j < self.nodes@.len() && self.paths@[j] == self.paths@[i] + key,
                None => true,
            },
        decreases key.len(),
    {
        if key.len() == 0 {
            assert(self.paths@[i] + key =~= self.paths@[i]);
        } else {
            let b = key[0] as int;
            assert(self.edge_target_ok(i, b));
            let c = self.child_at(i, b);
            if c != 0 {
                self.lemma_locate_sound(c, key.skip(1));
                match self.locate_from(c, key.skip(1)) {
                    Some(j) => {
                        assert(self.paths@[i].push(key[0]) + key.skip(1) =~= self.paths@[i] + key);
                    },
                    None => {},
                }
            }
        }
    }

    /// If node `j` lies strictly below node `i`, then the next byte of `j`'s
    /// path is an occupied child slot of `i`.
    proof fn lemma_step_exists(self, i: int, j: int)
        requires
            self.wf_core(),
            0 <= i < self.nodes@.len(),
            0 <= j < self.nodes@.len(),
            self.paths@[i].len() < self.paths@[j].len(),
            self.paths@[i] == self.paths@[j].take(self.paths@[i].len() as int),
        ensures
            self.child_at(i, self.paths@[j][self.paths@[i].len() as int] as int) != 0,
        decreases self.paths@[j].len(),
    {
        let pi = self.paths@[i];
        let pj = self.paths@[j];
        assert(j != 0);
        assert(self.parent_ok(j));
        let p = self.nodes@[j].parent as int;
        let pb = self.nodes@[j].parent_byte as int;
        assert(self.edge_target_ok(p, pb));
        let pp = self.paths@[p];
        assert(pj == pp.push(pb as u8));
        if pp.len() == pi.len() {
            assert(pp =~= pi);
            assert(i == p);
            assert(pj[pi.len() as int] == pb as u8);
        } else {
            assert(pi.len() < pp.len());
            assert(pi =~= pp.take(pi.len() as int));
            self.lemma_step_exists(i, p);
            assert(pp[pi.len() as int] == pj[pi.len() as int]);
        }
    }

    /// Descent is complete: if some node's path is the start node's path
    /// plus the key, descending the key finds exactly that node.
    proof fn lemma_locate_complete(self, i: int, key: Seq<u8>, j: int)
        requires
            self.wf_core(),
            0 <= i < self.nodes@.len(),
            0 <= j < self.nodes@.len(),
            self.paths@[j] == self.paths@[i] + key,
        ensures
            self.locate_from(i, key) == Some(j),
        decreases key.len(),
    {
        if key.len() == 0 {
            assert(self.paths@[i] + key =~= self.paths@[i]);
            if i != j {
                assert(self.paths@[i] != self.paths@[j]);
                assert(false);
            }
        } else {
            let b = key[0] as int;
            assert(self.paths@[i] =~= self.paths@[j].take(self.paths@[i].len() as int));
            assert(self.paths@[j][self.paths@[i].len() as int] == key[0]);
            self.lemma_step_exists(i, j);
            let c = self.child_at(i, b);
            assert(self.edge_target_ok(i, b));
            assert(self.paths@[j] =~= self.paths@[c] + key.skip(1));
            self.lemma_locate_complete(c, key.skip(1), j);
        }
    }

    /// The map holds node `j`'s path exactly when node `j` holds a value,
    /// and then binds it to that value.
    proof fn lemma_view_at(self, j: int)
        requires
            self.wf_core(),
            0 <= j < self.nodes@.len(),
        ensures
            self.as_map().contains_key(self.paths@[j]) == (self.nodes@[j].value is Some),
            self.nodes@[j].value is Some ==> self.as_map()[self.paths@[j]] == self.nodes@[
                j
            ].value->0,
    {
        assert(self.paths@[j] =~= self.paths@[0] + self.paths@[j]);
        self.lemma_locate_complete(0, self.paths@[j], j);
    }

    /// The root always exists, at index 0, with the empty (vacuously valid
    /// UTF-8) path.
    pub(crate) proof fn lemma_root_facts(self)
        requires
            self.wf(),
        ensures
            self.path_at(0) == Seq::<u8>::empty(),
            self.node_count() >= 1,
            valid_utf8(self.path_at(0)),
    {
    }

    /// Every bound key is materialized: some node sits on exactly that
    /// path, so stepping to a bound key always succeeds.
    pub proof fn lemma_bound_key_has_node(self, k: Seq<u8>)
        requires
            self.wf(),
            self@.contains_key(k),
        ensures
            exists|i: int| 0 <= i < self.node_count() && (#[trigger] self.path_at(i)) == k,
    {
        self.lemma_view_member(k);
        let j = choose|j: int|
            0 <= j < self.nodes@.len() && (#[trigger] self.paths@[j]) == k && self.nodes@[
                j
            ].value is Some && self.as_map()[k] == self.nodes@[j].value->0;
        assert(self.path_at(j) == k);
    }

    /// Every key bound in the map is valid UTF-8 outright: values sit only
    /// on whole string keys, never on an intermediate continuation node.
    pub proof fn lemma_bound_keys_valid_utf8(self, k: Seq<u8>)
        requires
            self.wf(),
            self@.contains_key(k),
        ensures
            valid_utf8(k),
    {
        self.lemma_view_member(k);
        let j = choose|j: int|
            0 <= j < self.nodes@.len() && (#[trigger] self.paths@[j]) == k && self.nodes@[
                j
            ].value is Some && self.as_map()[k] == self.nodes@[j].value->0;
        assert(valid_utf8(self.paths@[j]));
    }

    /// Every prefix of a bound key is materialized too: the nodes along a
    /// bound key's path all exist, so stepping to any interior node of a
    /// bound key succeeds.
    pub proof fn lemma_bound_key_prefix_has_node(self, k: Seq<u8>, m: int)
        requires
            self.wf(),
            self@.contains_key(k),
            0 <= m <= k.len(),
        ensures
            exists|i: int|
                0 <= i < self.node_count() && (#[trigger] self.path_at(i)) == k.take(m),
    {
        self.lemma_view_member(k);
        let e = choose|e: int|
            0 <= e < self.nodes@.len() && (#[trigger] self.paths@[e]) == k && self.nodes@[
                e
            ].value is Some && self.as_map()[k] == self.nodes@[e].value->0;
        if m == k.len() {
            assert(self.path_at(e) =~= k.take(m));
        } else if m == 0 {
            assert(self.path_at(0) =~= k.take(m));
        } else {
            assert(self.paths@[0int] == self.paths@[e].take(0));
            let a = self.lemma_ancestor_at(0, e, m);
            assert(self.path_at(a) == k.take(m));
        }
    }

    /// Walking down a bound key one whole character at a time always moves
    /// through the child enumeration: at every character boundary `m` of the
    /// key, the node on the key's first `m` bytes exists and its successor
    /// one scalar further is among its logical children. Iterating this from
    /// the root reaches the node holding the key's value, so a full
    /// children-driven traversal meets every bound key.
    pub proof fn lemma_key_step_enumerated(self, k: Seq<u8>, m: int)
        requires
            self.wf(),
            self@.contains_key(k),
            0 <= m < k.len(),
            is_char_boundary(k, m),
        ensures
            valid_first_scalar(k.skip(m)),
            m + length_of_first_scalar(k.skip(m)) <= k.len(),
            is_char_boundary(k, m + length_of_first_scalar(k.skip(m))),
            exists|a: int, b: int|
                {
                    let sl = length_of_first_scalar(k.skip(m));
                    &&& 0 <= a < self.node_count()
                    &&& 0 <= b < self.node_count()
                    &&& (#[trigger] self.path_at(a)) == k.take(m)
                    &&& (#[trigger] self.path_at(b)) == k.take(m + sl)
                    &&& self.whole_char_child(a, b)
                    &&& self.logical_children(a).contains(b as u32)
                },
    {
        self.lemma_bound_keys_valid_utf8(k);
        lemma_boundary_step(k, m);
        let sl = length_of_first_scalar(k.skip(m));
        self.lemma_bound_key_prefix_has_node(k, m);
        self.lemma_bound_key_prefix_has_node(k, m + sl);
        let a = choose|a: int|
            0 <= a < self.node_count() && (#[trigger] self.path_at(a)) == k.take(m);
        let b = choose|b: int|
            0 <= b < self.node_count() && (#[trigger] self.path_at(b)) == k.take(m + sl);
        assert(self.whole_char_child(a, b)) by {
            assert(self.paths@[a].len() == m);
            assert(self.paths@[b].len() == m + sl);
            assert(1 <= sl <= 4);
            assert(self.paths@[b].take(m) =~= self.paths@[a]);
            let s = self.paths@[b].skip(m);
            assert(s =~= k.skip(m).take(sl as int));
            assert(class_complete(s)) by {
                assert(forall|j: int| 0 <= j < sl ==> s[j] == (#[trigger] k.skip(m)[j]));
                assert(valid_first_scalar(s)) by {
                    assert(valid_leading_and_continuation_bytes_first_codepoint(s));
                    assert(decode_first_codepoint(s) == decode_first_codepoint(k.skip(m)));
                    assert(length_of_first_codepoint(s) == length_of_first_codepoint(k.skip(m)));
                }
                assert(length_of_first_scalar(s) == sl);
                lemma_scalar_class_complete(s);
            }
        }
        self.lemma_children_complete(a, b);
    }

    /// A path on which no node sits is not bound in the map.
    pub(crate) proof fn lemma_no_node_no_key(self, k: Seq<u8>)
        requires
            self.wf(),
            forall|i: int| 0 <= i < self.node_count() ==> (#[trigger] self.path_at(i)) != k,
        ensures
            !self@.contains_key(k),
    {
        if self@.contains_key(k) {
            self.lemma_view_member(k);
            let j = choose|j: int|
                0 <= j < self.nodes@.len() && (#[trigger] self.paths@[j]) == k && self.nodes@[
                    j
                ].value is Some && self.as_map()[k] == self.nodes@[j].value->0;
            assert(self.path_at(j) != k);
            assert(false);
        }
    }

    /// Every key of the map is witnessed by a node with that path holding
    /// the bound value.
    proof fn lemma_view_member(self, k: Seq<u8>)
        requires
            self.wf_core(),
        ensures
            self.as_map().contains_key(k) ==> exists|j: int|
                0 <= j < self.nodes@.len() && (#[trigger] self.paths@[j]) == k && self.nodes@[
                    j
                ].value is Some && self.as_map()[k] == self.nodes@[j].value->0,
    {
        if self.as_map().contains_key(k) {
            let j = self.locate_from(0, k)->0;
            self.lemma_locate_sound(0, k);
            assert(self.paths@[0] + k =~= k);
            assert(self.paths@[j] == k);
        }
    }

    /// Two well-formed arenas whose valued nodes carry the same paths and
    /// values represent the same map, regardless of node numbering.
    #[verifier::rlimit(50)]
    proof fn lemma_same_values_same_map(a: Self, b: Self)
        requires
            a.wf_core(),
            b.wf_core(),
            forall|j: int|
                0 <= j < a.nodes@.len() && (#[trigger] a.nodes@[j]).value is Some ==> exists|
                j2: int,
            |
                    0 <= j2 < b.nodes@.len() && (#[trigger] b.paths@[j2]) == a.paths@[j]
                        && b.nodes@[j2].value == a.nodes@[j].value,
            forall|j: int|
                0 <= j < b.nodes@.len() && (#[trigger] b.nodes@[j]).value is Some ==> exists|
                j2: int,
            |
                    0 <= j2 < a.nodes@.len() && (#[trigger] a.paths@[j2]) == b.paths@[j]
                        && a.nodes@[j2].value == b.nodes@[j].value,
        ensures
            a.as_map() == b.as_map(),
    {
        assert_maps_equal!(a.as_map(), b.as_map(), k => {
            if a.as_map().contains_key(k) {
                a.lemma_view_member(k);
                let j = choose|j: int|
                    0 <= j < a.nodes@.len() && (#[trigger] a.paths@[j]) == k && a.nodes@[
                        j
                    ].value is Some && a.as_map()[k] == a.nodes@[j].value->0;
                let j2 = choose|j2: int|
                    0 <= j2 < b.nodes@.len() && (#[trigger] b.paths@[j2]) == a.paths@[j]
                        && b.nodes@[j2].value == a.nodes@[j].value;
                b.lemma_view_at(j2);
            }
            if b.as_map().contains_key(k) {
                b.lemma_view_member(k);
                let j = choose|j: int|
                    0 <= j < b.nodes@.len() && (#[trigger] b.paths@[j]) == k && b.nodes@[
                        j
                    ].value is Some && b.as_map()[k] == b.nodes@[j].value->0;
                let j2 = choose|j2: int|
                    0 <= j2 < a.nodes@.len() && (#[trigger] a.paths@[j2]) == b.paths@[j]
                        && a.nodes@[j2].value == b.nodes@[j].value;
                a.lemma_view_at(j2);
            }
        });
    }
}

/// Two equal pushes have equal stems and equal last elements.
proof fn lemma_push_injective(s1: Seq<u8>, x1: u8, s2: Seq<u8>, x2: u8)
    requires
        s1.push(x1) == s2.push(x2),
    ensures
        s1 == s2,
        x1 == x2,
{
    assert(s1.push(x1).len() == s1.len() + 1);
    assert(s2.push(x2).len() == s2.len() + 1);
    assert(s1.len() == s2.len());
    assert(s1 =~= s2) by {
        assert forall|m: int| 0 <= m < s1.len() implies s1[m] == s2[m] by {
            assert(s1.push(x1)[m] == s1[m]);
            assert(s2.push(x2)[m] == s2[m]);
        }
    }
    assert(s1.push(x1)[s1.len() as int] == s2.push(x2)[s2.len() as int]);
}

impl<T> StringTree<T> {
    /// Changing only values (not tables, links or paths) preserves the
    /// structural invariant.
    proof fn lemma_same_shape_wf_core(pre: Self, post: Self)
        requires
            pre.wf_core(),
            post.paths@ == pre.paths@,
            post.nodes@.len() == pre.nodes@.len(),
            forall|i: int|
                0 <= i < pre.nodes@.len() ==> {
                    &&& (#[trigger] post.nodes@[i]).children == pre.nodes@[i].children
                    &&& post.nodes@[i].fill == pre.nodes@[i].fill
                    &&& post.nodes@[i].parent == pre.nodes@[i].parent
                    &&& post.nodes@[i].parent_byte == pre.nodes@[i].parent_byte
                },
        ensures
            post.wf_core(),
    {
        assert forall|i: int|
            0 <= i < post.nodes@.len() implies (#[trigger] post.nodes@[i]).children@.len()
            == 256 by {
            assert(pre.nodes@[i].children@.len() == 256);
        }
        assert forall|i: int, b: int|
            0 <= i < post.nodes@.len() && 0 <= b < 256 implies #[trigger] post.edge_target_ok(
            i,
            b,
        ) by {
            assert(pre.edge_target_ok(i, b));
        }
        assert forall|i: int, b: int|
            0 <= i < post.nodes@.len() && 0 <= b < 256 implies #[trigger] post.edge_backlink_ok(
            i,
            b,
        ) by {
            assert(pre.edge_backlink_ok(i, b));
            assert(pre.edge_target_ok(i, b));
            assert(post.nodes@[i].children == pre.nodes@[i].children);
            let c = pre.child_at(i, b);
            if c != 0 {
                assert(post.nodes@[c].parent == pre.nodes@[c].parent);
            }
        }
        assert forall|i: int| 1 <= i < post.nodes@.len() implies #[trigger] post.parent_ok(i) by {
            assert(pre.parent_ok(i));
        }
        assert forall|i: int| 0 <= i < post.nodes@.len() implies #[trigger] post.fill_ok(i) by {
            assert(pre.fill_ok(i));
            assert(post.nodes@[i].fill == pre.nodes@[i].fill);
            assert(post.nodes@[i].children == pre.nodes@[i].children);
        }
        assert forall|i: int| 0 <= i < post.nodes@.len() implies utf8_prefix(
            #[trigger] post.paths@[i],
        ) by {
            assert(utf8_prefix(pre.paths@[i]));
        }
        assert(post.inj_ok()) by {
            assert forall|i: int, j: int|
                #![trigger post.paths@[i], post.paths@[j]]
                0 <= i < j < post.nodes@.len() implies post.paths@[i] != post.paths@[j] by {
                assert(pre.paths@[i] != pre.paths@[j]);
            }
        }
    }

    /// Placing a value on node `j` turns the map into `insert` of `j`'s path.
    proof fn lemma_value_set_view(pre: Self, post: Self, j: int, v: T)
        requires
            pre.wf_core(),
            post.wf_core(),
            post.paths@ == pre.paths@,
            post.nodes@.len() == pre.nodes@.len(),
            0 <= j < pre.nodes@.len(),
            post.nodes@[j].value == Some(v),
            forall|q: int|
                0 <= q < pre.nodes@.len() && q != j ==> (#[trigger] post.nodes@[q]).value
                    == pre.nodes@[q].value,
        ensures
            post.as_map() == pre.as_map().insert(pre.paths@[j], v),
    {
        assert_maps_equal!(post.as_map(), pre.as_map().insert(pre.paths@[j], v), k => {
            if k == pre.paths@[j] {
                post.lemma_view_at(j);
            } else {
                if post.as_map().contains_key(k) {
                    post.lemma_view_member(k);
                    let q = choose|q: int|
                        0 <= q < post.nodes@.len() && (#[trigger] post.paths@[q]) == k
                            && post.nodes@[q].value is Some && post.as_map()[k] == post.nodes@[
                            q
                        ].value->0;
                    pre.lemma_view_at(q);
                }
                if pre.as_map().contains_key(k) {
                    pre.lemma_view_member(k);
                    let q = choose|q: int|
                        0 <= q < pre.nodes@.len() && (#[trigger] pre.paths@[q]) == k && pre.nodes@[
                            q
                        ].value is Some && pre.as_map()[k] == pre.nodes@[q].value->0;
                    post.lemma_view_at(q);
                }
            }
        });
    }

    /// Clearing the value of node `j` turns the map into `remove` of `j`'s
    /// path.
    proof fn lemma_value_clear_view(pre: Self, post: Self, j: int)
        requires
            pre.wf_core(),
            post.wf_core(),
            post.paths@ == pre.paths@,
            post.nodes@.len() == pre.nodes@.len(),
            0 <= j < pre.nodes@.len(),
            post.nodes@[j].value is None,
            forall|q: int|
                0 <= q < pre.nodes@.len() && q != j ==> (#[trigger] post.nodes@[q]).value
                    == pre.nodes@[q].value,
        ensures
            post.as_map() == pre.as_map().remove(pre.paths@[j]),
    {
        assert_maps_equal!(post.as_map(), pre.as_map().remove(pre.paths@[j]), k => {
            if k == pre.paths@[j] {
                post.lemma_view_at(j);
            } else {
                if post.as_map().contains_key(k) {
                    post.lemma_view_member(k);
                    let q = choose|q: int|
                        0 <= q < post.nodes@.len() && (#[trigger] post.paths@[q]) == k
                            && post.nodes@[q].value is Some && post.as_map()[k] == post.nodes@[
                            q
                        ].value->0;
                    pre.lemma_view_at(q);
                }
                if pre.as_map().contains_key(k) {
                    pre.lemma_view_member(k);
                    let q = choose|q: int|
                        0 <= q < pre.nodes@.len() && (#[trigger] pre.paths@[q]) == k && pre.nodes@[
                            q
                        ].value is Some && pre.as_map()[k] == pre.nodes@[q].value->0;
                    post.lemma_view_at(q);
                }
            }
        });
    }
}

impl<T> StringTree<T> {
    /// Byte-at-a-time descent from node `start`: follows each key byte and
    /// reports the reached node, or `None` the moment a child slot is empty
    /// (and then no node of the arena sits on the requested path).
    pub(crate) fn find_at(&self, start: u32, key: &[u8]) -> (r: Option<u32>)
        requires
            self.wf(),
            (start as int) < self.node_count(),
        ensures
            match r {
                Some(j) => (j as int) < self.node_count() && self.path_at(j as int) == self.path_at(
                    start as int,
                ) + key@,
                None => forall|i: int|
                    0 <= i < self.node_count() ==> self.path_at(i) != self.path_at(start as int)
                        + key@,
            },
    {
        let ghost full = self.paths@[start as int] + key@;
        let mut cur: u32 = start;
        let mut i: usize = 0;
        while i < key.len()
            invariant
                self.wf(),
                (start as int) < self.nodes@.len(),
                (cur as int) < self.nodes@.len(),
                i <= key@.len(),
                self.paths@[cur as int] == self.paths@[start as int] + key@.take(i as int),
                full == self.paths@[start as int] + key@,
            decreases key@.len() - i,
        {
            let b = key[i];
            let c = self.nodes[cur as usize].children[b as usize];
            if c == 0 {
                proof {
                    assert forall|j: int| 0 <= j < self.nodes@.len() implies self.paths@[j]
                        != full by {
                        if self.paths@[j] == full {
                            assert(self.paths@[cur as int] =~= self.paths@[j].take(
                                self.paths@[cur as int].len() as int,
                            ));
                            assert(self.paths@[j][self.paths@[cur as int].len() as int] == key@[
                                i as int
                            ]);
                            self.lemma_step_exists(cur as int, j);
                        }
                    }
                }
                return None;
            }
            proof {
                assert(self.edge_target_ok(cur as int, b as int));
                assert(self.paths@[c as int] =~= self.paths@[start as int] + key@.take(
                    i as int + 1,
                ));
            }
            cur = c;
            i = i + 1;
        }
        proof {
            assert(key@.take(key@.len() as int) =~= key@);
        }
        Some(cur)
    }

    /// The value stored at node `j`, read through the map view: present
    /// exactly when the node's path is bound in the map.
    pub(crate) fn value_at(&self, j: u32) -> (r: Option<&T>)
        requires
            self.wf(),
            (j as int) < self.node_count(),
        ensures
            r == (if self@.contains_key(self.path_at(j as int)) {
                Some(&self@[self.path_at(j as int)])
            } else {
                None::<&T>
            }),
    {
        proof {
            self.lemma_view_at(j as int);
        }
        self.nodes[j as usize].value.as_ref()
    }

    /// Lookup below node `start`: the value bound to the start node's path
    /// extended by `key`, if any.
    pub(crate) fn get_at(&self, start: u32, key: &[u8]) -> (r: Option<&T>)
        requires
            self.wf(),
            (start as int) < self.node_count(),
        ensures
            r == (if self@.contains_key(self.path_at(start as int) + key@) {
                Some(&self@[self.path_at(start as int) + key@])
            } else {
                None::<&T>
            }),
    {
        match self.find_at(start, key) {
            Some(j) => self.value_at(j),
            None => {
                proof {
                    let k = self.paths@[start as int] + key@;
                    if self@.contains_key(k) {
                        self.lemma_view_member(k);
                        let j = choose|j: int|
                            0 <= j < self.nodes@.len() && (#[trigger] self.paths@[j]) == k
                                && self.nodes@[j].value is Some && self.as_map()[k] == self.nodes@[
                                j
                            ].value->0;
                        assert(self.path_at(j) != k);
                        assert(false);
                    }
                }
                None
            },
        }
    }
}

/// One allocation step of insertion: node `cur` gained a fresh child at its
/// empty slot `b`, appended at the end of the arena. The invariant survives,
/// and since the new node carries no value, the represented map is unchanged.
proof fn lemma_set_at_link_step<T>(pre: StringTree<T>, post: StringTree<T>, cur: int, b: int)
    requires
        pre.wf_core(),
        0 <= cur < pre.nodes@.len(),
        0 <= b < 256,
        pre.nodes@.len() + 1 <= u32::MAX,
        pre.child_at(cur, b) == 0,
        forall|q: int| 1 <= q < pre.nodes@.len() && q != cur ==> #[trigger] pre.live_ok(q),
        post.nodes@.len() == pre.nodes@.len() + 1,
        post.paths@ == pre.paths@.push(pre.paths@[cur].push(b as u8)),
        utf8_prefix(pre.paths@[cur].push(b as u8)),
        post.nodes@[cur].children@ == pre.nodes@[cur].children@.update(
            b,
            pre.nodes@.len() as u32,
        ),
        post.nodes@[cur].fill == pre.nodes@[cur].fill + 1,
        post.nodes@[cur].parent == pre.nodes@[cur].parent,
        post.nodes@[cur].parent_byte == pre.nodes@[cur].parent_byte,
        post.nodes@[cur].value == pre.nodes@[cur].value,
        forall|q: int|
            0 <= q < pre.nodes@.len() && q != cur ==> post.nodes@[q] == (#[trigger] pre.nodes@[q]),
        post.nodes@[pre.nodes@.len() as int].children@.len() == 256,
        forall|b2: int|
            0 <= b2 < 256 ==> post.nodes@[pre.nodes@.len() as int].children@[b2] == 0,
        post.nodes@[pre.nodes@.len() as int].fill == 0,
        post.nodes@[pre.nodes@.len() as int].parent == cur as u32,
        post.nodes@[pre.nodes@.len() as int].parent_byte == b as u8,
        post.nodes@[pre.nodes@.len() as int].value is None,
    ensures
        post.wf_core(),
        forall|q: int|
            1 <= q < post.nodes@.len() && q != pre.nodes@.len() ==> #[trigger] post.live_ok(q),
        post.as_map() == pre.as_map(),
        post.child_at(cur, b) == pre.nodes@.len(),
{
    let n = pre.nodes@.len() as int;
    let new = n;
    let np = pre.paths@[cur].push(b as u8);
    assert(post.paths@[new] == np);
    assert(forall|q: int| 0 <= q < n ==> post.paths@[q] == (#[trigger] pre.paths@[q]));
    // No existing node already sits on the new path.
    assert forall|q: int| 0 <= q < n implies pre.paths@[q] != np by {
        if pre.paths@[q] == np {
            assert(np.len() == pre.paths@[cur].len() + 1);
            assert(q != 0);
            assert(pre.parent_ok(q));
            let p = pre.nodes@[q].parent as int;
            let pb = pre.nodes@[q].parent_byte as int;
            assert(pre.edge_target_ok(p, pb));
            assert(pre.paths@[q] == pre.paths@[p].push(pb as u8));
            lemma_push_injective(pre.paths@[p], pb as u8, pre.paths@[cur], b as u8);
            assert(pre.paths@[p] == pre.paths@[cur]);
            if p != cur {
                assert(pre.paths@[p] != pre.paths@[cur]);
            }
            assert(p == cur);
            assert(pre.child_at(cur, b) == q);
            assert(false);
        }
    }
    assert forall|i2: int|
        0 <= i2 < post.nodes@.len() implies (#[trigger] post.nodes@[i2]).children@.len() == 256 by {
        if i2 != new {
            assert(pre.nodes@[i2].children@.len() == 256);
        }
    }
    assert forall|i2: int, b2: int|
        0 <= i2 < post.nodes@.len() && 0 <= b2 < 256 implies #[trigger] post.edge_target_ok(
        i2,
        b2,
    ) by {
        if i2 == new {
            assert(post.nodes@[i2].children@[b2] == 0);
        } else {
            assert(pre.edge_target_ok(i2, b2));
            if i2 == cur && b2 == b {
                let c = post.child_at(i2, b2);
                assert(c == new);
                assert(post.paths@[new] == post.paths@[cur].push(b as u8));
            } else {
                let c = post.child_at(i2, b2);
                assert(c == pre.child_at(i2, b2));
                if c != 0 {
                    assert(c < n);
                    if c != cur {
                        assert(post.nodes@[c] == pre.nodes@[c]);
                    }
                }
            }
        }
    }
    assert forall|i2: int, b2: int|
        0 <= i2 < post.nodes@.len() && 0 <= b2 < 256 implies #[trigger] post.edge_backlink_ok(
        i2,
        b2,
    ) by {
        if i2 == new {
            assert(post.nodes@[i2].children@[b2] == 0);
        } else {
            assert(pre.edge_target_ok(i2, b2));
            assert(pre.edge_backlink_ok(i2, b2));
            if i2 == cur && b2 == b {
                assert(post.child_at(i2, b2) == new);
            } else {
                let c = post.child_at(i2, b2);
                assert(c == pre.child_at(i2, b2));
                if c != 0 {
                    assert(c < n);
                    if c != cur {
                        assert(post.nodes@[c] == pre.nodes@[c]);
                    }
                }
            }
        }
    }
    assert forall|q: int| 1 <= q < post.nodes@.len() implies #[trigger] post.parent_ok(q) by {
        if q == new {
            assert(post.child_at(cur, b) == new);
        } else {
            assert(pre.parent_ok(q));
            let p = pre.nodes@[q].parent as int;
            let pb = pre.nodes@[q].parent_byte as int;
            assert(pre.child_at(p, pb) == q);
            if p == cur && pb == b {
                assert(false);
            }
            assert(post.child_at(p, pb) == q);
        }
    }
    assert forall|q: int| 0 <= q < post.nodes@.len() implies #[trigger] post.fill_ok(q) by {
        if q == new {
            lemma_zero_count_below(post.nodes@[new].children@, 256);
        } else if q == cur {
            assert(pre.fill_ok(cur));
            lemma_nonzero_below_update(pre.nodes@[cur].children@, 256, b, n as u32);
        } else {
            assert(pre.fill_ok(q));
            assert(post.nodes@[q] == pre.nodes@[q]);
        }
    }
    assert(post.inj_ok()) by {
        assert forall|q1: int, q2: int|
            #![trigger post.paths@[q1], post.paths@[q2]]
            0 <= q1 < q2 < post.nodes@.len() implies post.paths@[q1] != post.paths@[q2] by {
            if q2 == new {
                assert(post.paths@[q1] == pre.paths@[q1]);
            } else {
                assert(pre.paths@[q1] != pre.paths@[q2]);
            }
        }
    }
    assert forall|q: int| 0 <= q < post.nodes@.len() implies utf8_prefix(
        #[trigger] post.paths@[q],
    ) by {
        if q != new {
            assert(utf8_prefix(pre.paths@[q]));
        }
    }
    assert forall|q: int|
        1 <= q < post.nodes@.len() && q != new implies #[trigger] post.live_ok(q) by {
        if q == cur {
            assert(post.nodes@[cur].fill != 0);
        } else {
            assert(pre.live_ok(q));
            assert(post.nodes@[q] == pre.nodes@[q]);
        }
    }
    assert(post.paths@.len() == post.nodes@.len());
    assert(post.paths@[0] == pre.paths@[0]);
    assert(post.wf_base());
    assert(post.inj_ok());
    assert(post.paths_utf8_ok());
    assert(post.wf_core());
    assert forall|j: int|
        0 <= j < pre.nodes@.len() && (#[trigger] pre.nodes@[j]).value is Some implies exists|
        j2: int,
    |
        0 <= j2 < post.nodes@.len() && (#[trigger] post.paths@[j2]) == pre.paths@[j]
            && post.nodes@[j2].value == pre.nodes@[j].value by {
        assert(post.paths@[j] == pre.paths@[j]);
        assert(post.nodes@[j].value == pre.nodes@[j].value);
    }
    assert forall|j: int|
        0 <= j < post.nodes@.len() && (#[trigger] post.nodes@[j]).value is Some implies exists|
        j2: int,
    |
        0 <= j2 < pre.nodes@.len() && (#[trigger] pre.paths@[j2]) == post.paths@[j]
            && pre.nodes@[j2].value == post.nodes@[j].value by {
        assert(j != new);
        assert(pre.paths@[j] == post.paths@[j]);
        assert(pre.nodes@[j].value == post.nodes@[j].value);
    }
    StringTree::lemma_same_values_same_map(pre, post);
}

impl<T> StringTree<T> {
    /// Follows key bytes from `start` as far as existing edges allow, and
    /// reports the last node reached together with how many bytes matched.
    fn descend_prefix(&self, start: u32, key: &[u8]) -> (r: (u32, usize))
        requires
            self.wf(),
            (start as int) < self.node_count(),
        ensures
            ({
                let (cur, i) = r;
                &&& i <= key@.len()
                &&& (cur as int) < self.node_count()
                &&& self.path_at(cur as int) == self.path_at(start as int) + key@.take(i as int)
                &&& (i < key@.len() ==> self.child_at(cur as int, key@[i as int] as int) == 0)
            }),
    {
        let mut cur: u32 = start;
        let mut i: usize = 0;
        while i < key.len()
            invariant
                self.wf(),
                (start as int) < self.nodes@.len(),
                (cur as int) < self.nodes@.len(),
                i <= key@.len(),
                self.paths@[cur as int] == self.paths@[start as int] + key@.take(i as int),
            decreases key@.len() - i,
        {
            let b = key[i];
            let c = self.nodes[cur as usize].children[b as usize];
            if c == 0 {
                return (cur, i);
            }
            proof {
                assert(self.edge_target_ok(cur as int, b as int));
                assert(self.paths@[c as int] =~= self.paths@[start as int] + key@.take(
                    i as int + 1,
                ));
            }
            cur = c;
            i = i + 1;
        }
        (cur, i)
    }

    /// Insertion below node `start`: binds the start node's path extended by
    /// `key` to `value`, allocating one node per unmatched key byte, and
    /// returns the previously bound value, if any.
    pub(crate) fn set_at(&mut self, start: u32, key: &[u8], value: T) -> (prev: Option<T>)
        requires
            old(self).wf(),
            (start as int) < old(self).node_count(),
            valid_utf8(old(self).path_at(start as int)),
            valid_utf8(key@),
            old(self).node_count() + key@.len() <= u32::MAX,
        ensures
            final(self).wf(),
            final(self)@ == old(self)@.insert(old(self).path_at(start as int) + key@, value),
            prev == (if old(self)@.contains_key(old(self).path_at(start as int) + key@) {
                Some(old(self)@[old(self).path_at(start as int) + key@])
            } else {
                None::<T>
            }),
            old(self).node_count() <= final(self).node_count() <= old(self).node_count()
                + key@.len(),
            forall|q: int|
                0 <= q < old(self).node_count() ==> final(self).path_at(q) == old(self).path_at(q),
    {
        let ghost full = self.paths@[start as int] + key@;
        let ghost m0 = self.as_map();
        let (mut cur, mut i) = self.descend_prefix(start, key);
        if i == key.len() {
            // The whole key already has a node: swap the value in.
            proof {
                assert(key@.take(i as int) =~= key@);
                self.lemma_view_at(cur as int);
            }
            let ghost pre = *self;
            let prev;
            {
                let node = &mut self.nodes[cur as usize];
                prev = node.value.take();
                node.value = Some(value);
            }
            proof {
                Self::lemma_same_shape_wf_core(pre, *self);
                Self::lemma_value_set_view(pre, *self, cur as int, value);
                assert(self.tidy()) by {
                    assert forall|q: int| 1 <= q < self.nodes@.len() implies #[trigger] self.live_ok(
                        q,
                    ) by {
                        if q != cur {
                            assert(pre.live_ok(q));
                        }
                    }
                }
                assert(valid_utf8(self.paths@[cur as int])) by {
                    vstd::utf8::valid_utf8_concat(self.paths@[start as int], key@);
                }
                assert forall|q: int|
                    0 <= q < self.nodes@.len() && (#[trigger] self.nodes@[q]).value is Some implies
                    valid_utf8(self.paths@[q]) by {
                    if q != cur {
                        assert(pre.nodes@[q].value is Some);
                        assert(valid_utf8(pre.paths@[q]));
                    }
                }
            }
            prev
        } else {
            proof {
                // The full key has no node yet, so it is not bound in the map.
                assert forall|j: int| 0 <= j < self.nodes@.len() implies self.paths@[j]
                    != full by {
                    if self.paths@[j] == full {
                        assert(self.paths@[cur as int] =~= self.paths@[j].take(
                            self.paths@[cur as int].len() as int,
                        ));
                        assert(self.paths@[j][self.paths@[cur as int].len() as int] == key@[
                            i as int
                        ]);
                        self.lemma_step_exists(cur as int, j);
                    }
                }
                if m0.contains_key(full) {
                    self.lemma_view_member(full);
                    let j = choose|j: int|
                        0 <= j < self.nodes@.len() && (#[trigger] self.paths@[j]) == full
                            && self.nodes@[j].value is Some && self.as_map()[full] == self.nodes@[
                            j
                        ].value->0;
                    assert(false);
                }
                // Every new node's path is a prefix of the full key path,
                // which is valid UTF-8.
                assert(valid_utf8(full)) by {
                    vstd::utf8::valid_utf8_concat(self.paths@[start as int], key@);
                }
            }
            let ghost i0 = i;
            while i < key.len()
                invariant
                    self.wf_core(),
                    self.valued_ok(),
                    forall|q: int|
                        1 <= q < self.nodes@.len() && q != cur ==> #[trigger] self.live_ok(q),
                    (start as int) < self.nodes@.len(),
                    (cur as int) < self.nodes@.len(),
                    i0 <= i <= key@.len(),
                    i < key@.len() ==> self.child_at(cur as int, key@[i as int] as int) == 0,
                    i > i0 ==> self.nodes@[cur as int].value is None,
                    self.paths@[cur as int] == self.paths@[start as int] + key@.take(i as int),
                    self.nodes@.len() == old(self).nodes@.len() + i - i0,
                    old(self).nodes@.len() <= self.nodes@.len(),
                    forall|q: int|
                        0 <= q < old(self).nodes@.len() ==> self.paths@[q] == old(self).paths@[q],
                    self.paths@[start as int] == old(self).paths@[start as int],
                    self.as_map() == m0,
                    m0 == old(self).as_map(),
                    !m0.contains_key(full),
                    full == self.paths@[start as int] + key@,
                    full == old(self).paths@[start as int] + key@,
                    valid_utf8(full),
                    old(self).nodes@.len() + key@.len() <= u32::MAX,
                decreases key@.len() - i,
            {
                let ghost pre = *self;
                let b = key[i];
                let new_idx: u32 = self.nodes.len() as u32;
                proof {
                    assert(self.fill_ok(cur as int));
                    lemma_nonzero_below_vacant(self.nodes@[cur as int].children@, 256, b as int);
                    lemma_nonzero_below_bounds(self.nodes@[cur as int].children@, 256);
                }
                {
                    let node = &mut self.nodes[cur as usize];
                    node.fill = node.fill + 1;
                    node.children[b as usize] = new_idx;
                }
                self.nodes.push(
                    Node {
                        children: zero_slots(),
                        fill: 0,
                        parent: cur,
                        parent_byte: b,
                        value: None,
                    },
                );
                proof {
                    let np = pre.paths@[cur as int].push(b);
                    self.paths = Ghost(self.paths@.push(np));
                    assert(np =~= full.take(np.len() as int));
                    lemma_valid_is_prefix(full);
                    lemma_prefix_of_prefix(full, np.len() as int);
                    lemma_set_at_link_step(pre, *self, cur as int, b as int);
                    assert(np =~= self.paths@[start as int] + key@.take(i as int + 1));
                    assert forall|q: int|
                        0 <= q < self.nodes@.len() && (#[trigger] self.nodes@[q]).value is Some
                        implies valid_utf8(self.paths@[q]) by {
                        assert(q < pre.nodes@.len());
                        if q != cur {
                            assert(self.nodes@[q] == pre.nodes@[q]);
                        }
                        assert(pre.nodes@[q].value is Some);
                        assert(valid_utf8(pre.paths@[q]));
                        assert(self.paths@[q] == pre.paths@[q]);
                    }
                }
                cur = new_idx;
                i = i + 1;
            }
            proof {
                assert(key@.take(i as int) =~= key@);
                assert(self.paths@[cur as int] == full);
                self.lemma_view_at(cur as int);
            }
            let ghost pre = *self;
            {
                let node = &mut self.nodes[cur as usize];
                node.value = Some(value);
            }
            proof {
                Self::lemma_same_shape_wf_core(pre, *self);
                Self::lemma_value_set_view(pre, *self, cur as int, value);
                assert(self.tidy()) by {
                    assert forall|q: int| 1 <= q < self.nodes@.len() implies #[trigger] self.live_ok(
                        q,
                    ) by {
                        if q != cur {
                            assert(pre.live_ok(q));
                        }
                    }
                }
                assert forall|q: int|
                    0 <= q < self.nodes@.len() && (#[trigger] self.nodes@[q]).value is Some implies
                    valid_utf8(self.paths@[q]) by {
                    if q != cur {
                        assert(pre.nodes@[q].value is Some);
                        assert(valid_utf8(pre.paths@[q]));
                    }
                }
            }
            None
        }
    }
}

impl<T> StringTree<T> {
    /// Mid-removal state: node `d` has been cut loose from its parent's
    /// child table (nothing points at it, its own row is empty and bare) but
    /// its row has not yet been reclaimed.
    spec fn wf_detached(self, d: int) -> bool {
        let n = self.nodes@.len() as int;
        &&& self.wf_base()
        &&& 0 < d < n
        &&& forall|i: int, b: int|
            0 <= i < n && 0 <= b < 256 ==> #[trigger] self.edge_target_ok(i, b)
        &&& forall|i: int, b: int|
            0 <= i < n && 0 <= b < 256 ==> #[trigger] self.edge_backlink_ok(i, b)
        &&& forall|i: int, b: int|
            0 <= i < n && 0 <= b < 256 ==> #[trigger] self.child_at(i, b) != d
        &&& forall|q: int| 1 <= q < n && q != d ==> #[trigger] self.parent_ok(q)
        &&& forall|i: int| 0 <= i < n ==> #[trigger] self.fill_ok(i)
        &&& self.inj_ok()
        &&& self.paths_utf8_ok()
        &&& self.nodes@[d].fill == 0
        &&& self.nodes@[d].value is None
        &&& forall|b: int| 0 <= b < 256 ==> #[trigger] self.child_at(d, b) == 0
    }

    /// Mid-compaction state: the last row was moved into slot `d` and the
    /// arena shrank by one; parent links of the moved node's children still
    /// name the vacated index `stale` until the patch walk (already done for
    /// edge bytes below `bi`) rewrites them.
    spec fn wf_moving(self, d: int, stale: int, bi: int) -> bool {
        let n = self.nodes@.len() as int;
        &&& self.wf_base()
        &&& 0 < d < n
        &&& stale == n
        &&& forall|i: int, b: int|
            0 <= i < n && 0 <= b < 256 ==> #[trigger] self.edge_target_ok(i, b)
        &&& forall|i: int, b: int|
            #![trigger self.child_at(i, b)]
            0 <= i < n && 0 <= b < 256 ==> {
                let c = self.child_at(i, b);
                c != 0 ==> (if i == d && b >= bi {
                    self.nodes@[c].parent as int == stale
                } else {
                    self.nodes@[c].parent as int == i
                })
            }
        &&& forall|q: int|
            #![trigger self.nodes@[q].parent]
            1 <= q < n ==> {
                let pf = self.nodes@[q].parent as int;
                let pb = self.nodes@[q].parent_byte as int;
                if pf == stale {
                    self.child_at(d, pb) == q && pb >= bi
                } else {
                    0 <= pf < n && self.child_at(pf, pb) == q
                }
            }
        &&& forall|i: int| 0 <= i < n ==> #[trigger] self.fill_ok(i)
        &&& self.inj_ok()
        &&& self.paths_utf8_ok()
    }

    /// Cutting a dead node loose: its parent's slot is zeroed and the fill
    /// count drops by one; everything else still stands.
    proof fn lemma_detach_step(pre: Self, post: Self, d: int, p0: int, b0: int)
        requires
            pre.wf_core(),
            0 < d < pre.nodes@.len(),
            pre.nodes@[d].fill == 0,
            pre.nodes@[d].value is None,
            p0 == pre.nodes@[d].parent as int,
            b0 == pre.nodes@[d].parent_byte as int,
            p0 != d,
            0 <= p0 < pre.nodes@.len(),
            post.nodes@.len() == pre.nodes@.len(),
            post.paths@ == pre.paths@,
            post.nodes@[p0].children@ == pre.nodes@[p0].children@.update(b0, 0u32),
            post.nodes@[p0].fill as int == pre.nodes@[p0].fill - 1,
            post.nodes@[p0].parent == pre.nodes@[p0].parent,
            post.nodes@[p0].parent_byte == pre.nodes@[p0].parent_byte,
            post.nodes@[p0].value == pre.nodes@[p0].value,
            forall|q: int|
                0 <= q < pre.nodes@.len() && q != p0 ==> post.nodes@[q] == (
                #[trigger] pre.nodes@[q]),
        ensures
            post.wf_detached(d),
    {
        let n = pre.nodes@.len() as int;
        assert(pre.parent_ok(d));
        assert(pre.child_at(p0, b0) == d);
        assert(0 <= b0 < 256);
        // Only the slot (p0, b0) pointed at d.
        assert forall|i: int, b: int|
            0 <= i < n && 0 <= b < 256 && !(i == p0 && b == b0) implies pre.child_at(i, b)
            != d by {
            if pre.child_at(i, b) == d {
                assert(pre.edge_backlink_ok(i, b));
                assert(pre.edge_target_ok(i, b));
                assert(pre.nodes@[d].parent as int == i);
                assert(pre.nodes@[d].parent_byte as int == b);
            }
        }
        assert forall|i: int|
            0 <= i < n implies (#[trigger] post.nodes@[i]).children@.len() == 256 by {
            assert(pre.nodes@[i].children@.len() == 256);
        }
        assert forall|i: int, b: int|
            0 <= i < n && 0 <= b < 256 implies #[trigger] post.edge_target_ok(i, b) by {
            assert(pre.edge_target_ok(i, b));
            let c = post.child_at(i, b);
            if c != 0 {
                assert(c == pre.child_at(i, b));
                if c != p0 {
                    assert(post.nodes@[c] == pre.nodes@[c]);
                }
            }
        }
        assert forall|i: int, b: int|
            0 <= i < n && 0 <= b < 256 implies #[trigger] post.edge_backlink_ok(i, b) by {
            assert(pre.edge_backlink_ok(i, b));
            assert(pre.edge_target_ok(i, b));
            let c = post.child_at(i, b);
            if c != 0 {
                assert(c == pre.child_at(i, b));
                if c != p0 {
                    assert(post.nodes@[c] == pre.nodes@[c]);
                }
            }
        }
        assert forall|i: int, b: int|
            0 <= i < n && 0 <= b < 256 implies #[trigger] post.child_at(i, b) != d by {
            if !(i == p0 && b == b0) {
                assert(post.child_at(i, b) == pre.child_at(i, b));
            }
        }
        assert forall|q: int| 1 <= q < n && q != d implies #[trigger] post.parent_ok(q) by {
            assert(pre.parent_ok(q));
            let pf = pre.nodes@[q].parent as int;
            let pb = pre.nodes@[q].parent_byte as int;
            if pf == p0 && pb == b0 {
                assert(pre.child_at(p0, b0) == q);
                assert(false);
            }
            assert(post.child_at(pf, pb) == pre.child_at(pf, pb));
        }
        assert forall|i: int| 0 <= i < n implies #[trigger] post.fill_ok(i) by {
            assert(pre.fill_ok(i));
            if i == p0 {
                lemma_nonzero_below_update(pre.nodes@[p0].children@, 256, b0, 0u32);
            } else {
                assert(post.nodes@[i] == pre.nodes@[i]);
            }
        }
        assert(post.inj_ok()) by {
            assert forall|q1: int, q2: int|
                #![trigger post.paths@[q1], post.paths@[q2]]
                0 <= q1 < q2 < n implies post.paths@[q1] != post.paths@[q2] by {
                assert(pre.paths@[q1] != pre.paths@[q2]);
            }
        }
        assert forall|q: int| 0 <= q < n implies utf8_prefix(#[trigger] post.paths@[q]) by {
            assert(utf8_prefix(pre.paths@[q]));
        }
        assert(post.nodes@[d].fill == 0);
        assert forall|b: int| 0 <= b < 256 implies #[trigger] post.child_at(d, b) == 0 by {
            assert(pre.fill_ok(d));
            lemma_nonzero_below_all_zero(pre.nodes@[d].children@, 256);
            assert(post.nodes@[d] == pre.nodes@[d]);
        }
    }
}

impl<T> StringTree<T> {
    /// Swap-remove of the detached node `d` when it was already the last
    /// row: the arena simply shrinks and the invariant is whole again.
    proof fn lemma_pop_last(pre: Self, post: Self, d: int)
        requires
            pre.wf_detached(d),
            d == pre.nodes@.len() - 1,
            post.nodes@.len() == d,
            post.paths@.len() == d,
            forall|q: int| 0 <= q < d ==> post.nodes@[q] == (#[trigger] pre.nodes@[q]),
            forall|q: int| 0 <= q < d ==> post.paths@[q] == (#[trigger] pre.paths@[q]),
        ensures
            post.wf_core(),
    {
        let n = post.nodes@.len() as int;
        assert forall|i: int|
            0 <= i < n implies (#[trigger] post.nodes@[i]).children@.len() == 256 by {
            assert(pre.nodes@[i].children@.len() == 256);
        }
        assert forall|i: int, b: int|
            0 <= i < n && 0 <= b < 256 implies #[trigger] post.edge_target_ok(i, b) by {
            assert(pre.edge_target_ok(i, b));
            assert(pre.edge_backlink_ok(i, b));
            assert(pre.child_at(i, b) != d);
            let c = post.child_at(i, b);
            assert(c == pre.child_at(i, b));
            if c != 0 {
                assert(post.nodes@[c] == pre.nodes@[c]);
                assert(post.paths@[c] == pre.paths@[c]);
            }
        }
        assert forall|i: int, b: int|
            0 <= i < n && 0 <= b < 256 implies #[trigger] post.edge_backlink_ok(i, b) by {
            assert(pre.edge_target_ok(i, b));
            assert(pre.edge_backlink_ok(i, b));
            assert(pre.child_at(i, b) != d);
            let c = post.child_at(i, b);
            assert(c == pre.child_at(i, b));
            if c != 0 {
                assert(post.nodes@[c] == pre.nodes@[c]);
            }
        }
        assert forall|q: int| 1 <= q < n implies #[trigger] post.parent_ok(q) by {
            assert(pre.parent_ok(q));
            let pf = pre.nodes@[q].parent as int;
            let pb = pre.nodes@[q].parent_byte as int;
            if pf == d {
                assert(pre.child_at(d, pb) == q);
                assert(false);
            }
            assert(post.child_at(pf, pb) == pre.child_at(pf, pb));
        }
        assert forall|i: int| 0 <= i < n implies #[trigger] post.fill_ok(i) by {
            assert(pre.fill_ok(i));
            assert(post.nodes@[i] == pre.nodes@[i]);
        }
        assert(post.inj_ok()) by {
            assert forall|q1: int, q2: int|
                #![trigger post.paths@[q1], post.paths@[q2]]
                0 <= q1 < q2 < n implies post.paths@[q1] != post.paths@[q2] by {
                assert(pre.paths@[q1] != pre.paths@[q2]);
            }
        }
        assert forall|q: int| 0 <= q < n implies utf8_prefix(#[trigger] post.paths@[q]) by {
            assert(utf8_prefix(pre.paths@[q]));
        }
    }

    /// Swap-remove of the detached node `d` from the middle: the last row
    /// moved into slot `d`, its parent's child entry was repointed, and only
    /// the parent links of the moved node's children still carry the old
    /// index.
    #[verifier::rlimit(80)]
    proof fn lemma_swap_move(pre: Self, post: Self, d: int, mp: int, mb: int)
        requires
            pre.wf_detached(d),
            0 < d < pre.nodes@.len() - 1,
            mp == pre.nodes@[pre.nodes@.len() - 1].parent as int,
            mb == pre.nodes@[pre.nodes@.len() - 1].parent_byte as int,
            mp != d,
            0 <= mp < pre.nodes@.len() - 1,
            post.nodes@.len() == pre.nodes@.len() - 1,
            post.paths@.len() == pre.nodes@.len() - 1,
            post.paths@[d] == pre.paths@[pre.nodes@.len() - 1],
            forall|q: int|
                0 <= q < post.nodes@.len() && q != d ==> post.paths@[q] == (
                #[trigger] pre.paths@[q]),
            forall|q: int|
                0 <= q < post.nodes@.len() && q != d && q != mp ==> post.nodes@[q] == (
                #[trigger] pre.nodes@[q]),
            post.nodes@[d] == pre.nodes@[pre.nodes@.len() - 1],
            post.nodes@[mp].children@ == pre.nodes@[mp].children@.update(mb, d as u32),
            post.nodes@[mp].fill == pre.nodes@[mp].fill,
            post.nodes@[mp].parent == pre.nodes@[mp].parent,
            post.nodes@[mp].parent_byte == pre.nodes@[mp].parent_byte,
            post.nodes@[mp].value == pre.nodes@[mp].value,
        ensures
            post.wf_moving(d, post.nodes@.len() as int, 0),
    {
        let n1 = pre.nodes@.len() as int;
        let last = n1 - 1;
        let n = post.nodes@.len() as int;
        let stale = n;
        assert(pre.parent_ok(last));
        assert(pre.child_at(mp, mb) == last);
        assert(0 <= mb < 256);
        assert(pre.edge_target_ok(mp, mb));
        assert(pre.paths@[last] == pre.paths@[mp].push(mb as u8));
        // Only the slot (mp, mb) pointed at the last row.
        assert forall|i: int, b: int|
            0 <= i < n1 && 0 <= b < 256 && !(i == mp && b == mb) implies pre.child_at(i, b)
            != last by {
            if pre.child_at(i, b) == last {
                assert(pre.edge_backlink_ok(i, b));
                assert(pre.edge_target_ok(i, b));
            }
        }
        assert forall|i: int|
            0 <= i < n implies (#[trigger] post.nodes@[i]).children@.len() == 256 by {
            if i == d {
                assert(pre.nodes@[last].children@.len() == 256);
            } else {
                assert(pre.nodes@[i].children@.len() == 256);
            }
        }
        assert(post.paths@[0] == pre.paths@[0]);
        assert forall|i: int, b: int|
            0 <= i < n && 0 <= b < 256 implies #[trigger] post.edge_target_ok(i, b) by {
            let c = post.child_at(i, b);
            if c != 0 {
                if i == mp && b == mb {
                    assert(c == d);
                    assert(post.nodes@[d].parent_byte as int == mb);
                    assert(post.paths@[d] == post.paths@[mp].push(mb as u8));
                } else {
                    let isrc: int = if i == d {
                        last
                    } else {
                        i
                    };
                    assert(c == pre.child_at(isrc, b));
                    assert(pre.edge_target_ok(isrc, b));
                    assert(pre.edge_backlink_ok(isrc, b));
                    assert(c != d);
                    if c == last {
                        assert(pre.nodes@[last].parent as int == isrc);
                        assert(pre.nodes@[last].parent_byte as int == b);
                        if i == d {
                            assert(mp == last);
                            assert(false);
                        } else {
                            assert(i == mp && b == mb);
                            assert(false);
                        }
                    }
                    assert(0 < c < n);
                    assert(post.paths@[c] == pre.paths@[c]);
                    if c != mp {
                        assert(post.nodes@[c] == pre.nodes@[c]);
                    }
                    assert(post.nodes@[c].parent_byte as int == b);
                    assert(post.paths@[i] == pre.paths@[isrc]);
                    assert(post.paths@[c] == post.paths@[i].push(b as u8));
                }
            }
        }
        assert forall|i: int, b: int|
            #![trigger post.child_at(i, b)]
            0 <= i < n && 0 <= b < 256 implies ({
            let c = post.child_at(i, b);
            c != 0 ==> (if i == d && b >= 0 {
                post.nodes@[c].parent as int == stale
            } else {
                post.nodes@[c].parent as int == i
            })
        }) by {
            let c = post.child_at(i, b);
            if c != 0 {
                if i == mp && b == mb {
                    assert(c == d);
                    assert(post.nodes@[d].parent as int == mp);
                } else {
                    let isrc: int = if i == d {
                        last
                    } else {
                        i
                    };
                    assert(c == pre.child_at(isrc, b));
                    assert(pre.edge_target_ok(isrc, b));
                    assert(pre.edge_backlink_ok(isrc, b));
                    assert(c != d);
                    assert(c != last);
                    assert(pre.nodes@[c].parent as int == isrc);
                    if c != mp {
                        assert(post.nodes@[c] == pre.nodes@[c]);
                    }
                    assert(post.nodes@[c].parent as int == isrc);
                }
            }
        }
        assert forall|q: int|
            #![trigger post.nodes@[q].parent]
            1 <= q < n implies ({
            let pf = post.nodes@[q].parent as int;
            let pb = post.nodes@[q].parent_byte as int;
            if pf == stale {
                post.child_at(d, pb) == q && pb >= 0
            } else {
                0 <= pf < n && post.child_at(pf, pb) == q
            }
        }) by {
            if q == d {
                assert(post.nodes@[q].parent as int == mp);
                assert(post.child_at(mp, mb) == d);
            } else {
                assert(pre.parent_ok(q));
                let pf = pre.nodes@[q].parent as int;
                let pb = pre.nodes@[q].parent_byte as int;
                assert(post.nodes@[q].parent as int == pf);
                assert(post.nodes@[q].parent_byte as int == pb);
                assert(pre.child_at(pf, pb) == q);
                if pf == last {
                    assert(post.child_at(d, pb) == pre.child_at(last, pb));
                } else {
                    if pf == d {
                        assert(pre.child_at(d, pb) == 0);
                        assert(false);
                    }
                    if pf == mp && pb == mb {
                        assert(q == last);
                        assert(false);
                    }
                    assert(post.child_at(pf, pb) == pre.child_at(pf, pb));
                }
            }
        }
        assert forall|i: int| 0 <= i < n implies #[trigger] post.fill_ok(i) by {
            if i == d {
                assert(pre.fill_ok(last));
            } else if i == mp {
                assert(pre.fill_ok(mp));
                lemma_nonzero_below_update(pre.nodes@[mp].children@, 256, mb, d as u32);
            } else {
                assert(pre.fill_ok(i));
                assert(post.nodes@[i] == pre.nodes@[i]);
            }
        }
        assert(post.inj_ok()) by {
            assert forall|q1: int, q2: int|
                #![trigger post.paths@[q1], post.paths@[q2]]
                0 <= q1 < q2 < n implies post.paths@[q1] != post.paths@[q2] by {
                let i1: int = if q1 == d {
                    last
                } else {
                    q1
                };
                let i2: int = if q2 == d {
                    last
                } else {
                    q2
                };
                assert(post.paths@[q1] == pre.paths@[i1]);
                assert(post.paths@[q2] == pre.paths@[i2]);
                assert(pre.paths@[i1] != pre.paths@[i2]);
            }
        }
        assert forall|q: int| 0 <= q < n implies utf8_prefix(#[trigger] post.paths@[q]) by {
            if q == d {
                assert(utf8_prefix(pre.paths@[last]));
            } else {
                assert(utf8_prefix(pre.paths@[q]));
            }
        }
    }

    /// Patch walk, empty slot: nothing to repoint at this edge byte.
    proof fn lemma_patch_skip(self, d: int, bi: int)
        requires
            self.wf_moving(d, self.nodes@.len() as int, bi),
            0 <= bi < 256,
            self.child_at(d, bi) == 0,
        ensures
            self.wf_moving(d, self.nodes@.len() as int, bi + 1),
    {
        let n = self.nodes@.len() as int;
        let stale = n;
        assert forall|i: int, b: int|
            #![trigger self.child_at(i, b)]
            0 <= i < n && 0 <= b < 256 implies ({
            let c = self.child_at(i, b);
            c != 0 ==> (if i == d && b >= bi + 1 {
                self.nodes@[c].parent as int == stale
            } else {
                self.nodes@[c].parent as int == i
            })
        }) by {
            let c = self.child_at(i, b);
            if c != 0 && i == d && b == bi {
                assert(false);
            }
        }
        assert forall|q: int|
            #![trigger self.nodes@[q].parent]
            1 <= q < n implies ({
            let pf = self.nodes@[q].parent as int;
            let pb = self.nodes@[q].parent_byte as int;
            if pf == stale {
                self.child_at(d, pb) == q && pb >= bi + 1
            } else {
                0 <= pf < n && self.child_at(pf, pb) == q
            }
        }) by {
            let pf = self.nodes@[q].parent as int;
            let pb = self.nodes@[q].parent_byte as int;
            if pf == stale {
                assert(self.child_at(d, pb) == q);
                if pb == bi {
                    assert(false);
                }
            }
        }
    }

    /// Patch walk, occupied slot: the child at edge byte `bi` of the moved
    /// node has its parent link repointed from the vacated index to `d`.
    proof fn lemma_patch_set(pre: Self, post: Self, d: int, bi: int, c: int)
        requires
            pre.wf_moving(d, pre.nodes@.len() as int, bi),
            0 <= bi < 256,
            c == pre.child_at(d, bi),
            c != 0,
            c != d,
            post.nodes@.len() == pre.nodes@.len(),
            post.paths@ == pre.paths@,
            post.nodes@[c].parent as int == d,
            post.nodes@[c].children == pre.nodes@[c].children,
            post.nodes@[c].fill == pre.nodes@[c].fill,
            post.nodes@[c].parent_byte == pre.nodes@[c].parent_byte,
            post.nodes@[c].value == pre.nodes@[c].value,
            forall|q: int|
                0 <= q < pre.nodes@.len() && q != c ==> post.nodes@[q] == (
                #[trigger] pre.nodes@[q]),
        ensures
            post.wf_moving(d, post.nodes@.len() as int, bi + 1),
    {
        let n = pre.nodes@.len() as int;
        let stale = n;
        assert(pre.edge_target_ok(d, bi));
        assert(0 < c < n);
        assert(pre.nodes@[c].parent as int == stale);
        assert(pre.nodes@[c].parent_byte as int == bi);
        assert forall|i: int|
            0 <= i < n implies (#[trigger] post.nodes@[i]).children@.len() == 256
            && post.nodes@[i].children == pre.nodes@[i].children by {
            assert(pre.nodes@[i].children@.len() == 256);
            if i != c {
                assert(post.nodes@[i] == pre.nodes@[i]);
            }
        }
        assert forall|i: int, b: int|
            0 <= i < n && 0 <= b < 256 implies #[trigger] post.edge_target_ok(i, b) by {
            assert(pre.edge_target_ok(i, b));
            assert(post.child_at(i, b) == pre.child_at(i, b));
            let c2 = post.child_at(i, b);
            if c2 != 0 && c2 != c {
                assert(post.nodes@[c2] == pre.nodes@[c2]);
            }
        }
        assert forall|i: int, b: int|
            #![trigger post.child_at(i, b)]
            0 <= i < n && 0 <= b < 256 implies ({
            let c2 = post.child_at(i, b);
            c2 != 0 ==> (if i == d && b >= bi + 1 {
                post.nodes@[c2].parent as int == stale
            } else {
                post.nodes@[c2].parent as int == i
            })
        }) by {
            let c2 = post.child_at(i, b);
            assert(c2 == pre.child_at(i, b));
            if c2 != 0 {
                if c2 == c {
                    // Only the slot (d, bi) can point at c.
                    assert(pre.edge_target_ok(i, b));
                    assert(pre.nodes@[c].parent_byte as int == b);
                    assert(b == bi);
                    if i == d {
                        assert(post.nodes@[c].parent as int == d);
                    } else {
                        assert(pre.child_at(i, b) == c);
                        assert(!(i == d && b >= bi));
                        assert(pre.nodes@[c].parent as int == i);
                        assert(false);
                    }
                } else {
                    assert(pre.edge_target_ok(i, b));
                    assert(post.nodes@[c2] == pre.nodes@[c2]);
                    if i == d && b >= bi && !(b >= bi + 1) {
                        assert(b == bi);
                        assert(false);
                    }
                }
            }
        }
        assert forall|q: int|
            #![trigger post.nodes@[q].parent]
            1 <= q < n implies ({
            let pf = post.nodes@[q].parent as int;
            let pb = post.nodes@[q].parent_byte as int;
            if pf == stale {
                post.child_at(d, pb) == q && pb >= bi + 1
            } else {
                0 <= pf < n && post.child_at(pf, pb) == q
            }
        }) by {
            if q == c {
                assert(post.child_at(d, bi) == c);
            } else {
                assert(post.nodes@[q] == pre.nodes@[q]);
                let pf = pre.nodes@[q].parent as int;
                let pb = pre.nodes@[q].parent_byte as int;
                if pf == stale {
                    assert(pre.child_at(d, pb) == q);
                    if pb == bi {
                        assert(false);
                    }
                    assert(post.child_at(d, pb) == q);
                } else {
                    assert(post.child_at(pf, pb) == pre.child_at(pf, pb));
                }
            }
        }
        assert forall|i: int| 0 <= i < n implies #[trigger] post.fill_ok(i) by {
            assert(pre.fill_ok(i));
            assert(post.nodes@[i].children == pre.nodes@[i].children);
            assert(post.nodes@[i].fill == pre.nodes@[i].fill);
        }
        assert(post.inj_ok()) by {
            assert forall|q1: int, q2: int|
                #![trigger post.paths@[q1], post.paths@[q2]]
                0 <= q1 < q2 < n implies post.paths@[q1] != post.paths@[q2] by {
                assert(pre.paths@[q1] != pre.paths@[q2]);
            }
        }
        assert forall|q: int| 0 <= q < n implies utf8_prefix(#[trigger] post.paths@[q]) by {
            assert(utf8_prefix(pre.paths@[q]));
        }
    }

    /// Once every child of the moved node has been repointed, the ordinary
    /// invariant holds again.
    proof fn lemma_moving_done(self, d: int)
        requires
            self.wf_moving(d, self.nodes@.len() as int, 256),
        ensures
            self.wf_core(),
    {
        let n = self.nodes@.len() as int;
        assert forall|i: int, b: int|
            0 <= i < n && 0 <= b < 256 implies #[trigger] self.edge_backlink_ok(i, b) by {
            assert(0 <= self.child_at(i, b));
        }
        assert forall|q: int| 1 <= q < n implies #[trigger] self.parent_ok(q) by {
            let pf = self.nodes@[q].parent as int;
            let pb = self.nodes@[q].parent_byte as int;
            assert(pb < 256);
            assert(pf != n);
        }
    }
}

impl<T> StringTree<T> {
    /// Reclaims the dead node `d` (no children, no value, not the root):
    /// detaches it from its parent, removes its row by swap-remove, patches
    /// the moved row's links, and returns the index the parent now lives at.
    #[verifier::rlimit(80)]
    fn reclaim(&mut self, d: u32) -> (p: u32)
        requires
            old(self).wf_core(),
            0 < (d as int) < old(self).nodes@.len(),
            old(self).nodes@[d as int].fill == 0,
            old(self).nodes@[d as int].value is None,
            forall|q: int|
                1 <= q < old(self).nodes@.len() && q != d ==> #[trigger] old(self).live_ok(q),
            old(self).valued_ok(),
        ensures
            final(self).wf_core(),
            final(self).valued_ok(),
            final(self).nodes@.len() == old(self).nodes@.len() - 1,
            (p as int) < final(self).nodes@.len(),
            final(self).as_map() == old(self).as_map(),
            forall|q: int|
                1 <= q < final(self).nodes@.len() && q != p ==> #[trigger] final(self).live_ok(q),
    {
        let ghost s0 = *self;
        let d_us = d as usize;
        let p0 = self.nodes[d_us].parent;
        let b0 = self.nodes[d_us].parent_byte;
        proof {
            assert(self.parent_ok(d as int));
            assert(self.edge_target_ok(p0 as int, b0 as int));
            if p0 == d {
                assert(self.paths@[d as int] == self.paths@[d as int].push(b0));
                assert(self.paths@[d as int].len() == self.paths@[d as int].push(b0).len());
                assert(false);
            }
            assert(self.fill_ok(p0 as int));
            lemma_nonzero_below_occupied(self.nodes@[p0 as int].children@, 256, b0 as int);
        }
        {
            let pn = &mut self.nodes[p0 as usize];
            let f = pn.fill;
            pn.fill = f - 1;
            pn.children[b0 as usize] = 0;
        }
        proof {
            Self::lemma_detach_step(s0, *self, d as int, p0 as int, b0 as int);
        }
        let ghost s1 = *self;
        let last: usize = self.nodes.len() - 1;
        let _ = self.nodes.swap_remove(d_us);
        proof {
            self.paths = Ghost(s1.paths@.update(d as int, s1.paths@[last as int]).drop_last());
        }
        if d_us != last {
            let mp = self.nodes[d_us].parent;
            let mb = self.nodes[d_us].parent_byte;
            proof {
                assert(self.nodes@[d as int] == s1.nodes@[last as int]);
                assert(s1.parent_ok(last as int));
                assert(s1.edge_target_ok(mp as int, mb as int));
                assert(s1.child_at(mp as int, mb as int) == last as int);
                if mp == d {
                    assert(s1.child_at(d as int, mb as int) == 0);
                    assert(false);
                }
                if mp as usize == last {
                    assert(s1.paths@[last as int] == s1.paths@[last as int].push(mb));
                    assert(s1.paths@[last as int].len() == s1.paths@[last as int].push(mb).len());
                    assert(false);
                }
            }
            {
                let mpn = &mut self.nodes[mp as usize];
                mpn.children[mb as usize] = d;
            }
            proof {
                Self::lemma_swap_move(s1, *self, d as int, mp as int, mb as int);
            }
            let mut bi: usize = 0;
            while bi < 256
                invariant
                    self.wf_moving(d as int, self.nodes@.len() as int, bi as int),
                    bi <= 256,
                    0 < (d as int) < self.nodes@.len(),
                    d_us == d as usize,
                    self.nodes@.len() == last as int,
                    0 <= (p0 as int) < s0.nodes@.len(),
                    s0.nodes@.len() == last + 1,
                    forall|q: int|
                        #![trigger self.nodes@[q]]
                        0 <= q < self.nodes@.len() ==> {
                            let src: int = if q == d as int {
                                last as int
                            } else {
                                q
                            };
                            &&& self.paths@[q] == s0.paths@[src]
                            &&& self.nodes@[q].value == s0.nodes@[src].value
                            &&& self.nodes@[q].fill as int == (if src == p0 as int {
                                s0.nodes@[p0 as int].fill - 1
                            } else {
                                s0.nodes@[src].fill as int
                            })
                        },
                decreases 256 - bi,
            {
                let c = self.nodes[d_us].children[bi];
                if c != 0 {
                    proof {
                        assert(self.edge_target_ok(d as int, bi as int));
                        if c as int == d as int {
                            assert(self.paths@[d as int] == self.paths@[d as int].push(bi as u8));
                            assert(self.paths@[d as int].len() == self.paths@[d as int].push(
                                bi as u8,
                            ).len());
                            assert(false);
                        }
                    }
                    let ghost sp = *self;
                    {
                        let cn = &mut self.nodes[c as usize];
                        cn.parent = d;
                    }
                    proof {
                        Self::lemma_patch_set(sp, *self, d as int, bi as int, c as int);
                    }
                } else {
                    proof {
                        self.lemma_patch_skip(d as int, bi as int);
                    }
                }
                bi = bi + 1;
            }
            proof {
                self.lemma_moving_done(d as int);
            }
        } else {
            proof {
                Self::lemma_pop_last(s1, *self, d as int);
                assert forall|q: int|
                    #![trigger self.nodes@[q]]
                    0 <= q < self.nodes@.len() implies ({
                    let src: int = if q == d as int {
                        last as int
                    } else {
                        q
                    };
                    &&& self.paths@[q] == s0.paths@[src]
                    &&& self.nodes@[q].value == s0.nodes@[src].value
                    &&& self.nodes@[q].fill as int == (if src == p0 as int {
                        s0.nodes@[p0 as int].fill - 1
                    } else {
                        s0.nodes@[src].fill as int
                    })
                }) by {
                    assert(q != d as int);
                    assert(self.nodes@[q] == s1.nodes@[q]);
                    assert(self.paths@[q] == s1.paths@[q]);
                }
            }
        }
        let p: u32 = if p0 as usize == last {
            d
        } else {
            p0
        };
        proof {
            let n = self.nodes@.len() as int;
            let l = last as int;
            assert((p as int) < n);
            assert forall|q: int| 1 <= q < n && q != p as int implies #[trigger] self.live_ok(
                q,
            ) by {
                let src: int = if q == d as int {
                    l
                } else {
                    q
                };
                assert(self.nodes@[q].value == s0.nodes@[src].value);
                assert(src != d as int);
                assert(src != p0 as int);
                assert(1 <= src < s0.nodes@.len());
                assert(s0.live_ok(src));
            }
            assert forall|j: int|
                0 <= j < s0.nodes@.len() && (#[trigger] s0.nodes@[j]).value is Some implies exists|
                j2: int,
            |
                0 <= j2 < self.nodes@.len() && (#[trigger] self.paths@[j2]) == s0.paths@[j]
                    && self.nodes@[j2].value == s0.nodes@[j].value by {
                assert(j != d as int);
                let dst: int = if j == l {
                    d as int
                } else {
                    j
                };
                assert(dst < n);
                assert(self.paths@[dst] == s0.paths@[j]);
                assert(self.nodes@[dst].value == s0.nodes@[j].value);
            }
            assert forall|j: int|
                0 <= j < self.nodes@.len() && (#[trigger] self.nodes@[j]).value is Some implies
                exists|j2: int|
                    0 <= j2 < s0.nodes@.len() && (#[trigger] s0.paths@[j2]) == self.paths@[j]
                        && s0.nodes@[j2].value == self.nodes@[j].value by {
                let src: int = if j == d as int {
                    l
                } else {
                    j
                };
                assert(self.paths@[j] == s0.paths@[src]);
                assert(self.nodes@[j].value == s0.nodes@[src].value);
            }
            assert forall|q: int|
                0 <= q < self.nodes@.len() && (#[trigger] self.nodes@[q]).value is Some implies
                valid_utf8(self.paths@[q]) by {
                let src: int = if q == d as int {
                    l
                } else {
                    q
                };
                assert(self.nodes@[q].value == s0.nodes@[src].value);
                assert(valid_utf8(s0.paths@[src]));
            }
            Self::lemma_same_values_same_map(s0, *self);
        }
        p
    }
}

impl<T> StringTree<T> {
    /// Removal below node `start`: unbinds the start node's path extended by
    /// `key`, reclaims every node left useless by that, and returns the
    /// previously bound value, if any.
    pub(crate) fn remove_at(&mut self, start: u32, key: &[u8]) -> (prev: Option<T>)
        requires
            old(self).wf(),
            (start as int) < old(self).node_count(),
        ensures
            final(self).wf(),
            final(self)@ == old(self)@.remove(old(self).path_at(start as int) + key@),
            prev == (if old(self)@.contains_key(old(self).path_at(start as int) + key@) {
                Some(old(self)@[old(self).path_at(start as int) + key@])
            } else {
                None::<T>
            }),
            final(self).node_count() <= old(self).node_count(),
            final(self).node_count() >= 1,
            final(self).path_at(0) == old(self).path_at(0),
            !old(self)@.contains_key(old(self).path_at(start as int) + key@)
                ==> final(self).node_count() == old(self).node_count() && (forall|q: int|
                0 <= q < old(self).node_count() ==> final(self).path_at(q) == old(self).path_at(
                    q,
                )),
    {
        let ghost k = self.paths@[start as int] + key@;
        let t = match self.find_at(start, key) {
            Some(t) => t,
            None => {
                proof {
                    if self@.contains_key(k) {
                        self.lemma_view_member(k);
                        let j = choose|j: int|
                            0 <= j < self.nodes@.len() && (#[trigger] self.paths@[j]) == k
                                && self.nodes@[j].value is Some && self.as_map()[k] == self.nodes@[
                                j
                            ].value->0;
                        assert(self.path_at(j) != k);
                        assert(false);
                    }
                    assert(self@.remove(k) =~= self@);
                }
                return None;
            },
        };
        let ghost s0 = *self;
        let prev = {
            let node = &mut self.nodes[t as usize];
            node.value.take()
        };
        proof {
            Self::lemma_same_shape_wf_core(s0, *self);
            s0.lemma_view_at(t as int);
            Self::lemma_value_clear_view(s0, *self, t as int);
            assert forall|q: int|
                0 <= q < self.nodes@.len() && (#[trigger] self.nodes@[q]).value is Some implies
                valid_utf8(self.paths@[q]) by {
                assert(q != t as int);
                assert(self.nodes@[q] == s0.nodes@[q]);
                assert(s0.nodes@[q].value is Some);
                assert(valid_utf8(s0.paths@[q]));
            }
        }
        match prev {
            None => {
                proof {
                    assert(s0@.remove(k) =~= s0@);
                    assert(self.tidy()) by {
                        assert forall|q: int|
                            1 <= q < self.nodes@.len() implies #[trigger] self.live_ok(q) by {
                            assert(s0.live_ok(q));
                            if q != t {
                                assert(self.nodes@[q] == s0.nodes@[q]);
                            }
                        }
                    }
                }
                None
            },
            Some(v) => {
                if self.nodes[t as usize].fill > 0 {
                    proof {
                        assert(self.tidy()) by {
                            assert forall|q: int|
                                1 <= q < self.nodes@.len() implies #[trigger] self.live_ok(q) by {
                                if q != t {
                                    assert(s0.live_ok(q));
                                    assert(self.nodes@[q] == s0.nodes@[q]);
                                }
                            }
                        }
                    }
                    return Some(v);
                }
                if t == 0 {
                    proof {
                        assert(self.tidy()) by {
                            assert forall|q: int|
                                1 <= q < self.nodes@.len() implies #[trigger] self.live_ok(q) by {
                                assert(s0.live_ok(q));
                                assert(self.nodes@[q] == s0.nodes@[q]);
                            }
                        }
                    }
                    return Some(v);
                }
                let mut dd = t;
                proof {
                    assert forall|q: int|
                        1 <= q < self.nodes@.len() && q != dd implies #[trigger] self.live_ok(
                        q,
                    ) by {
                        assert(s0.live_ok(q));
                        assert(self.nodes@[q] == s0.nodes@[q]);
                    }
                }
                loop
                    invariant_except_break
                        self.wf_core(),
                        self.valued_ok(),
                        0 < (dd as int) < self.nodes@.len(),
                        self.nodes@[dd as int].fill == 0,
                        self.nodes@[dd as int].value is None,
                        forall|q: int|
                            1 <= q < self.nodes@.len() && q != dd ==> #[trigger] self.live_ok(q),
                        self.as_map() == old(self).as_map().remove(k),
                        self.nodes@.len() <= old(self).nodes@.len(),
                    ensures
                        self.wf(),
                        self.as_map() == old(self).as_map().remove(k),
                        self.nodes@.len() <= old(self).nodes@.len(),
                    decreases self.nodes@.len(),
                {
                    let pp = self.reclaim(dd);
                    if pp == 0 {
                        proof {
                            assert forall|q: int|
                                1 <= q < self.nodes@.len() implies #[trigger] self.live_ok(q) by {}
                        }
                        break ;
                    }
                    if self.nodes[pp as usize].fill > 0 {
                        proof {
                            assert forall|q: int|
                                1 <= q < self.nodes@.len() implies #[trigger] self.live_ok(q) by {}
                        }
                        break ;
                    }
                    if self.nodes[pp as usize].value.is_some() {
                        proof {
                            assert forall|q: int|
                                1 <= q < self.nodes@.len() implies #[trigger] self.live_ok(q) by {}
                        }
                        break ;
                    }
                    dd = pp;
                }
                Some(v)
            },
        }
    }
}

impl<T> StringTree<T> {
    /// Some node below `m` carries a path at least as long as every other.
    spec fn max_path_below(self, i: int, m: int) -> bool {
        forall|j: int| 0 <= j < m ==> (#[trigger] self.paths@[j]).len() <= self.paths@[i].len()
    }

    proof fn lemma_argmax_path(self, m: int)
        requires
            1 <= m <= self.paths@.len(),
        ensures
            exists|i: int| 0 <= i < m && #[trigger] self.max_path_below(i, m),
        decreases m,
    {
        if m == 1 {
            assert(self.max_path_below(0, 1));
        } else {
            self.lemma_argmax_path(m - 1);
            let i0 = choose|i: int| 0 <= i < m - 1 && #[trigger] self.max_path_below(i, m - 1);
            if self.paths@[m - 1].len() > self.paths@[i0].len() {
                assert(self.max_path_below(m - 1, m));
            } else {
                assert(self.max_path_below(i0, m));
            }
        }
    }

    /// No leaked nodes: a well-formed arena that represents the empty map
    /// consists of exactly one node, the root.
    pub proof fn lemma_empty_map_single_node(self)
        requires
            self.wf(),
            self@ == Map::<Seq<u8>, T>::empty(),
        ensures
            self.node_count() == 1,
    {
        let n = self.nodes@.len() as int;
        if n >= 2 {
            self.lemma_argmax_path(n);
            let i = choose|i: int| 0 <= i < n && #[trigger] self.max_path_below(i, n);
            if self.paths@[i].len() == 0 {
                assert(self.paths@[1].len() <= 0);
                assert(self.paths@[1] =~= Seq::<u8>::empty());
                assert(self.paths@[0] == self.paths@[1]);
                assert(false);
            }
            assert(i != 0);
            if self.nodes@[i].fill != 0 {
                assert(self.fill_ok(i));
                lemma_nonzero_below_find(self.nodes@[i].children@, 256);
                let b = choose|b: int| 0 <= b < 256 && self.nodes@[i].children@[b] != 0;
                assert(self.edge_target_ok(i, b));
                let c = self.child_at(i, b);
                assert(self.paths@[c] == self.paths@[i].push(b as u8));
                assert(self.paths@[c].len() == self.paths@[i].len() + 1);
                assert(self.paths@[c].len() <= self.paths@[i].len());
                assert(false);
            }
            assert(self.live_ok(i));
            assert(self.nodes@[i].value is Some);
            self.lemma_view_at(i);
            assert(self@.contains_key(self.paths@[i]));
            assert(false);
        }
    }
}

impl<T> StringTree<T> {
    /// Occupied single-byte edges of node `i`, lead bytes `b` and up.
    spec fn kids1(self, i: int, b: int) -> Seq<u32>
        decreases 128 - b,
    {
        if !(0 <= b < 128) {
            Seq::empty()
        } else {
            let c = self.nodes@[i].children@[b];
            (if c != 0 {
                seq![c]
            } else {
                Seq::<u32>::empty()
            }) + self.kids1(i, b + 1)
        }
    }

    /// Occupied continuation edges directly below node `i`: the terminal
    /// nodes of complete multi-byte characters.
    spec fn conts1(self, i: int, b: int) -> Seq<u32>
        decreases 0xc0 - b,
    {
        if !(0x80 <= b < 0xc0) {
            Seq::empty()
        } else {
            let c = self.nodes@[i].children@[b];
            (if c != 0 {
                seq![c]
            } else {
                Seq::<u32>::empty()
            }) + self.conts1(i, b + 1)
        }
    }

    /// Terminal nodes two continuation levels below node `i`.
    spec fn conts2(self, i: int, b: int) -> Seq<u32>
        decreases 0xc0 - b,
    {
        if !(0x80 <= b < 0xc0) {
            Seq::empty()
        } else {
            let c = self.nodes@[i].children@[b];
            (if c != 0 {
                self.conts1(c as int, 0x80)
            } else {
                Seq::<u32>::empty()
            }) + self.conts2(i, b + 1)
        }
    }

    /// Terminal nodes three continuation levels below node `i`.
    spec fn conts3(self, i: int, b: int) -> Seq<u32>
        decreases 0xc0 - b,
    {
        if !(0x80 <= b < 0xc0) {
            Seq::empty()
        } else {
            let c = self.nodes@[i].children@[b];
            (if c != 0 {
                self.conts2(c as int, 0x80)
            } else {
                Seq::<u32>::empty()
            }) + self.conts3(i, b + 1)
        }
    }

    /// Whole two-byte characters below node `i`, lead bytes `b` and up.
    spec fn kids2(self, i: int, b: int) -> Seq<u32>
        decreases 0xe0 - b,
    {
        if !(0xc0 <= b < 0xe0) {
            Seq::empty()
        } else {
            let c = self.nodes@[i].children@[b];
            (if c != 0 {
                self.conts1(c as int, 0x80)
            } else {
                Seq::<u32>::empty()
            }) + self.kids2(i, b + 1)
        }
    }

    /// Whole three-byte characters below node `i`, lead bytes `b` and up.
    spec fn kids3(self, i: int, b: int) -> Seq<u32>
        decreases 0xf0 - b,
    {
        if !(0xe0 <= b < 0xf0) {
            Seq::empty()
        } else {
            let c = self.nodes@[i].children@[b];
            (if c != 0 {
                self.conts2(c as int, 0x80)
            } else {
                Seq::<u32>::empty()
            }) + self.kids3(i, b + 1)
        }
    }

    /// Whole four-byte characters below node `i`, lead bytes `b` and up.
    spec fn kids4(self, i: int, b: int) -> Seq<u32>
        decreases 0xf8 - b,
    {
        if !(0xf0 <= b < 0xf8) {
            Seq::empty()
        } else {
            let c = self.nodes@[i].children@[b];
            (if c != 0 {
                self.conts3(c as int, 0x80)
            } else {
                Seq::<u32>::empty()
            }) + self.kids4(i, b + 1)
        }
    }

    /// The logical children of node `i`: one node per whole Unicode
    /// character reachable directly below it, single-byte characters first,
    /// then the two-, three- and four-byte classes, each in ascending
    /// lead-byte order with continuation bytes enumerated innermost.
    /// [`StringTree::lemma_children_ordered`] states that order (and the
    /// absence of duplicates) publicly, and
    /// [`StringTree::lemma_children_complete`] states that no whole-character
    /// child is missing.
    pub closed spec fn logical_children(self, i: int) -> Seq<u32> {
        self.kids1(i, 0) + self.kids2(i, 0xc0) + self.kids3(i, 0xe0) + self.kids4(i, 0xf0)
    }

    /// Node `e` sits exactly one whole character below node `i`.
    pub open spec fn whole_char_child(self, i: int, e: int) -> bool {
        &&& 0 < e < self.node_count()
        &&& self.path_at(i).len() < self.path_at(e).len()
        &&& self.path_at(e).take(self.path_at(i).len() as int) == self.path_at(i)
        &&& class_complete(self.path_at(e).skip(self.path_at(i).len() as int))
    }
}

impl<T> StringTree<T> {
    /// Every single-byte child is a real node one ASCII edge below `i`.
    proof fn lemma_kids1_elems(self, i: int, b: int)
        requires
            self.wf_core(),
            0 <= i < self.nodes@.len(),
            0 <= b,
        ensures
            forall|k: int|
                0 <= k < self.kids1(i, b).len() ==> {
                    let e = #[trigger] self.kids1(i, b)[k] as int;
                    0 < e < self.nodes@.len() && exists|l: u8|
                        is_leading_byte_width_1(l) && self.paths@[e] == self.paths@[i].push(l)
                },
        decreases 128 - b,
    {
        if 0 <= b < 128 {
            self.lemma_kids1_elems(i, b + 1);
            let c = self.nodes@[i].children@[b];
            let chunk = if c != 0 {
                seq![c]
            } else {
                Seq::<u32>::empty()
            };
            if c != 0 {
                assert(self.edge_target_ok(i, b));
                assert(is_leading_byte_width_1(b as u8) && self.paths@[c as int]
                    == self.paths@[i].push(b as u8));
            }
            assert forall|k: int| 0 <= k < self.kids1(i, b).len() implies ({
                let e = #[trigger] self.kids1(i, b)[k] as int;
                0 < e < self.nodes@.len() && exists|l: u8|
                    is_leading_byte_width_1(l) && self.paths@[e] == self.paths@[i].push(l)
            }) by {
                assert(self.kids1(i, b) == chunk + self.kids1(i, b + 1));
                if k >= chunk.len() {
                    assert(self.kids1(i, b)[k] == self.kids1(i, b + 1)[k - chunk.len()]);
                }
            }
        }
    }

    /// Every terminal one continuation level below `i` is a real node one
    /// continuation edge below it.
    proof fn lemma_conts1_elems(self, i: int, b: int)
        requires
            self.wf_core(),
            0 <= i < self.nodes@.len(),
            0x80 <= b,
        ensures
            forall|k: int|
                0 <= k < self.conts1(i, b).len() ==> {
                    let e = #[trigger] self.conts1(i, b)[k] as int;
                    0 < e < self.nodes@.len() && exists|c1: u8|
                        is_continuation_byte(c1) && self.paths@[e] == self.paths@[i].push(c1)
                },
        decreases 0xc0 - b,
    {
        if 0x80 <= b < 0xc0 {
            self.lemma_conts1_elems(i, b + 1);
            let c = self.nodes@[i].children@[b];
            let chunk = if c != 0 {
                seq![c]
            } else {
                Seq::<u32>::empty()
            };
            if c != 0 {
                assert(self.edge_target_ok(i, b));
                assert(is_continuation_byte(b as u8) && self.paths@[c as int]
                    == self.paths@[i].push(b as u8));
            }
            assert forall|k: int| 0 <= k < self.conts1(i, b).len() implies ({
                let e = #[trigger] self.conts1(i, b)[k] as int;
                0 < e < self.nodes@.len() && exists|c1: u8|
                    is_continuation_byte(c1) && self.paths@[e] == self.paths@[i].push(c1)
            }) by {
                assert(self.conts1(i, b) == chunk + self.conts1(i, b + 1));
                if k >= chunk.len() {
                    assert(self.conts1(i, b)[k] == self.conts1(i, b + 1)[k - chunk.len()]);
                }
            }
        }
    }

    /// Every terminal two continuation levels below `i` is a real node two
    /// continuation edges below it.
    proof fn lemma_conts2_elems(self, i: int, b: int)
        requires
            self.wf_core(),
            0 <= i < self.nodes@.len(),
            0x80 <= b,
        ensures
            forall|k: int|
                0 <= k < self.conts2(i, b).len() ==> {
                    let e = #[trigger] self.conts2(i, b)[k] as int;
                    0 < e < self.nodes@.len() && exists|c1: u8, c2: u8|
                        is_continuation_byte(c1) && is_continuation_byte(c2) && self.paths@[e]
                            == self.paths@[i].push(c1).push(c2)
                },
        decreases 0xc0 - b,
    {
        if 0x80 <= b < 0xc0 {
            self.lemma_conts2_elems(i, b + 1);
            let c = self.nodes@[i].children@[b];
            if c != 0 {
                assert(self.edge_target_ok(i, b));
                self.lemma_conts1_elems(c as int, 0x80);
                assert forall|k: int| 0 <= k < self.conts1(c as int, 0x80).len() implies ({
                    let e = #[trigger] self.conts1(c as int, 0x80)[k] as int;
                    0 < e < self.nodes@.len() && exists|c1: u8, c2: u8|
                        is_continuation_byte(c1) && is_continuation_byte(c2) && self.paths@[e]
                            == self.paths@[i].push(c1).push(c2)
                }) by {
                    let e = self.conts1(c as int, 0x80)[k] as int;
                    let c2w = choose|c2: u8|
                        is_continuation_byte(c2) && self.paths@[e] == self.paths@[c as int].push(
                            c2,
                        );
                    assert(is_continuation_byte(b as u8) && is_continuation_byte(c2w)
                        && self.paths@[e] == self.paths@[i].push(b as u8).push(c2w));
                }
            }
            let chunk = if c != 0 {
                self.conts1(c as int, 0x80)
            } else {
                Seq::<u32>::empty()
            };
            assert forall|k: int| 0 <= k < self.conts2(i, b).len() implies ({
                let e = #[trigger] self.conts2(i, b)[k] as int;
                0 < e < self.nodes@.len() && exists|c1: u8, c2: u8|
                    is_continuation_byte(c1) && is_continuation_byte(c2) && self.paths@[e]
                        == self.paths@[i].push(c1).push(c2)
            }) by {
                assert(self.conts2(i, b) == chunk + self.conts2(i, b + 1));
                if k >= chunk.len() {
                    assert(self.conts2(i, b)[k] == self.conts2(i, b + 1)[k - chunk.len()]);
                } else {
                    assert(self.conts2(i, b)[k] == chunk[k]);
                }
            }
        }
    }

    /// Every terminal three continuation levels below `i` is a real node
    /// three continuation edges below it.
    proof fn lemma_conts3_elems(self, i: int, b: int)
        requires
            self.wf_core(),
            0 <= i < self.nodes@.len(),
            0x80 <= b,
        ensures
            forall|k: int|
                0 <= k < self.conts3(i, b).len() ==> {
                    let e = #[trigger] self.conts3(i, b)[k] as int;
                    0 < e < self.nodes@.len() && exists|c1: u8, c2: u8, c3: u8|
                        is_continuation_byte(c1) && is_continuation_byte(c2)
                            && is_continuation_byte(c3) && self.paths@[e] == self.paths@[i].push(
                            c1,
                        ).push(c2).push(c3)
                },
        decreases 0xc0 - b,
    {
        if 0x80 <= b < 0xc0 {
            self.lemma_conts3_elems(i, b + 1);
            let c = self.nodes@[i].children@[b];
            if c != 0 {
                assert(self.edge_target_ok(i, b));
                self.lemma_conts2_elems(c as int, 0x80);
                assert forall|k: int| 0 <= k < self.conts2(c as int, 0x80).len() implies ({
                    let e = #[trigger] self.conts2(c as int, 0x80)[k] as int;
                    0 < e < self.nodes@.len() && exists|c1: u8, c2: u8, c3: u8|
                        is_continuation_byte(c1) && is_continuation_byte(c2)
                            && is_continuation_byte(c3) && self.paths@[e] == self.paths@[i].push(
                            c1,
                        ).push(c2).push(c3)
                }) by {
                    let e = self.conts2(c as int, 0x80)[k] as int;
                    let (c2w, c3w) = choose|c2: u8, c3: u8|
                        is_continuation_byte(c2) && is_continuation_byte(c3) && self.paths@[e]
                            == self.paths@[c as int].push(c2).push(c3);
                    assert(is_continuation_byte(b as u8) && is_continuation_byte(c2w)
                        && is_continuation_byte(c3w) && self.paths@[e] == self.paths@[i].push(
                        b as u8,
                    ).push(c2w).push(c3w));
                }
            }
            let chunk = if c != 0 {
                self.conts2(c as int, 0x80)
            } else {
                Seq::<u32>::empty()
            };
            assert forall|k: int| 0 <= k < self.conts3(i, b).len() implies ({
                let e = #[trigger] self.conts3(i, b)[k] as int;
                0 < e < self.nodes@.len() && exists|c1: u8, c2: u8, c3: u8|
                    is_continuation_byte(c1) && is_continuation_byte(c2) && is_continuation_byte(
                        c3,
                    ) && self.paths@[e] == self.paths@[i].push(c1).push(c2).push(c3)
            }) by {
                assert(self.conts3(i, b) == chunk + self.conts3(i, b + 1));
                if k >= chunk.len() {
                    assert(self.conts3(i, b)[k] == self.conts3(i, b + 1)[k - chunk.len()]);
                } else {
                    assert(self.conts3(i, b)[k] == chunk[k]);
                }
            }
        }
    }

    /// Every yielded two-byte-class child sits one whole two-byte character
    /// below `i`.
    proof fn lemma_kids2_elems(self, i: int, b: int)
        requires
            self.wf_core(),
            0 <= i < self.nodes@.len(),
            0xc0 <= b,
        ensures
            forall|k: int|
                0 <= k < self.kids2(i, b).len() ==> {
                    let e = #[trigger] self.kids2(i, b)[k] as int;
                    0 < e < self.nodes@.len() && exists|l: u8, c1: u8|
                        is_leading_byte_width_2(l) && is_continuation_byte(c1) && self.paths@[e]
                            == self.paths@[i].push(l).push(c1)
                },
        decreases 0xe0 - b,
    {
        if 0xc0 <= b < 0xe0 {
            self.lemma_kids2_elems(i, b + 1);
            let c = self.nodes@[i].children@[b];
            if c != 0 {
                assert(self.edge_target_ok(i, b));
                self.lemma_conts1_elems(c as int, 0x80);
                assert forall|k: int| 0 <= k < self.conts1(c as int, 0x80).len() implies ({
                    let e = #[trigger] self.conts1(c as int, 0x80)[k] as int;
                    0 < e < self.nodes@.len() && exists|l: u8, c1: u8|
                        is_leading_byte_width_2(l) && is_continuation_byte(c1) && self.paths@[e]
                            == self.paths@[i].push(l).push(c1)
                }) by {
                    let e = self.conts1(c as int, 0x80)[k] as int;
                    let c1w = choose|c1: u8|
                        is_continuation_byte(c1) && self.paths@[e] == self.paths@[c as int].push(
                            c1,
                        );
                    assert(is_leading_byte_width_2(b as u8) && is_continuation_byte(c1w)
                        && self.paths@[e] == self.paths@[i].push(b as u8).push(c1w));
                }
            }
            let chunk = if c != 0 {
                self.conts1(c as int, 0x80)
            } else {
                Seq::<u32>::empty()
            };
            assert forall|k: int| 0 <= k < self.kids2(i, b).len() implies ({
                let e = #[trigger] self.kids2(i, b)[k] as int;
                0 < e < self.nodes@.len() && exists|l: u8, c1: u8|
                    is_leading_byte_width_2(l) && is_continuation_byte(c1) && self.paths@[e]
                        == self.paths@[i].push(l).push(c1)
            }) by {
                assert(self.kids2(i, b) == chunk + self.kids2(i, b + 1));
                if k >= chunk.len() {
                    assert(self.kids2(i, b)[k] == self.kids2(i, b + 1)[k - chunk.len()]);
                } else {
                    assert(self.kids2(i, b)[k] == chunk[k]);
                }
            }
        }
    }

    /// Every yielded three-byte-class child sits one whole three-byte
    /// character below `i`.
    proof fn lemma_kids3_elems(self, i: int, b: int)
        requires
            self.wf_core(),
            0 <= i < self.nodes@.len(),
            0xe0 <= b,
        ensures
            forall|k: int|
                0 <= k < self.kids3(i, b).len() ==> {
                    let e = #[trigger] self.kids3(i, b)[k] as int;
                    0 < e < self.nodes@.len() && exists|l: u8, c1: u8, c2: u8|
                        is_leading_byte_width_3(l) && is_continuation_byte(c1)
                            && is_continuation_byte(c2) && self.paths@[e] == self.paths@[i].push(
                            l,
                        ).push(c1).push(c2)
                },
        decreases 0xf0 - b,
    {
        if 0xe0 <= b < 0xf0 {
            self.lemma_kids3_elems(i, b + 1);
            let c = self.nodes@[i].children@[b];
            if c != 0 {
                assert(self.edge_target_ok(i, b));
                self.lemma_conts2_elems(c as int, 0x80);
                assert forall|k: int| 0 <= k < self.conts2(c as int, 0x80).len() implies ({
                    let e = #[trigger] self.conts2(c as int, 0x80)[k] as int;
                    0 < e < self.nodes@.len() && exists|l: u8, c1: u8, c2: u8|
                        is_leading_byte_width_3(l) && is_continuation_byte(c1)
                            && is_continuation_byte(c2) && self.paths@[e] == self.paths@[i].push(
                            l,
                        ).push(c1).push(c2)
                }) by {
                    let e = self.conts2(c as int, 0x80)[k] as int;
                    let (c1w, c2w) = choose|c1: u8, c2: u8|
                        is_continuation_byte(c1) && is_continuation_byte(c2) && self.paths@[e]
                            == self.paths@[c as int].push(c1).push(c2);
                    assert(is_leading_byte_width_3(b as u8) && is_continuation_byte(c1w)
                        && is_continuation_byte(c2w) && self.paths@[e] == self.paths@[i].push(
                        b as u8,
                    ).push(c1w).push(c2w));
                }
            }
            let chunk = if c != 0 {
                self.conts2(c as int, 0x80)
            } else {
                Seq::<u32>::empty()
            };
            assert forall|k: int| 0 <= k < self.kids3(i, b).len() implies ({
                let e = #[trigger] self.kids3(i, b)[k] as int;
                0 < e < self.nodes@.len() && exists|l: u8, c1: u8, c2: u8|
                    is_leading_byte_width_3(l) && is_continuation_byte(c1) && is_continuation_byte(
                        c2,
                    ) && self.paths@[e] == self.paths@[i].push(l).push(c1).push(c2)
            }) by {
                assert(self.kids3(i, b) == chunk + self.kids3(i, b + 1));
                if k >= chunk.len() {
                    assert(self.kids3(i, b)[k] == self.kids3(i, b + 1)[k - chunk.len()]);
                } else {
                    assert(self.kids3(i, b)[k] == chunk[k]);
                }
            }
        }
    }

    /// Every yielded four-byte-class child sits one whole four-byte
    /// character below `i`.
    proof fn lemma_kids4_elems(self, i: int, b: int)
        requires
            self.wf_core(),
            0 <= i < self.nodes@.len(),
            0xf0 <= b,
        ensures
            forall|k: int|
                0 <= k < self.kids4(i, b).len() ==> {
                    let e = #[trigger] self.kids4(i, b)[k] as int;
                    0 < e < self.nodes@.len() && exists|l: u8, c1: u8, c2: u8, c3: u8|
                        is_leading_byte_width_4(l) && is_continuation_byte(c1)
                            && is_continuation_byte(c2) && is_continuation_byte(c3)
                            && self.paths@[e] == self.paths@[i].push(l).push(c1).push(c2).push(c3)
                },
        decreases 0xf8 - b,
    {
        if 0xf0 <= b < 0xf8 {
            self.lemma_kids4_elems(i, b + 1);
            let c = self.nodes@[i].children@[b];
            if c != 0 {
                assert(self.edge_target_ok(i, b));
                self.lemma_conts3_elems(c as int, 0x80);
                assert forall|k: int| 0 <= k < self.conts3(c as int, 0x80).len() implies ({
                    let e = #[trigger] self.conts3(c as int, 0x80)[k] as int;
                    0 < e < self.nodes@.len() && exists|l: u8, c1: u8, c2: u8, c3: u8|
                        is_leading_byte_width_4(l) && is_continuation_byte(c1)
                            && is_continuation_byte(c2) && is_continuation_byte(c3)
                            && self.paths@[e] == self.paths@[i].push(l).push(c1).push(c2).push(c3)
                }) by {
                    let e = self.conts3(c as int, 0x80)[k] as int;
                    let (c1w, c2w, c3w) = choose|c1: u8, c2: u8, c3: u8|
                        is_continuation_byte(c1) && is_continuation_byte(c2)
                            && is_continuation_byte(c3) && self.paths@[e] == self.paths@[
                            c as int
                        ].push(c1).push(c2).push(c3);
                    assert(is_leading_byte_width_4(b as u8) && is_continuation_byte(c1w)
                        && is_continuation_byte(c2w) && is_continuation_byte(c3w) && self.paths@[e]
                        == self.paths@[i].push(b as u8).push(c1w).push(c2w).push(c3w));
                }
            }
            let chunk = if c != 0 {
                self.conts3(c as int, 0x80)
            } else {
                Seq::<u32>::empty()
            };
            assert forall|k: int| 0 <= k < self.kids4(i, b).len() implies ({
                let e = #[trigger] self.kids4(i, b)[k] as int;
                0 < e < self.nodes@.len() && exists|l: u8, c1: u8, c2: u8, c3: u8|
                    is_leading_byte_width_4(l) && is_continuation_byte(c1) && is_continuation_byte(
                        c2,
                    ) && is_continuation_byte(c3) && self.paths@[e] == self.paths@[i].push(l).push(
                        c1,
                    ).push(c2).push(c3)
            }) by {
                assert(self.kids4(i, b) == chunk + self.kids4(i, b + 1));
                if k >= chunk.len() {
                    assert(self.kids4(i, b)[k] == self.kids4(i, b + 1)[k - chunk.len()]);
                } else {
                    assert(self.kids4(i, b)[k] == chunk[k]);
                }
            }
        }
    }
}

/// An element of the right summand is an element of a concatenation.
proof fn lemma_concat_contains(a: Seq<u32>, b: Seq<u32>, e: u32)
    requires
        a.contains(e) || b.contains(e),
    ensures
        (a + b).contains(e),
{
    if a.contains(e) {
        let k = choose|k: int| 0 <= k < a.len() && a[k] == e;
        assert((a + b)[k] == e);
    } else {
        let k = choose|k: int| 0 <= k < b.len() && b[k] == e;
        assert((a + b)[k + a.len()] == e);
    }
}

impl<T> StringTree<T> {
    /// A present single-byte edge is enumerated.
    proof fn lemma_kids1_mem(self, i: int, start: int, b: int)
        requires
            0 <= start <= b < 128,
            self.child_at(i, b) != 0,
        ensures
            self.kids1(i, start).contains(self.nodes@[i].children@[b]),
        decreases b - start,
    {
        let e = self.nodes@[i].children@[b];
        let chunk = if self.nodes@[i].children@[start] != 0 {
            seq![self.nodes@[i].children@[start]]
        } else {
            Seq::<u32>::empty()
        };
        if start == b {
            assert(chunk[0] == e);
            lemma_concat_contains(chunk, self.kids1(i, start + 1), e);
        } else {
            self.lemma_kids1_mem(i, start + 1, b);
            lemma_concat_contains(chunk, self.kids1(i, start + 1), e);
        }
    }

    /// A present continuation edge is enumerated.
    proof fn lemma_conts1_mem(self, i: int, start: int, b: int)
        requires
            0x80 <= start <= b < 0xc0,
            self.child_at(i, b) != 0,
        ensures
            self.conts1(i, start).contains(self.nodes@[i].children@[b]),
        decreases b - start,
    {
        let e = self.nodes@[i].children@[b];
        let chunk = if self.nodes@[i].children@[start] != 0 {
            seq![self.nodes@[i].children@[start]]
        } else {
            Seq::<u32>::empty()
        };
        if start == b {
            assert(chunk[0] == e);
            lemma_concat_contains(chunk, self.conts1(i, start + 1), e);
        } else {
            self.lemma_conts1_mem(i, start + 1, b);
            lemma_concat_contains(chunk, self.conts1(i, start + 1), e);
        }
    }

    /// A terminal found below a present continuation edge is enumerated.
    proof fn lemma_conts2_mem(self, i: int, start: int, b: int, e: u32)
        requires
            0x80 <= start <= b < 0xc0,
            self.child_at(i, b) != 0,
            self.conts1(self.child_at(i, b), 0x80).contains(e),
        ensures
            self.conts2(i, start).contains(e),
        decreases b - start,
    {
        let c = self.nodes@[i].children@[start];
        let chunk = if c != 0 {
            self.conts1(c as int, 0x80)
        } else {
            Seq::<u32>::empty()
        };
        if start == b {
            lemma_concat_contains(chunk, self.conts2(i, start + 1), e);
        } else {
            self.lemma_conts2_mem(i, start + 1, b, e);
            lemma_concat_contains(chunk, self.conts2(i, start + 1), e);
        }
    }

    /// A terminal found below a present continuation edge is enumerated.
    proof fn lemma_conts3_mem(self, i: int, start: int, b: int, e: u32)
        requires
            0x80 <= start <= b < 0xc0,
            self.child_at(i, b) != 0,
            self.conts2(self.child_at(i, b), 0x80).contains(e),
        ensures
            self.conts3(i, start).contains(e),
        decreases b - start,
    {
        let c = self.nodes@[i].children@[start];
        let chunk = if c != 0 {
            self.conts2(c as int, 0x80)
        } else {
            Seq::<u32>::empty()
        };
        if start == b {
            lemma_concat_contains(chunk, self.conts3(i, start + 1), e);
        } else {
            self.lemma_conts3_mem(i, start + 1, b, e);
            lemma_concat_contains(chunk, self.conts3(i, start + 1), e);
        }
    }

    /// A terminal found below a present two-byte lead edge is enumerated.
    proof fn lemma_kids2_mem(self, i: int, start: int, b: int, e: u32)
        requires
            0xc0 <= start <= b < 0xe0,
            self.child_at(i, b) != 0,
            self.conts1(self.child_at(i, b), 0x80).contains(e),
        ensures
            self.kids2(i, start).contains(e),
        decreases b - start,
    {
        let c = self.nodes@[i].children@[start];
        let chunk = if c != 0 {
            self.conts1(c as int, 0x80)
        } else {
            Seq::<u32>::empty()
        };
        if start == b {
            lemma_concat_contains(chunk, self.kids2(i, start + 1), e);
        } else {
            self.lemma_kids2_mem(i, start + 1, b, e);
            lemma_concat_contains(chunk, self.kids2(i, start + 1), e);
        }
    }

    /// A terminal found below a present three-byte lead edge is enumerated.
    proof fn lemma_kids3_mem(self, i: int, start: int, b: int, e: u32)
        requires
            0xe0 <= start <= b < 0xf0,
            self.child_at(i, b) != 0,
            self.conts2(self.child_at(i, b), 0x80).contains(e),
        ensures
            self.kids3(i, start).contains(e),
        decreases b - start,
    {
        let c = self.nodes@[i].children@[start];
        let chunk = if c != 0 {
            self.conts2(c as int, 0x80)
        } else {
            Seq::<u32>::empty()
        };
        if start == b {
            lemma_concat_contains(chunk, self.kids3(i, start + 1), e);
        } else {
            self.lemma_kids3_mem(i, start + 1, b, e);
            lemma_concat_contains(chunk, self.kids3(i, start + 1), e);
        }
    }

    /// A terminal found below a present four-byte lead edge is enumerated.
    proof fn lemma_kids4_mem(self, i: int, start: int, b: int, e: u32)
        requires
            0xf0 <= start <= b < 0xf8,
            self.child_at(i, b) != 0,
            self.conts3(self.child_at(i, b), 0x80).contains(e),
        ensures
            self.kids4(i, start).contains(e),
        decreases b - start,
    {
        let c = self.nodes@[i].children@[start];
        let chunk = if c != 0 {
            self.conts3(c as int, 0x80)
        } else {
            Seq::<u32>::empty()
        };
        if start == b {
            lemma_concat_contains(chunk, self.kids4(i, start + 1), e);
        } else {
            self.lemma_kids4_mem(i, start + 1, b, e);
            lemma_concat_contains(chunk, self.kids4(i, start + 1), e);
        }
    }

    /// The node sitting on a strict-prefix extension is linked through its
    /// ancestor chain: the ancestor at each intermediate depth exists, and
    /// each consecutive pair is joined by the expected edge.
    proof fn lemma_ancestor_at(self, i: int, e: int, m: int) -> (a: int)
        requires
            self.wf_core(),
            0 <= i < self.nodes@.len(),
            0 <= e < self.nodes@.len(),
            self.paths@[i].len() <= m < self.paths@[e].len(),
            self.paths@[i] == self.paths@[e].take(self.paths@[i].len() as int),
        ensures
            0 <= a < self.nodes@.len(),
            self.paths@[a] == self.paths@[e].take(m),
            self.child_at(a, self.paths@[e][m] as int) != 0,
            self.paths@[self.child_at(a, self.paths@[e][m] as int)] == self.paths@[e].take(m + 1),
        decreases self.paths@[e].len() - m,
    {
        if m + 1 == self.paths@[e].len() {
            assert(e != 0);
            assert(self.parent_ok(e));
            let p = self.nodes@[e].parent as int;
            let pb = self.nodes@[e].parent_byte as int;
            assert(self.edge_target_ok(p, pb));
            assert(self.paths@[e] == self.paths@[p].push(pb as u8));
            assert(self.paths@[p] =~= self.paths@[e].take(m));
            assert(self.paths@[e][m] == pb as u8);
            assert(self.paths@[e].take(m + 1) =~= self.paths@[e]);
            p
        } else {
            let a2 = self.lemma_ancestor_at(i, e, m + 1);
            let c = self.child_at(a2, self.paths@[e][m + 1] as int);
            assert(a2 != 0) by {
                assert(self.paths@[a2].len() == m + 1 > 0);
                if a2 == 0 {
                    assert(self.paths@[a2] =~= Seq::<u8>::empty());
                    assert(false);
                }
            }
            assert(self.parent_ok(a2));
            let p = self.nodes@[a2].parent as int;
            let pb = self.nodes@[a2].parent_byte as int;
            assert(self.edge_target_ok(p, pb));
            assert(self.paths@[a2] == self.paths@[p].push(pb as u8));
            assert(self.paths@[p] =~= self.paths@[e].take(m));
            assert(self.paths@[a2][m] == pb as u8);
            assert(self.paths@[a2][m] == self.paths@[e].take(m + 1)[m]);
            assert(self.paths@[e].take(m + 1)[m] == self.paths@[e][m]);
            assert(self.child_at(p, pb) == a2);
            assert(self.paths@[a2] =~= self.paths@[e].take(m + 1));
            p
        }
    }

    /// Child enumeration is complete: every node exactly one whole
    /// character below node `i` appears among its logical children.
    pub proof fn lemma_children_complete(self, i: int, e: int)
        requires
            self.wf(),
            0 <= i < self.node_count(),
            self.whole_char_child(i, e),
        ensures
            self.logical_children(i).contains(e as u32),
    {
        let p = self.paths@[i];
        let pe = self.paths@[e];
        let s = pe.skip(p.len() as int);
        assert(p + s =~= pe);
        assert(forall|j: int| 0 <= j < s.len() ==> (#[trigger] s[j]) == pe[p.len() + j]);
        let a1 = self.kids1(i, 0);
        let a2 = self.kids2(i, 0xc0);
        let a3 = self.kids3(i, 0xe0);
        let a4 = self.kids4(i, 0xf0);
        let q0 = self.lemma_ancestor_at(i, e, p.len() as int);
        assert(pe.take(p.len() as int) == p);
        assert(q0 == i) by {
            if q0 != i {
                assert(self.paths@[q0] != self.paths@[i]);
            }
        }
        let c1 = self.child_at(i, s[0] as int);
        assert(c1 != 0 && self.paths@[c1] == pe.take(p.len() as int + 1));
        assert(self.edge_target_ok(i, s[0] as int));
        if s.len() == 1 {
            assert(pe.take(p.len() as int + 1) =~= pe);
            assert(c1 == e) by {
                if c1 != e {
                    assert(self.paths@[c1] != self.paths@[e]);
                }
            }
            self.lemma_kids1_mem(i, 0, s[0] as int);
        } else {
            let q1 = self.lemma_ancestor_at(i, e, p.len() as int + 1);
            assert(q1 == c1) by {
                if q1 != c1 {
                    assert(self.paths@[q1] != self.paths@[c1]);
                }
            }
            let c2 = self.child_at(c1, s[1] as int);
            assert(self.edge_target_ok(c1, s[1] as int));
            assert(c2 != 0 && self.paths@[c2] == pe.take(p.len() as int + 2));
            if s.len() == 2 {
                assert(pe.take(p.len() as int + 2) =~= pe);
                assert(c2 == e) by {
                    if c2 != e {
                        assert(self.paths@[c2] != self.paths@[e]);
                    }
                }
                self.lemma_conts1_mem(c1, 0x80, s[1] as int);
                self.lemma_kids2_mem(i, 0xc0, s[0] as int, e as u32);
            } else {
                let q2 = self.lemma_ancestor_at(i, e, p.len() as int + 2);
                assert(q2 == c2) by {
                    if q2 != c2 {
                        assert(self.paths@[q2] != self.paths@[c2]);
                    }
                }
                let c3 = self.child_at(c2, s[2] as int);
                assert(self.edge_target_ok(c2, s[2] as int));
                assert(c3 != 0 && self.paths@[c3] == pe.take(p.len() as int + 3));
                if s.len() == 3 {
                    assert(pe.take(p.len() as int + 3) =~= pe);
                    assert(c3 == e) by {
                        if c3 != e {
                            assert(self.paths@[c3] != self.paths@[e]);
                        }
                    }
                    self.lemma_conts1_mem(c2, 0x80, s[2] as int);
                    self.lemma_conts2_mem(c1, 0x80, s[1] as int, e as u32);
                    self.lemma_kids3_mem(i, 0xe0, s[0] as int, e as u32);
                } else {
                    let q3 = self.lemma_ancestor_at(i, e, p.len() as int + 3);
                    assert(q3 == c3) by {
                        if q3 != c3 {
                            assert(self.paths@[q3] != self.paths@[c3]);
                        }
                    }
                    let c4 = self.child_at(c3, s[3] as int);
                    assert(self.edge_target_ok(c3, s[3] as int));
                    assert(c4 != 0 && self.paths@[c4] == pe.take(p.len() as int + 4));
                    assert(pe.take(p.len() as int + 4) =~= pe);
                    assert(c4 == e) by {
                        if c4 != e {
                            assert(self.paths@[c4] != self.paths@[e]);
                        }
                    }
                    self.lemma_conts1_mem(c3, 0x80, s[3] as int);
                    self.lemma_conts2_mem(c2, 0x80, s[2] as int, e as u32);
                    self.lemma_conts3_mem(c1, 0x80, s[1] as int, e as u32);
                    self.lemma_kids4_mem(i, 0xf0, s[0] as int, e as u32);
                }
            }
        }
        if a1.contains(e as u32) || a2.contains(e as u32) {
            lemma_concat_contains(a1, a2, e as u32);
        }
        if (a1 + a2).contains(e as u32) || a3.contains(e as u32) {
            lemma_concat_contains(a1 + a2, a3, e as u32);
        }
        lemma_concat_contains((a1 + a2) + a3, a4, e as u32);
    }
}

impl<T> StringTree<T> {
    /// Single-byte children are enumerated in strictly ascending edge-byte
    /// order, each one whole byte below node `i` with edge byte `b` or more.
    proof fn lemma_kids1_pairwise(self, i: int, b: int)
        requires
            self.wf_core(),
            0 <= i < self.nodes@.len(),
            0 <= b,
        ensures
            forall|k: int|
                0 <= k < self.kids1(i, b).len() ==> ({
                    let e = #[trigger] self.kids1(i, b)[k] as int;
                    let pl = self.paths@[i].len() as int;
                    &&& 0 < e < self.nodes@.len()
                    &&& self.paths@[e].len() == pl + 1
                    &&& self.paths@[e].take(pl) == self.paths@[i]
                    &&& b <= self.paths@[e][pl] < 0x80
                }),
            forall|k1: int, k2: int|
                #![trigger self.kids1(i, b)[k1], self.kids1(i, b)[k2]]
                0 <= k1 < k2 < self.kids1(i, b).len() ==> self.paths@[self.kids1(i, b)[k1] as int][
                    self.paths@[i].len() as int
                ] < self.paths@[self.kids1(i, b)[k2] as int][self.paths@[i].len() as int],
        decreases 128 - b,
    {
        if 0 <= b < 128 {
            self.lemma_kids1_pairwise(i, b + 1);
            let pl = self.paths@[i].len() as int;
            let c = self.nodes@[i].children@[b];
            let chunk = if c != 0 {
                seq![c]
            } else {
                Seq::<u32>::empty()
            };
            let rest = self.kids1(i, b + 1);
            if c != 0 {
                assert(self.edge_target_ok(i, b));
                assert(self.paths@[c as int] == self.paths@[i].push(b as u8));
                assert(self.paths@[c as int].take(pl) =~= self.paths@[i]);
                assert(self.paths@[c as int][pl] == b as u8);
            }
            assert forall|k: int| 0 <= k < self.kids1(i, b).len() implies ({
                let e = #[trigger] self.kids1(i, b)[k] as int;
                &&& 0 < e < self.nodes@.len()
                &&& self.paths@[e].len() == pl + 1
                &&& self.paths@[e].take(pl) == self.paths@[i]
                &&& b <= self.paths@[e][pl] < 0x80
            }) by {
                assert(self.kids1(i, b) == chunk + rest);
                if k >= chunk.len() {
                    assert(self.kids1(i, b)[k] == rest[k - chunk.len()]);
                } else {
                    assert(self.kids1(i, b)[k] == chunk[0]);
                }
            }
            assert forall|k1: int, k2: int|
                #![trigger self.kids1(i, b)[k1], self.kids1(i, b)[k2]]
                0 <= k1 < k2 < self.kids1(i, b).len() implies self.paths@[self.kids1(i, b)[
                k1
            ] as int][pl] < self.paths@[self.kids1(i, b)[k2] as int][pl] by {
                assert(self.kids1(i, b) == chunk + rest);
                assert(self.kids1(i, b)[k2] == rest[k2 - chunk.len()]);
                if k1 >= chunk.len() {
                    assert(self.kids1(i, b)[k1] == rest[k1 - chunk.len()]);
                } else {
                    assert(self.kids1(i, b)[k1] == chunk[0]);
                }
            }
        }
    }

    /// Continuation-level terminals are enumerated in strictly ascending
    /// edge-byte order, each one byte below node `i` with edge byte `b` or
    /// more.
    proof fn lemma_conts1_pairwise(self, i: int, b: int)
        requires
            self.wf_core(),
            0 <= i < self.nodes@.len(),
            0x80 <= b,
        ensures
            forall|k: int|
                0 <= k < self.conts1(i, b).len() ==> ({
                    let e = #[trigger] self.conts1(i, b)[k] as int;
                    let pl = self.paths@[i].len() as int;
                    &&& 0 < e < self.nodes@.len()
                    &&& self.paths@[e].len() == pl + 1
                    &&& self.paths@[e].take(pl) == self.paths@[i]
                    &&& b <= self.paths@[e][pl] < 0xc0
                }),
            forall|k1: int, k2: int|
                #![trigger self.conts1(i, b)[k1], self.conts1(i, b)[k2]]
                0 <= k1 < k2 < self.conts1(i, b).len() ==> self.paths@[self.conts1(i, b)[
                    k1
                ] as int][self.paths@[i].len() as int] < self.paths@[self.conts1(i, b)[
                    k2
                ] as int][self.paths@[i].len() as int],
        decreases 0xc0 - b,
    {
        if 0x80 <= b < 0xc0 {
            self.lemma_conts1_pairwise(i, b + 1);
            let pl = self.paths@[i].len() as int;
            let c = self.nodes@[i].children@[b];
            let chunk = if c != 0 {
                seq![c]
            } else {
                Seq::<u32>::empty()
            };
            let rest = self.conts1(i, b + 1);
            if c != 0 {
                assert(self.edge_target_ok(i, b));
                assert(self.paths@[c as int] == self.paths@[i].push(b as u8));
                assert(self.paths@[c as int].take(pl) =~= self.paths@[i]);
                assert(self.paths@[c as int][pl] == b as u8);
            }
            assert forall|k: int| 0 <= k < self.conts1(i, b).len() implies ({
                let e = #[trigger] self.conts1(i, b)[k] as int;
                &&& 0 < e < self.nodes@.len()
                &&& self.paths@[e].len() == pl + 1
                &&& self.paths@[e].take(pl) == self.paths@[i]
                &&& b <= self.paths@[e][pl] < 0xc0
            }) by {
                assert(self.conts1(i, b) == chunk + rest);
                if k >= chunk.len() {
                    assert(self.conts1(i, b)[k] == rest[k - chunk.len()]);
                } else {
                    assert(self.conts1(i, b)[k] == chunk[0]);
                }
            }
            assert forall|k1: int, k2: int|
                #![trigger self.conts1(i, b)[k1], self.conts1(i, b)[k2]]
                0 <= k1 < k2 < self.conts1(i, b).len() implies self.paths@[self.conts1(i, b)[
                k1
            ] as int][pl] < self.paths@[self.conts1(i, b)[k2] as int][pl] by {
                assert(self.conts1(i, b) == chunk + rest);
                assert(self.conts1(i, b)[k2] == rest[k2 - chunk.len()]);
                if k1 >= chunk.len() {
                    assert(self.conts1(i, b)[k1] == rest[k1 - chunk.len()]);
                } else {
                    assert(self.conts1(i, b)[k1] == chunk[0]);
                }
            }
        }
    }
}

impl<T> StringTree<T> {
    /// conts2 terminals are enumerated in strictly ascending lexicographic
    /// order of their byte groups below node `i`.
    proof fn lemma_conts2_pairwise(self, i: int, b: int)
        requires
            self.wf_core(),
            0 <= i < self.nodes@.len(),
            0x80 <= b,
        ensures
            forall|k: int|
                0 <= k < self.conts2(i, b).len() ==> ({
                    let e = #[trigger] self.conts2(i, b)[k] as int;
                    let pl = self.paths@[i].len() as int;
                    &&& 0 < e < self.nodes@.len()
                    &&& self.paths@[e].len() == pl + 2
                    &&& self.paths@[e].take(pl) == self.paths@[i]
                    &&& b <= self.paths@[e][pl] < 0xc0
                }),
            forall|k1: int, k2: int|
                #![trigger self.conts2(i, b)[k1], self.conts2(i, b)[k2]]
                0 <= k1 < k2 < self.conts2(i, b).len() ==> lex_lt(
                    self.paths@[self.conts2(i, b)[k1] as int].skip(self.paths@[i].len() as int),
                    self.paths@[self.conts2(i, b)[k2] as int].skip(self.paths@[i].len() as int),
                ),
        decreases 0xc0 - b,
    {
        if 0x80 <= b < 0xc0 {
            self.lemma_conts2_pairwise(i, b + 1);
            let pl = self.paths@[i].len() as int;
            let c = self.nodes@[i].children@[b];
            let chunk = if c != 0 {
                self.conts1(c as int, 0x80)
            } else {
                Seq::<u32>::empty()
            };
            let rest = self.conts2(i, b + 1);
            if c != 0 {
                assert(self.edge_target_ok(i, b));
                assert(self.paths@[c as int] == self.paths@[i].push(b as u8));
                self.lemma_conts1_pairwise(c as int, 0x80);
                let plc = self.paths@[c as int].len() as int;
                assert(plc == pl + 1);
                assert forall|k: int| 0 <= k < chunk.len() implies ({
                    let e = #[trigger] chunk[k] as int;
                    &&& 0 < e < self.nodes@.len()
                    &&& self.paths@[e].len() == pl + 2
                    &&& self.paths@[e].take(pl) == self.paths@[i]
                    &&& self.paths@[e][pl] == b as u8
                }) by {
                    let e = chunk[k] as int;
                    assert(self.paths@[e].take(plc) == self.paths@[c as int]);
                    assert(self.paths@[e].take(pl) =~= self.paths@[i]) by {
                        assert forall|j: int| 0 <= j < pl implies self.paths@[e][j]
                            == self.paths@[i][j] by {
                            assert(self.paths@[e].take(plc)[j] == self.paths@[c as int][j]);
                        }
                    }
                    assert(self.paths@[e].take(plc)[pl] == self.paths@[c as int][pl]);
                    assert(self.paths@[e][pl] == b as u8);
                }
            }
            assert forall|k: int| 0 <= k < self.conts2(i, b).len() implies ({
                let e = #[trigger] self.conts2(i, b)[k] as int;
                &&& 0 < e < self.nodes@.len()
                &&& self.paths@[e].len() == pl + 2
                &&& self.paths@[e].take(pl) == self.paths@[i]
                &&& b <= self.paths@[e][pl] < 0xc0
            }) by {
                assert(self.conts2(i, b) == chunk + rest);
                if k >= chunk.len() {
                    assert(self.conts2(i, b)[k] == rest[k - chunk.len()]);
                } else {
                    assert(self.conts2(i, b)[k] == chunk[k]);
                }
            }
            assert forall|k1: int, k2: int|
                #![trigger self.conts2(i, b)[k1], self.conts2(i, b)[k2]]
                0 <= k1 < k2 < self.conts2(i, b).len() implies lex_lt(
                self.paths@[self.conts2(i, b)[k1] as int].skip(pl),
                self.paths@[self.conts2(i, b)[k2] as int].skip(pl),
            ) by {
                assert(self.conts2(i, b) == chunk + rest);
                if k2 < chunk.len() {
                    assert(self.conts2(i, b)[k1] == chunk[k1]);
                    assert(self.conts2(i, b)[k2] == chunk[k2]);
                    let e1 = chunk[k1] as int;
                    let e2 = chunk[k2] as int;
                    let plc = self.paths@[c as int].len() as int;
                    assert(self.paths@[e1][plc] < self.paths@[e2][plc]);
                    lemma_lex_head(self.paths@[e1], self.paths@[e2], plc);
                    lemma_lex_shift(self.paths@[e1], self.paths@[e2], pl);
                } else if k1 >= chunk.len() {
                    assert(self.conts2(i, b)[k1] == rest[k1 - chunk.len()]);
                    assert(self.conts2(i, b)[k2] == rest[k2 - chunk.len()]);
                } else {
                    assert(self.conts2(i, b)[k1] == chunk[k1]);
                    assert(self.conts2(i, b)[k2] == rest[k2 - chunk.len()]);
                    let e1 = chunk[k1] as int;
                    let e2 = rest[k2 - chunk.len()] as int;
                    assert(self.paths@[e1][pl] < self.paths@[e2][pl]);
                    lemma_lex_head(self.paths@[e1], self.paths@[e2], pl);
                }
            }
        }
    }

    /// kids2 terminals are enumerated in strictly ascending lexicographic
    /// order of their byte groups below node `i`.
    proof fn lemma_kids2_pairwise(self, i: int, b: int)
        requires
            self.wf_core(),
            0 <= i < self.nodes@.len(),
            0xc0 <= b,
        ensures
            forall|k: int|
                0 <= k < self.kids2(i, b).len() ==> ({
                    let e = #[trigger] self.kids2(i, b)[k] as int;
                    let pl = self.paths@[i].len() as int;
                    &&& 0 < e < self.nodes@.len()
                    &&& self.paths@[e].len() == pl + 2
                    &&& self.paths@[e].take(pl) == self.paths@[i]
                    &&& b <= self.paths@[e][pl] < 0xe0
                }),
            forall|k1: int, k2: int|
                #![trigger self.kids2(i, b)[k1], self.kids2(i, b)[k2]]
                0 <= k1 < k2 < self.kids2(i, b).len() ==> lex_lt(
                    self.paths@[self.kids2(i, b)[k1] as int].skip(self.paths@[i].len() as int),
                    self.paths@[self.kids2(i, b)[k2] as int].skip(self.paths@[i].len() as int),
                ),
        decreases 0xe0 - b,
    {
        if 0xc0 <= b < 0xe0 {
            self.lemma_kids2_pairwise(i, b + 1);
            let pl = self.paths@[i].len() as int;
            let c = self.nodes@[i].children@[b];
            let chunk = if c != 0 {
                self.conts1(c as int, 0x80)
            } else {
                Seq::<u32>::empty()
            };
            let rest = self.kids2(i, b + 1);
            if c != 0 {
                assert(self.edge_target_ok(i, b));
                assert(self.paths@[c as int] == self.paths@[i].push(b as u8));
                self.lemma_conts1_pairwise(c as int, 0x80);
                let plc = self.paths@[c as int].len() as int;
                assert(plc == pl + 1);
                assert forall|k: int| 0 <= k < chunk.len() implies ({
                    let e = #[trigger] chunk[k] as int;
                    &&& 0 < e < self.nodes@.len()
                    &&& self.paths@[e].len() == pl + 2
                    &&& self.paths@[e].take(pl) == self.paths@[i]
                    &&& self.paths@[e][pl] == b as u8
                }) by {
                    let e = chunk[k] as int;
                    assert(self.paths@[e].take(plc) == self.paths@[c as int]);
                    assert(self.paths@[e].take(pl) =~= self.paths@[i]) by {
                        assert forall|j: int| 0 <= j < pl implies self.paths@[e][j]
                            == self.paths@[i][j] by {
                            assert(self.paths@[e].take(plc)[j] == self.paths@[c as int][j]);
                        }
                    }
                    assert(self.paths@[e].take(plc)[pl] == self.paths@[c as int][pl]);
                    assert(self.paths@[e][pl] == b as u8);
                }
            }
            assert forall|k: int| 0 <= k < self.kids2(i, b).len() implies ({
                let e = #[trigger] self.kids2(i, b)[k] as int;
                &&& 0 < e < self.nodes@.len()
                &&& self.paths@[e].len() == pl + 2
                &&& self.paths@[e].take(pl) == self.paths@[i]
                &&& b <= self.paths@[e][pl] < 0xe0
            }) by {
                assert(self.kids2(i, b) == chunk + rest);
                if k >= chunk.len() {
                    assert(self.kids2(i, b)[k] == rest[k - chunk.len()]);
                } else {
                    assert(self.kids2(i, b)[k] == chunk[k]);
                }
            }
            assert forall|k1: int, k2: int|
                #![trigger self.kids2(i, b)[k1], self.kids2(i, b)[k2]]
                0 <= k1 < k2 < self.kids2(i, b).len() implies lex_lt(
                self.paths@[self.kids2(i, b)[k1] as int].skip(pl),
                self.paths@[self.kids2(i, b)[k2] as int].skip(pl),
            ) by {
                assert(self.kids2(i, b) == chunk + rest);
                if k2 < chunk.len() {
                    assert(self.kids2(i, b)[k1] == chunk[k1]);
                    assert(self.kids2(i, b)[k2] == chunk[k2]);
                    let e1 = chunk[k1] as int;
                    let e2 = chunk[k2] as int;
                    let plc = self.paths@[c as int].len() as int;
                    assert(self.paths@[e1][plc] < self.paths@[e2][plc]);
                    lemma_lex_head(self.paths@[e1], self.paths@[e2], plc);
                    lemma_lex_shift(self.paths@[e1], self.paths@[e2], pl);
                } else if k1 >= chunk.len() {
                    assert(self.kids2(i, b)[k1] == rest[k1 - chunk.len()]);
                    assert(self.kids2(i, b)[k2] == rest[k2 - chunk.len()]);
                } else {
                    assert(self.kids2(i, b)[k1] == chunk[k1]);
                    assert(self.kids2(i, b)[k2] == rest[k2 - chunk.len()]);
                    let e1 = chunk[k1] as int;
                    let e2 = rest[k2 - chunk.len()] as int;
                    assert(self.paths@[e1][pl] < self.paths@[e2][pl]);
                    lemma_lex_head(self.paths@[e1], self.paths@[e2], pl);
                }
            }
        }
    }

}

impl<T> StringTree<T> {
    /// conts3 terminals are enumerated in strictly ascending lexicographic
    /// order of their byte groups below node `i`.
    proof fn lemma_conts3_pairwise(self, i: int, b: int)
        requires
            self.wf_core(),
            0 <= i < self.nodes@.len(),
            0x80 <= b,
        ensures
            forall|k: int|
                0 <= k < self.conts3(i, b).len() ==> ({
                    let e = #[trigger] self.conts3(i, b)[k] as int;
                    let pl = self.paths@[i].len() as int;
                    &&& 0 < e < self.nodes@.len()
                    &&& self.paths@[e].len() == pl + 3
                    &&& self.paths@[e].take(pl) == self.paths@[i]
                    &&& b <= self.paths@[e][pl] < 0xc0
                }),
            forall|k1: int, k2: int|
                #![trigger self.conts3(i, b)[k1], self.conts3(i, b)[k2]]
                0 <= k1 < k2 < self.conts3(i, b).len() ==> lex_lt(
                    self.paths@[self.conts3(i, b)[k1] as int].skip(self.paths@[i].len() as int),
                    self.paths@[self.conts3(i, b)[k2] as int].skip(self.paths@[i].len() as int),
                ),
        decreases 0xc0 - b,
    {
        if 0x80 <= b < 0xc0 {
            self.lemma_conts3_pairwise(i, b + 1);
            let pl = self.paths@[i].len() as int;
            let c = self.nodes@[i].children@[b];
            let chunk = if c != 0 {
                self.conts2(c as int, 0x80)
            } else {
                Seq::<u32>::empty()
            };
            let rest = self.conts3(i, b + 1);
            if c != 0 {
                assert(self.edge_target_ok(i, b));
                assert(self.paths@[c as int] == self.paths@[i].push(b as u8));
                self.lemma_conts2_pairwise(c as int, 0x80);
                let plc = self.paths@[c as int].len() as int;
                assert(plc == pl + 1);
                assert forall|k: int| 0 <= k < chunk.len() implies ({
                    let e = #[trigger] chunk[k] as int;
                    &&& 0 < e < self.nodes@.len()
                    &&& self.paths@[e].len() == pl + 3
                    &&& self.paths@[e].take(pl) == self.paths@[i]
                    &&& self.paths@[e][pl] == b as u8
                }) by {
                    let e = chunk[k] as int;
                    assert(self.paths@[e].take(plc) == self.paths@[c as int]);
                    assert(self.paths@[e].take(pl) =~= self.paths@[i]) by {
                        assert forall|j: int| 0 <= j < pl implies self.paths@[e][j]
                            == self.paths@[i][j] by {
                            assert(self.paths@[e].take(plc)[j] == self.paths@[c as int][j]);
                        }
                    }
                    assert(self.paths@[e].take(plc)[pl] == self.paths@[c as int][pl]);
                    assert(self.paths@[e][pl] == b as u8);
                }
            }
            assert forall|k: int| 0 <= k < self.conts3(i, b).len() implies ({
                let e = #[trigger] self.conts3(i, b)[k] as int;
                &&& 0 < e < self.nodes@.len()
                &&& self.paths@[e].len() == pl + 3
                &&& self.paths@[e].take(pl) == self.paths@[i]
                &&& b <= self.paths@[e][pl] < 0xc0
            }) by {
                assert(self.conts3(i, b) == chunk + rest);
                if k >= chunk.len() {
                    assert(self.conts3(i, b)[k] == rest[k - chunk.len()]);
                } else {
                    assert(self.conts3(i, b)[k] == chunk[k]);
                }
            }
            assert forall|k1: int, k2: int|
                #![trigger self.conts3(i, b)[k1], self.conts3(i, b)[k2]]
                0 <= k1 < k2 < self.conts3(i, b).len() implies lex_lt(
                self.paths@[self.conts3(i, b)[k1] as int].skip(pl),
                self.paths@[self.conts3(i, b)[k2] as int].skip(pl),
            ) by {
                assert(self.conts3(i, b) == chunk + rest);
                if k2 < chunk.len() {
                    assert(self.conts3(i, b)[k1] == chunk[k1]);
                    assert(self.conts3(i, b)[k2] == chunk[k2]);
                    let e1 = chunk[k1] as int;
                    let e2 = chunk[k2] as int;
                    let plc = self.paths@[c as int].len() as int;
                    assert(lex_lt(self.paths@[e1].skip(plc), self.paths@[e2].skip(plc)));
                    lemma_lex_shift(self.paths@[e1], self.paths@[e2], pl);
                } else if k1 >= chunk.len() {
                    assert(self.conts3(i, b)[k1] == rest[k1 - chunk.len()]);
                    assert(self.conts3(i, b)[k2] == rest[k2 - chunk.len()]);
                } else {
                    assert(self.conts3(i, b)[k1] == chunk[k1]);
                    assert(self.conts3(i, b)[k2] == rest[k2 - chunk.len()]);
                    let e1 = chunk[k1] as int;
                    let e2 = rest[k2 - chunk.len()] as int;
                    assert(self.paths@[e1][pl] < self.paths@[e2][pl]);
                    lemma_lex_head(self.paths@[e1], self.paths@[e2], pl);
                }
            }
        }
    }

    /// kids3 terminals are enumerated in strictly ascending lexicographic
    /// order of their byte groups below node `i`.
    proof fn lemma_kids3_pairwise(self, i: int, b: int)
        requires
            self.wf_core(),
            0 <= i < self.nodes@.len(),
            0xe0 <= b,
        ensures
            forall|k: int|
                0 <= k < self.kids3(i, b).len() ==> ({
                    let e = #[trigger] self.kids3(i, b)[k] as int;
                    let pl = self.paths@[i].len() as int;
                    &&& 0 < e < self.nodes@.len()
                    &&& self.paths@[e].len() == pl + 3
                    &&& self.paths@[e].take(pl) == self.paths@[i]
                    &&& b <= self.paths@[e][pl] < 0xf0
                }),
            forall|k1: int, k2: int|
                #![trigger self.kids3(i, b)[k1], self.kids3(i, b)[k2]]
                0 <= k1 < k2 < self.kids3(i, b).len() ==> lex_lt(
                    self.paths@[self.kids3(i, b)[k1] as int].skip(self.paths@[i].len() as int),
                    self.paths@[self.kids3(i, b)[k2] as int].skip(self.paths@[i].len() as int),
                ),
        decreases 0xf0 - b,
    {
        if 0xe0 <= b < 0xf0 {
            self.lemma_kids3_pairwise(i, b + 1);
            let pl = self.paths@[i].len() as int;
            let c = self.nodes@[i].children@[b];
            let chunk = if c != 0 {
                self.conts2(c as int, 0x80)
            } else {
                Seq::<u32>::empty()
            };
            let rest = self.kids3(i, b + 1);
            if c != 0 {
                assert(self.edge_target_ok(i, b));
                assert(self.paths@[c as int] == self.paths@[i].push(b as u8));
                self.lemma_conts2_pairwise(c as int, 0x80);
                let plc = self.paths@[c as int].len() as int;
                assert(plc == pl + 1);
                assert forall|k: int| 0 <= k < chunk.len() implies ({
                    let e = #[trigger] chunk[k] as int;
                    &&& 0 < e < self.nodes@.len()
                    &&& self.paths@[e].len() == pl + 3
                    &&& self.paths@[e].take(pl) == self.paths@[i]
                    &&& self.paths@[e][pl] == b as u8
                }) by {
                    let e = chunk[k] as int;
                    assert(self.paths@[e].take(plc) == self.paths@[c as int]);
                    assert(self.paths@[e].take(pl) =~= self.paths@[i]) by {
                        assert forall|j: int| 0 <= j < pl implies self.paths@[e][j]
                            == self.paths@[i][j] by {
                            assert(self.paths@[e].take(plc)[j] == self.paths@[c as int][j]);
                        }
                    }
                    assert(self.paths@[e].take(plc)[pl] == self.paths@[c as int][pl]);
                    assert(self.paths@[e][pl] == b as u8);
                }
            }
            assert forall|k: int| 0 <= k < self.kids3(i, b).len() implies ({
                let e = #[trigger] self.kids3(i, b)[k] as int;
                &&& 0 < e < self.nodes@.len()
                &&& self.paths@[e].len() == pl + 3
                &&& self.paths@[e].take(pl) == self.paths@[i]
                &&& b <= self.paths@[e][pl] < 0xf0
            }) by {
                assert(self.kids3(i, b) == chunk + rest);
                if k >= chunk.len() {
                    assert(self.kids3(i, b)[k] == rest[k - chunk.len()]);
                } else {
                    assert(self.kids3(i, b)[k] == chunk[k]);
                }
            }
            assert forall|k1: int, k2: int|
                #![trigger self.kids3(i, b)[k1], self.kids3(i, b)[k2]]
                0 <= k1 < k2 < self.kids3(i, b).len() implies lex_lt(
                self.paths@[self.kids3(i, b)[k1] as int].skip(pl),
                self.paths@[self.kids3(i, b)[k2] as int].skip(pl),
            ) by {
                assert(self.kids3(i, b) == chunk + rest);
                if k2 < chunk.len() {
                    assert(self.kids3(i, b)[k1] == chunk[k1]);
                    assert(self.kids3(i, b)[k2] == chunk[k2]);
                    let e1 = chunk[k1] as int;
                    let e2 = chunk[k2] as int;
                    let plc = self.paths@[c as int].len() as int;
                    assert(lex_lt(self.paths@[e1].skip(plc), self.paths@[e2].skip(plc)));
                    lemma_lex_shift(self.paths@[e1], self.paths@[e2], pl);
                } else if k1 >= chunk.len() {
                    assert(self.kids3(i, b)[k1] == rest[k1 - chunk.len()]);
                    assert(self.kids3(i, b)[k2] == rest[k2 - chunk.len()]);
                } else {
                    assert(self.kids3(i, b)[k1] == chunk[k1]);
                    assert(self.kids3(i, b)[k2] == rest[k2 - chunk.len()]);
                    let e1 = chunk[k1] as int;
                    let e2 = rest[k2 - chunk.len()] as int;
                    assert(self.paths@[e1][pl] < self.paths@[e2][pl]);
                    lemma_lex_head(self.paths@[e1], self.paths@[e2], pl);
                }
            }
        }
    }

    /// kids4 terminals are enumerated in strictly ascending lexicographic
    /// order of their byte groups below node `i`.
    proof fn lemma_kids4_pairwise(self, i: int, b: int)
        requires
            self.wf_core(),
            0 <= i < self.nodes@.len(),
            0xf0 <= b,
        ensures
            forall|k: int|
                0 <= k < self.kids4(i, b).len() ==> ({
                    let e = #[trigger] self.kids4(i, b)[k] as int;
                    let pl = self.paths@[i].len() as int;
                    &&& 0 < e < self.nodes@.len()
                    &&& self.paths@[e].len() == pl + 4
                    &&& self.paths@[e].take(pl) == self.paths@[i]
                    &&& b <= self.paths@[e][pl] < 0xf8
                }),
            forall|k1: int, k2: int|
                #![trigger self.kids4(i, b)[k1], self.kids4(i, b)[k2]]
                0 <= k1 < k2 < self.kids4(i, b).len() ==> lex_lt(
                    self.paths@[self.kids4(i, b)[k1] as int].skip(self.paths@[i].len() as int),
                    self.paths@[self.kids4(i, b)[k2] as int].skip(self.paths@[i].len() as int),
                ),
        decreases 0xf8 - b,
    {
        if 0xf0 <= b < 0xf8 {
            self.lemma_kids4_pairwise(i, b + 1);
            let pl = self.paths@[i].len() as int;
            let c = self.nodes@[i].children@[b];
            let chunk = if c != 0 {
                self.conts3(c as int, 0x80)
            } else {
                Seq::<u32>::empty()
            };
            let rest = self.kids4(i, b + 1);
            if c != 0 {
                assert(self.edge_target_ok(i, b));
                assert(self.paths@[c as int] == self.paths@[i].push(b as u8));
                self.lemma_conts3_pairwise(c as int, 0x80);
                let plc = self.paths@[c as int].len() as int;
                assert(plc == pl + 1);
                assert forall|k: int| 0 <= k < chunk.len() implies ({
                    let e = #[trigger] chunk[k] as int;
                    &&& 0 < e < self.nodes@.len()
                    &&& self.paths@[e].len() == pl + 4
                    &&& self.paths@[e].take(pl) == self.paths@[i]
                    &&& self.paths@[e][pl] == b as u8
                }) by {
                    let e = chunk[k] as int;
                    assert(self.paths@[e].take(plc) == self.paths@[c as int]);
                    assert(self.paths@[e].take(pl) =~= self.paths@[i]) by {
                        assert forall|j: int| 0 <= j < pl implies self.paths@[e][j]
                            == self.paths@[i][j] by {
                            assert(self.paths@[e].take(plc)[j] == self.paths@[c as int][j]);
                        }
                    }
                    assert(self.paths@[e].take(plc)[pl] == self.paths@[c as int][pl]);
                    assert(self.paths@[e][pl] == b as u8);
                }
            }
            assert forall|k: int| 0 <= k < self.kids4(i, b).len() implies ({
                let e = #[trigger] self.kids4(i, b)[k] as int;
                &&& 0 < e < self.nodes@.len()
                &&& self.paths@[e].len() == pl + 4
                &&& self.paths@[e].take(pl) == self.paths@[i]
                &&& b <= self.paths@[e][pl] < 0xf8
            }) by {
                assert(self.kids4(i, b) == chunk + rest);
                if k >= chunk.len() {
                    assert(self.kids4(i, b)[k] == rest[k - chunk.len()]);
                } else {
                    assert(self.kids4(i, b)[k] == chunk[k]);
                }
            }
            assert forall|k1: int, k2: int|
                #![trigger self.kids4(i, b)[k1], self.kids4(i, b)[k2]]
                0 <= k1 < k2 < self.kids4(i, b).len() implies lex_lt(
                self.paths@[self.kids4(i, b)[k1] as int].skip(pl),
                self.paths@[self.kids4(i, b)[k2] as int].skip(pl),
            ) by {
                assert(self.kids4(i, b) == chunk + rest);
                if k2 < chunk.len() {
                    assert(self.kids4(i, b)[k1] == chunk[k1]);
                    assert(self.kids4(i, b)[k2] == chunk[k2]);
                    let e1 = chunk[k1] as int;
                    let e2 = chunk[k2] as int;
                    let plc = self.paths@[c as int].len() as int;
                    assert(lex_lt(self.paths@[e1].skip(plc), self.paths@[e2].skip(plc)));
                    lemma_lex_shift(self.paths@[e1], self.paths@[e2], pl);
                } else if k1 >= chunk.len() {
                    assert(self.kids4(i, b)[k1] == rest[k1 - chunk.len()]);
                    assert(self.kids4(i, b)[k2] == rest[k2 - chunk.len()]);
                } else {
                    assert(self.kids4(i, b)[k1] == chunk[k1]);
                    assert(self.kids4(i, b)[k2] == rest[k2 - chunk.len()]);
                    let e1 = chunk[k1] as int;
                    let e2 = rest[k2 - chunk.len()] as int;
                    assert(self.paths@[e1][pl] < self.paths@[e2][pl]);
                    lemma_lex_head(self.paths@[e1], self.paths@[e2], pl);
                }
            }
        }
    }

}

impl<T> StringTree<T> {
    /// Child enumeration order and distinctness: the logical children are
    /// listed without repetition, shorter UTF-8 width classes first, and
    /// within one class in ascending lexicographic order of the appended
    /// character's byte group (lead byte first, then continuation bytes).
    pub proof fn lemma_children_ordered(self, i: int, k1: int, k2: int)
        requires
            self.wf(),
            0 <= i < self.node_count(),
            0 <= k1 < k2 < self.logical_children(i).len(),
        ensures
            ({
                let ids = self.logical_children(i);
                let pl = self.path_at(i).len() as int;
                &&& ids[k1] != ids[k2]
                &&& suffix_lt(
                    self.path_at(ids[k1] as int).skip(pl),
                    self.path_at(ids[k2] as int).skip(pl),
                )
            }),
    {
        let pl = self.paths@[i].len() as int;
        let a1 = self.kids1(i, 0);
        let a2 = self.kids2(i, 0xc0);
        let a3 = self.kids3(i, 0xe0);
        let a4 = self.kids4(i, 0xf0);
        self.lemma_kids1_pairwise(i, 0);
        self.lemma_kids2_pairwise(i, 0xc0);
        self.lemma_kids3_pairwise(i, 0xe0);
        self.lemma_kids4_pairwise(i, 0xf0);
        let ids = self.logical_children(i);
        assert(ids == ((a1 + a2) + a3) + a4);
        let l1 = a1.len() as int;
        let l2 = a2.len() as int;
        let l3 = a3.len() as int;
        if k1 < l1 {
            assert(ids[k1] == ((a1 + a2) + a3)[k1]);
            assert(ids[k1] == (a1 + a2)[k1]);
            assert(ids[k1] == a1[k1]);
        } else if k1 < l1 + l2 {
            assert(ids[k1] == ((a1 + a2) + a3)[k1]);
            assert(ids[k1] == (a1 + a2)[k1]);
            assert(ids[k1] == a2[k1 - l1]);
        } else if k1 < l1 + l2 + l3 {
            assert(ids[k1] == ((a1 + a2) + a3)[k1]);
            assert(ids[k1] == a3[k1 - l1 - l2]);
        } else {
            assert(ids[k1] == a4[k1 - l1 - l2 - l3]);
        }
        if k2 < l1 {
            assert(ids[k2] == ((a1 + a2) + a3)[k2]);
            assert(ids[k2] == (a1 + a2)[k2]);
            assert(ids[k2] == a1[k2]);
        } else if k2 < l1 + l2 {
            assert(ids[k2] == ((a1 + a2) + a3)[k2]);
            assert(ids[k2] == (a1 + a2)[k2]);
            assert(ids[k2] == a2[k2 - l1]);
        } else if k2 < l1 + l2 + l3 {
            assert(ids[k2] == ((a1 + a2) + a3)[k2]);
            assert(ids[k2] == a3[k2 - l1 - l2]);
        } else {
            assert(ids[k2] == a4[k2 - l1 - l2 - l3]);
        }
        let e1 = ids[k1] as int;
        let e2 = ids[k2] as int;
        let s1 = self.paths@[e1].skip(pl);
        let s2 = self.paths@[e2].skip(pl);
        if k2 < l1 {
            assert(self.paths@[e1][pl] < self.paths@[e2][pl]);
            lemma_lex_head(self.paths@[e1], self.paths@[e2], pl);
        } else if k1 < l1 {
            assert(s1.len() < s2.len());
        } else if k2 < l1 + l2 {
            assert(lex_lt(s1, s2));
        } else if k1 < l1 + l2 {
            assert(s1.len() < s2.len());
        } else if k2 < l1 + l2 + l3 {
            assert(lex_lt(s1, s2));
        } else if k1 < l1 + l2 + l3 {
            assert(s1.len() < s2.len());
        } else {
            assert(lex_lt(s1, s2));
        }
        assert(suffix_lt(s1, s2));
        assert(ids[k1] != ids[k2]) by {
            if ids[k1] == ids[k2] {
                assert(s1 == s2);
                assert(s1.len() == s2.len());
                assert(lex_lt(s1, s2));
                let m = choose|m: int|
                    #![trigger s1[m]]
                    0 <= m < s1.len() && m < s2.len() && s1[m] < s2[m] && (forall|j: int|
                        #![trigger s1[j]]
                        0 <= j < m ==> s1[j] == s2[j]);
                assert(s1[m] < s1[m]);
                assert(false);
            }
        }
    }
}

impl<T> StringTree<T> {
    /// Collects the single-byte logical children of node `i`.
    fn push_singles(&self, i: u32, out: &mut Vec<u32>)
        requires
            self.wf(),
            (i as int) < self.node_count(),
        ensures
            final(out)@ == old(out)@ + self.kids1(i as int, 0),
    {
        let mut b: usize = 0;
        while b < 128
            invariant
                self.wf(),
                (i as int) < self.nodes@.len(),
                b <= 128,
                old(out)@ + self.kids1(i as int, 0) == out@ + self.kids1(i as int, b as int),
            decreases 128 - b,
        {
            let c = self.nodes[i as usize].children[b];
            proof {
                assert(self.kids1(i as int, b as int) == (if c != 0 {
                    seq![c]
                } else {
                    Seq::<u32>::empty()
                }) + self.kids1(i as int, b as int + 1));
            }
            if c != 0 {
                out.push(c);
            }
            proof {
                assert(old(out)@ + self.kids1(i as int, 0) =~= out@ + self.kids1(
                    i as int,
                    b as int + 1,
                ));
            }
            b = b + 1;
        }
        proof {
            assert(self.kids1(i as int, 128) =~= Seq::<u32>::empty());
            assert(out@ =~= old(out)@ + self.kids1(i as int, 0));
        }
    }

    /// Collects the nodes one continuation edge below node `i`.
    fn push_cont_terminals(&self, i: u32, out: &mut Vec<u32>)
        requires
            self.wf(),
            (i as int) < self.node_count(),
        ensures
            final(out)@ == old(out)@ + self.conts1(i as int, 0x80),
    {
        let mut b: usize = 0x80;
        while b < 0xc0
            invariant
                self.wf(),
                (i as int) < self.nodes@.len(),
                0x80 <= b <= 0xc0,
                old(out)@ + self.conts1(i as int, 0x80) == out@ + self.conts1(i as int, b as int),
            decreases 0xc0 - b,
        {
            let c = self.nodes[i as usize].children[b];
            proof {
                assert(self.conts1(i as int, b as int) == (if c != 0 {
                    seq![c]
                } else {
                    Seq::<u32>::empty()
                }) + self.conts1(i as int, b as int + 1));
            }
            if c != 0 {
                out.push(c);
            }
            proof {
                assert(old(out)@ + self.conts1(i as int, 0x80) =~= out@ + self.conts1(
                    i as int,
                    b as int + 1,
                ));
            }
            b = b + 1;
        }
        proof {
            assert(self.conts1(i as int, 0xc0) =~= Seq::<u32>::empty());
            assert(out@ =~= old(out)@ + self.conts1(i as int, 0x80));
        }
    }

    /// Collects the nodes two continuation edges below node `i`.
    fn push_cont_level2(&self, i: u32, out: &mut Vec<u32>)
        requires
            self.wf(),
            (i as int) < self.node_count(),
        ensures
            final(out)@ == old(out)@ + self.conts2(i as int, 0x80),
    {
        let mut b: usize = 0x80;
        while b < 0xc0
            invariant
                self.wf(),
                (i as int) < self.nodes@.len(),
                0x80 <= b <= 0xc0,
                old(out)@ + self.conts2(i as int, 0x80) == out@ + self.conts2(i as int, b as int),
            decreases 0xc0 - b,
        {
            let c = self.nodes[i as usize].children[b];
            proof {
                if c != 0 {
                    assert(self.edge_target_ok(i as int, b as int));
                }
                assert(self.conts2(i as int, b as int) == (if c != 0 {
                    self.conts1(c as int, 0x80)
                } else {
                    Seq::<u32>::empty()
                }) + self.conts2(i as int, b as int + 1));
            }
            if c != 0 {
                self.push_cont_terminals(c, out);
            }
            proof {
                assert(old(out)@ + self.conts2(i as int, 0x80) =~= out@ + self.conts2(
                    i as int,
                    b as int + 1,
                ));
            }
            b = b + 1;
        }
        proof {
            assert(self.conts2(i as int, 0xc0) =~= Seq::<u32>::empty());
            assert(out@ =~= old(out)@ + self.conts2(i as int, 0x80));
        }
    }

    /// Collects the nodes three continuation edges below node `i`.
    fn push_cont_level3(&self, i: u32, out: &mut Vec<u32>)
        requires
            self.wf(),
            (i as int) < self.node_count(),
        ensures
            final(out)@ == old(out)@ + self.conts3(i as int, 0x80),
    {
        let mut b: usize = 0x80;
        while b < 0xc0
            invariant
                self.wf(),
                (i as int) < self.nodes@.len(),
                0x80 <= b <= 0xc0,
                old(out)@ + self.conts3(i as int, 0x80) == out@ + self.conts3(i as int, b as int),
            decreases 0xc0 - b,
        {
            let c = self.nodes[i as usize].children[b];
            proof {
                if c != 0 {
                    assert(self.edge_target_ok(i as int, b as int));
                }
                assert(self.conts3(i as int, b as int) == (if c != 0 {
                    self.conts2(c as int, 0x80)
                } else {
                    Seq::<u32>::empty()
                }) + self.conts3(i as int, b as int + 1));
            }
            if c != 0 {
                self.push_cont_level2(c, out);
            }
            proof {
                assert(old(out)@ + self.conts3(i as int, 0x80) =~= out@ + self.conts3(
                    i as int,
                    b as int + 1,
                ));
            }
            b = b + 1;
        }
        proof {
            assert(self.conts3(i as int, 0xc0) =~= Seq::<u32>::empty());
            assert(out@ =~= old(out)@ + self.conts3(i as int, 0x80));
        }
    }

    /// Collects the two-byte-class logical children of node `i`.
    fn push_class2(&self, i: u32, out: &mut Vec<u32>)
        requires
            self.wf(),
            (i as int) < self.node_count(),
        ensures
            final(out)@ == old(out)@ + self.kids2(i as int, 0xc0),
    {
        let mut b: usize = 0xc0;
        while b < 0xe0
            invariant
                self.wf(),
                (i as int) < self.nodes@.len(),
                0xc0 <= b <= 0xe0,
                old(out)@ + self.kids2(i as int, 0xc0) == out@ + self.kids2(i as int, b as int),
            decreases 0xe0 - b,
        {
            let c = self.nodes[i as usize].children[b];
            proof {
                if c != 0 {
                    assert(self.edge_target_ok(i as int, b as int));
                }
                assert(self.kids2(i as int, b as int) == (if c != 0 {
                    self.conts1(c as int, 0x80)
                } else {
                    Seq::<u32>::empty()
                }) + self.kids2(i as int, b as int + 1));
            }
            if c != 0 {
                self.push_cont_terminals(c, out);
            }
            proof {
                assert(old(out)@ + self.kids2(i as int, 0xc0) =~= out@ + self.kids2(
                    i as int,
                    b as int + 1,
                ));
            }
            b = b + 1;
        }
        proof {
            assert(self.kids2(i as int, 0xe0) =~= Seq::<u32>::empty());
            assert(out@ =~= old(out)@ + self.kids2(i as int, 0xc0));
        }
    }

    /// Collects the three-byte-class logical children of node `i`.
    fn push_class3(&self, i: u32, out: &mut Vec<u32>)
        requires
            self.wf(),
            (i as int) < self.node_count(),
        ensures
            final(out)@ == old(out)@ + self.kids3(i as int, 0xe0),
    {
        let mut b: usize = 0xe0;
        while b < 0xf0
            invariant
                self.wf(),
                (i as int) < self.nodes@.len(),
                0xe0 <= b <= 0xf0,
                old(out)@ + self.kids3(i as int, 0xe0) == out@ + self.kids3(i as int, b as int),
            decreases 0xf0 - b,
        {
            let c = self.nodes[i as usize].children[b];
            proof {
                if c != 0 {
                    assert(self.edge_target_ok(i as int, b as int));
                }
                assert(self.kids3(i as int, b as int) == (if c != 0 {
                    self.conts2(c as int, 0x80)
                } else {
                    Seq::<u32>::empty()
                }) + self.kids3(i as int, b as int + 1));
            }
            if c != 0 {
                self.push_cont_level2(c, out);
            }
            proof {
                assert(old(out)@ + self.kids3(i as int, 0xe0) =~= out@ + self.kids3(
                    i as int,
                    b as int + 1,
                ));
            }
            b = b + 1;
        }
        proof {
            assert(self.kids3(i as int, 0xf0) =~= Seq::<u32>::empty());
            assert(out@ =~= old(out)@ + self.kids3(i as int, 0xe0));
        }
    }

    /// Collects the four-byte-class logical children of node `i`.
    fn push_class4(&self, i: u32, out: &mut Vec<u32>)
        requires
            self.wf(),
            (i as int) < self.node_count(),
        ensures
            final(out)@ == old(out)@ + self.kids4(i as int, 0xf0),
    {
        let mut b: usize = 0xf0;
        while b < 0xf8
            invariant
                self.wf(),
                (i as int) < self.nodes@.len(),
                0xf0 <= b <= 0xf8,
                old(out)@ + self.kids4(i as int, 0xf0) == out@ + self.kids4(i as int, b as int),
            decreases 0xf8 - b,
        {
            let c = self.nodes[i as usize].children[b];
            proof {
                if c != 0 {
                    assert(self.edge_target_ok(i as int, b as int));
                }
                assert(self.kids4(i as int, b as int) == (if c != 0 {
                    self.conts3(c as int, 0x80)
                } else {
                    Seq::<u32>::empty()
                }) + self.kids4(i as int, b as int + 1));
            }
            if c != 0 {
                self.push_cont_level3(c, out);
            }
            proof {
                assert(old(out)@ + self.kids4(i as int, 0xf0) =~= out@ + self.kids4(
                    i as int,
                    b as int + 1,
                ));
            }
            b = b + 1;
        }
        proof {
            assert(self.kids4(i as int, 0xf8) =~= Seq::<u32>::empty());
            assert(out@ =~= old(out)@ + self.kids4(i as int, 0xf0));
        }
    }

    /// The logical children of node `i`, by index, in the fixed class-major
    /// yield order; each is a real node exactly one whole character below
    /// `i`, its path still completable to valid UTF-8.
    #[verifier::rlimit(60)]
    pub(crate) fn child_indices(&self, i: u32) -> (r: Vec<u32>)
        requires
            self.wf(),
            (i as int) < self.node_count(),
        ensures
            r@ == self.logical_children(i as int),
            forall|k: int|
                0 <= k < r@.len() ==> self.whole_char_child(i as int, (#[trigger] r@[k]) as int),
            forall|k: int|
                0 <= k < r@.len() ==> utf8_prefix(self.path_at((#[trigger] r@[k]) as int)),
    {
        let mut out: Vec<u32> = Vec::new();
        self.push_singles(i, &mut out);
        self.push_class2(i, &mut out);
        self.push_class3(i, &mut out);
        self.push_class4(i, &mut out);
        proof {
            let ii = i as int;
            let a1 = self.kids1(ii, 0);
            let a2 = self.kids2(ii, 0xc0);
            let a3 = self.kids3(ii, 0xe0);
            let a4 = self.kids4(ii, 0xf0);
            assert(out@ =~= ((a1 + a2) + a3) + a4);
            assert(out@ =~= self.logical_children(ii));
            self.lemma_kids1_elems(ii, 0);
            self.lemma_kids2_elems(ii, 0xc0);
            self.lemma_kids3_elems(ii, 0xe0);
            self.lemma_kids4_elems(ii, 0xf0);
            let pi = self.paths@[ii];
            assert forall|k: int| 0 <= k < out@.len() implies self.whole_char_child(
                ii,
                (#[trigger] out@[k]) as int,
            ) && utf8_prefix(self.path_at(out@[k] as int)) by {
                let e = out@[k] as int;
                if k < a1.len() {
                    assert(out@[k] == ((a1 + a2) + a3)[k]);
                    assert(out@[k] == (a1 + a2)[k]);
                    assert(out@[k] == a1[k]);
                    let l = choose|l: u8|
                        is_leading_byte_width_1(l) && self.paths@[e] == pi.push(l);
                    assert(self.paths@[e].take(pi.len() as int) =~= pi);
                    assert(self.paths@[e].skip(pi.len() as int) =~= seq![l]);
                } else if k < a1.len() + a2.len() {
                    assert(out@[k] == ((a1 + a2) + a3)[k]);
                    assert(out@[k] == (a1 + a2)[k]);
                    assert(out@[k] == a2[k - a1.len()]);
                    let (l, c1) = choose|l: u8, c1: u8|
                        is_leading_byte_width_2(l) && is_continuation_byte(c1) && self.paths@[e]
                            == pi.push(l).push(c1);
                    assert(self.paths@[e].take(pi.len() as int) =~= pi);
                    assert(self.paths@[e].skip(pi.len() as int) =~= seq![l, c1]);
                } else if k < a1.len() + a2.len() + a3.len() {
                    assert(out@[k] == ((a1 + a2) + a3)[k]);
                    assert(out@[k] == a3[k - a1.len() - a2.len()]);
                    let (l, c1, c2) = choose|l: u8, c1: u8, c2: u8|
                        is_leading_byte_width_3(l) && is_continuation_byte(c1)
                            && is_continuation_byte(c2) && self.paths@[e] == pi.push(l).push(
                            c1,
                        ).push(c2);
                    assert(self.paths@[e].take(pi.len() as int) =~= pi);
                    assert(self.paths@[e].skip(pi.len() as int) =~= seq![l, c1, c2]);
                } else {
                    assert(out@[k] == a4[k - a1.len() - a2.len() - a3.len()]);
                    let (l, c1, c2, c3) = choose|l: u8, c1: u8, c2: u8, c3: u8|
                        is_leading_byte_width_4(l) && is_continuation_byte(c1)
                            && is_continuation_byte(c2) && is_continuation_byte(c3)
                            && self.paths@[e] == pi.push(l).push(c1).push(c2).push(c3);
                    assert(self.paths@[e].take(pi.len() as int) =~= pi);
                    assert(self.paths@[e].skip(pi.len() as int) =~= seq![l, c1, c2, c3]);
                }
                assert(utf8_prefix(self.paths@[e]));
            }
        }
        out
    }
}

impl<T> StringTree<T> {
    /// Reconstructs node `j`'s byte path by walking the parent-link chain up
    /// to the root and reversing the collected edge bytes.
    pub(crate) fn path_bytes(&self, j: u32) -> (r: Vec<u8>)
        requires
            self.wf(),
            (j as int) < self.node_count(),
        ensures
            r@ == self.path_at(j as int),
    {
        let ghost pj = self.paths@[j as int];
        let mut rev: Vec<u8> = Vec::new();
        let mut cur: u32 = j;
        while cur != 0
            invariant
                self.wf(),
                (j as int) < self.nodes@.len(),
                (cur as int) < self.nodes@.len(),
                pj == self.paths@[j as int],
                self.paths@[cur as int].len() + rev@.len() == pj.len(),
                self.paths@[cur as int] == pj.take(self.paths@[cur as int].len() as int),
                forall|k: int| 0 <= k < rev@.len() ==> rev@[k] == pj[pj.len() - 1 - k],
            decreases self.paths@[cur as int].len(),
    {
            proof {
                if self.paths@[cur as int].len() == 0 {
                    assert(self.paths@[cur as int] =~= Seq::<u8>::empty());
                    assert(self.paths@[0int] == self.paths@[cur as int]);
                    assert(false);
                }
                assert(self.parent_ok(cur as int));
            }
            let pr = self.nodes[cur as usize].parent;
            let pb = self.nodes[cur as usize].parent_byte;
            proof {
                assert(self.edge_target_ok(pr as int, pb as int));
                assert(self.paths@[cur as int] == self.paths@[pr as int].push(pb));
                assert(self.paths@[pr as int] =~= pj.take(self.paths@[pr as int].len() as int));
                let clen = self.paths@[cur as int].len() as int;
                assert(self.paths@[cur as int][clen - 1] == pb);
                assert(pj.take(clen)[clen - 1] == pj[clen - 1]);
                assert(pj[clen - 1] == pb);
            }
            rev.push(pb);
            cur = pr;
        }
        proof {
            assert(self.paths@[0int].len() == 0);
            assert(rev@.len() == pj.len());
        }
        let mut out: Vec<u8> = Vec::new();
        let mut m: usize = rev.len();
        while m > 0
            invariant
                m <= rev@.len(),
                rev@.len() == pj.len(),
                forall|k: int| 0 <= k < rev@.len() ==> rev@[k] == pj[pj.len() - 1 - k],
                out@.len() == rev@.len() - m,
                forall|k: int| 0 <= k < out@.len() ==> out@[k] == pj[k],
            decreases m,
        {
            m = m - 1;
            out.push(rev[m]);
        }
        proof {
            assert(out@ =~= pj);
        }
        out
    }

    /// Mutable access to the value stored at node `j`: present exactly when
    /// the node's path is bound in the map, and writing through the returned
    /// reference rebinds that path.
    pub(crate) fn value_at_mut<'a>(&'a mut self, j: u32) -> (r: Option<&'a mut T>)
        requires
            old(self).wf(),
            (j as int) < old(self).node_count(),
        ensures
            final(self).wf(),
            final(self).node_count() == old(self).node_count(),
            forall|q: int|
                0 <= q < old(self).node_count() ==> final(self).path_at(q) == old(self).path_at(q),
            r is Some <==> old(self)@.contains_key(old(self).path_at(j as int)),
            r is Some ==> *r.unwrap() == old(self)@[old(self).path_at(j as int)] && final(self)@
                == old(self)@.insert(old(self).path_at(j as int), *final(r.unwrap())),
            r is None ==> final(self)@ == old(self)@,
    {
        proof {
            self.lemma_view_at(j as int);
            let pre = *self;
            let jj = j as int;
            let k = pre.paths@[jj];
            assert forall|post: StringTree<T>|
                #![trigger post.wf()]
                #![trigger post.as_map()]
                (post.paths@ == pre.paths@ && post.nodes@.len() == pre.nodes@.len() && (forall|
                    q: int,
                |
                    0 <= q < pre.nodes@.len() && q != jj ==> post.nodes@[q] == (
                    #[trigger] pre.nodes@[q])) && post.nodes@[jj].children == pre.nodes@[
                    jj
                ].children && post.nodes@[jj].fill == pre.nodes@[jj].fill && post.nodes@[jj].parent
                    == pre.nodes@[jj].parent && post.nodes@[jj].parent_byte == pre.nodes@[
                    jj
                ].parent_byte && post.nodes@[jj].value is Some && pre.nodes@[jj].value is Some)
                implies post.wf() && post.as_map() == pre.as_map().insert(
                k,
                post.nodes@[jj].value->0,
            ) by {
                Self::lemma_same_shape_wf_core(pre, post);
                Self::lemma_value_set_view(pre, post, jj, post.nodes@[jj].value->0);
                assert forall|q: int| 1 <= q < post.nodes@.len() implies #[trigger] post.live_ok(
                    q,
                ) by {
                    if q != jj {
                        assert(pre.live_ok(q));
                    }
                }
                assert forall|q: int|
                    0 <= q < post.nodes@.len() && (#[trigger] post.nodes@[q]).value is Some implies
                    valid_utf8(post.paths@[q]) by {
                    if q != jj {
                        assert(pre.nodes@[q].value is Some);
                    }
                    assert(pre.nodes@[q].value is Some);
                    assert(valid_utf8(pre.paths@[q]));
                }
            }
            assert forall|post: StringTree<T>|
                #![trigger post.wf()]
                #![trigger post.as_map()]
                (post.paths@ == pre.paths@ && post.nodes@.len() == pre.nodes@.len() && (forall|
                    q: int,
                |
                    0 <= q < pre.nodes@.len() && q != jj ==> post.nodes@[q] == (
                    #[trigger] pre.nodes@[q])) && post.nodes@[jj] == pre.nodes@[jj]) implies
                post.wf() && post.as_map() == pre.as_map() by {
                Self::lemma_same_shape_wf_core(pre, post);
                assert forall|q: int|
                    0 <= q < post.nodes@.len() && (#[trigger] post.nodes@[q]).value is Some implies
                    valid_utf8(post.paths@[q]) by {
                    if q != jj {
                        assert(post.nodes@[q] == pre.nodes@[q]);
                    }
                    assert(pre.nodes@[q].value is Some);
                    assert(valid_utf8(pre.paths@[q]));
                }
                assert forall|q: int| 1 <= q < post.nodes@.len() implies #[trigger] post.live_ok(
                    q,
                ) by {
                    assert(pre.live_ok(q));
                    assert(post.nodes@[q] == pre.nodes@[q]);
                }
                assert forall|q: int|
                    0 <= q < pre.nodes@.len() && (#[trigger] pre.nodes@[q]).value is Some implies
                    exists|q2: int|
                        0 <= q2 < post.nodes@.len() && (#[trigger] post.paths@[q2])
                            == pre.paths@[q] && post.nodes@[q2].value == pre.nodes@[q].value by {
                    assert(post.paths@[q] == pre.paths@[q]);
                    assert(post.nodes@[q].value == pre.nodes@[q].value);
                }
                assert forall|q: int|
                    0 <= q < post.nodes@.len() && (#[trigger] post.nodes@[q]).value is Some implies
                    exists|q2: int|
                        0 <= q2 < pre.nodes@.len() && (#[trigger] pre.paths@[q2])
                            == post.paths@[q] && pre.nodes@[q2].value == post.nodes@[q].value by {
                    assert(pre.paths@[q] == post.paths@[q]);
                    assert(pre.nodes@[q].value == post.nodes@[q].value);
                }
                Self::lemma_same_values_same_map(pre, post);
            }
        }
        let node = &mut self.nodes[j as usize];
        node.value.as_mut()
    }
}

impl<T> View for StringTree<T> {
    type V = Map<Seq<u8>, T>;

    open spec fn view(&self) -> Map<Seq<u8>, T> {
        self.as_map()
    }
}

impl<T> StringTree<T> {
    /// Creates a new, empty StringTree.
    pub fn new() -> (tree: Self)
        ensures
            tree.wf(),
            tree@ == Map::<Seq<u8>, T>::empty(),
            tree.node_count() == 1,
            tree.path_at(0) == Seq::<u8>::empty(),
    {
        let ghost root_paths: Seq<Seq<u8>> = seq![Seq::<u8>::empty()];
        let tree = StringTree::<T> {
            nodes: vec_of_one(
                Node::<T> {
                    children: zero_slots(),
                    fill: 0,
                    parent: 0,
                    parent_byte: 0,
                    value: None,
                },
            ),
            paths: Ghost(root_paths),
        };
        proof {
            assert forall|i: int, b: int|
                0 <= i < tree.nodes@.len() && 0 <= b < 256 implies #[trigger] tree.edge_target_ok(
                i,
                b,
            ) && tree.edge_backlink_ok(i, b) by {
                assert(tree.child_at(i, b) == 0);
            }
            assert forall|i: int| 0 <= i < tree.nodes@.len() implies #[trigger] tree.fill_ok(i) by {
                lemma_zero_slots_count(tree.nodes@[0].children@);
            }
            assert(utf8_prefix(tree.paths@[0])) by {
                lemma_valid_is_prefix(Seq::<u8>::empty());
            }
            assert(tree@ =~= Map::<Seq<u8>, T>::empty()) by {
                assert forall|k: Seq<u8>| !tree@.contains_key(k) by {
                    if k.len() > 0 {
                        lemma_zero_slots_count(tree.nodes@[0].children@);
                        lemma_nonzero_below_all_zero(tree.nodes@[0].children@, 256);
                    }
                }
            }
        }
        tree
    }
}

/// The map described by a list of key/value pairs, where a later pair for
/// the same key overwrites an earlier one.
pub open spec fn pairs_as_map<T>(s: Seq<(String, T)>) -> Map<Seq<u8>, T>
    decreases s.len(),
{
    if s.len() == 0 {
        Map::empty()
    } else {
        pairs_as_map(s.drop_last()).insert(encode_utf8(s.last().0@), s.last().1)
    }
}

/// Total UTF-8 byte length of the keys of a pair list.
pub open spec fn keys_byte_len<T>(s: Seq<(String, T)>) -> int
    decreases s.len(),
{
    if s.len() == 0 {
        0
    } else {
        keys_byte_len(s.drop_last()) + encode_utf8(s.last().0@).len()
    }
}

proof fn lemma_keys_byte_len_take<T>(s: Seq<(String, T)>, m: int)
    requires
        0 <= m <= s.len(),
    ensures
        0 <= keys_byte_len(s.take(m)) <= keys_byte_len(s),
    decreases s.len(),
{
    if s.len() == 0 {
    } else if m == s.len() {
        assert(s.take(m) =~= s);
        lemma_keys_byte_len_take(s.drop_last(), s.len() - 1);
        assert(s.drop_last().take(s.len() - 1) =~= s.drop_last());
    } else {
        assert(s.take(m) =~= s.drop_last().take(m));
        lemma_keys_byte_len_take(s.drop_last(), m);
    }
}

impl<T> StringTree<T> {
    /// Creates a new StringTree with a given list of key/value pairs; later
    /// duplicates overwrite earlier ones.
    pub fn from(source: Vec<(String, T)>) -> (tree: Self)
        requires
            1 + keys_byte_len(source@) <= u32::MAX,
        ensures
            tree.wf(),
            tree@ == pairs_as_map(source@),
            tree.path_at(0) == Seq::<u8>::empty(),
    {
        let ghost all = source@;
        let mut tree = Self::new();
        let mut src = source;
        let ghost mut i: int = 0;
        proof {
            assert(all.take(0) =~= Seq::<(String, T)>::empty());
        }
        while src.len() > 0
            invariant
                tree.wf(),
                tree.path_at(0) == Seq::<u8>::empty(),
                0 <= i,
                i + src@.len() == all.len(),
                src@ =~= all.skip(i),
                tree@ == pairs_as_map(all.take(i)),
                tree.node_count() <= 1 + keys_byte_len(all.take(i)),
                1 + keys_byte_len(all) <= u32::MAX,
            decreases src@.len(),
        {
            let (key, value) = src.remove(0);
            proof {
                assert(all[i] == (key, value));
                assert(all.take(i + 1).drop_last() =~= all.take(i));
                assert(all.take(i + 1).last() == (key, value));
                lemma_keys_byte_len_take(all, i + 1);
                assert(src@ =~= all.skip(i + 1));
            }
            let _ = tree.insert(key.as_str(), value);
            proof {
                i = i + 1;
            }
        }
        proof {
            assert(all.take(all.len() as int) =~= all);
        }
        tree
    }

    /// Inserts a key/value pair into the tree, and returns the previous
    /// value if the key was already bound.
    pub fn insert(&mut self, key: &str, value: T) -> (prev: Option<T>)
        requires
            old(self).wf(),
            old(self).node_count() + encode_utf8(key@).len() <= u32::MAX,
        ensures
            final(self).wf(),
            final(self)@ == old(self)@.insert(encode_utf8(key@), value),
            prev == (if old(self)@.contains_key(encode_utf8(key@)) {
                Some(old(self)@[encode_utf8(key@)])
            } else {
                None::<T>
            }),
            old(self).node_count() <= final(self).node_count() <= old(self).node_count()
                + encode_utf8(key@).len(),
            forall|q: int|
                0 <= q < old(self).node_count() ==> final(self).path_at(q) == old(self).path_at(q),
    {
        proof {
            assert(valid_utf8(self.paths@[0int])) by {
                assert(self.paths@[0int] =~= Seq::<u8>::empty());
            }
            vstd::utf8::encode_utf8_valid_utf8(key@);
            assert(self.paths@[0int] + key.spec_bytes() =~= encode_utf8(key@));
        }
        self.set_at(0, key.as_bytes(), value)
    }

    /// Gets a value from a given key (or `None`).
    pub fn get<'a>(&'a self, key: &str) -> (r: Option<&'a T>)
        requires
            self.wf(),
        ensures
            r == (if self@.contains_key(encode_utf8(key@)) {
                Some(&self@[encode_utf8(key@)])
            } else {
                None::<&T>
            }),
    {
        proof {
            assert(self.paths@[0int] + key.spec_bytes() =~= encode_utf8(key@));
        }
        self.get_at(0, key.as_bytes())
    }

    /// Gets mutable access to the value at a given key (or `None`); writing
    /// through the returned reference rebinds the key.
    pub fn get_mut<'a>(&'a mut self, key: &str) -> (r: Option<&'a mut T>)
        requires
            old(self).wf(),
        ensures
            final(self).wf(),
            final(self).node_count() == old(self).node_count(),
            forall|q: int|
                0 <= q < old(self).node_count() ==> final(self).path_at(q) == old(self).path_at(q),
            r is Some <==> old(self)@.contains_key(encode_utf8(key@)),
            r is Some ==> *r.unwrap() == old(self)@[encode_utf8(key@)] && final(self)@ == old(
                self,
            )@.insert(encode_utf8(key@), *final(r.unwrap())),
            r is None ==> final(self)@ == old(self)@,
    {
        proof {
            assert(self.paths@[0int] + key.spec_bytes() =~= encode_utf8(key@));
        }
        let t = match self.find_at(0, key.as_bytes()) {
            Some(t) => t,
            None => {
                proof {
                    let k = encode_utf8(key@);
                    if self@.contains_key(k) {
                        self.lemma_view_member(k);
                        let j = choose|j: int|
                            0 <= j < self.nodes@.len() && (#[trigger] self.paths@[j]) == k
                                && self.nodes@[j].value is Some && self.as_map()[k] == self.nodes@[
                                j
                            ].value->0;
                        assert(self.path_at(j) != k);
                        assert(false);
                    }
                }
                return None;
            },
        };
        self.value_at_mut(t)
    }

    /// Removes and returns the value at a given key (or `None` if the key
    /// was not bound), reclaiming every node left useless by the removal.
    pub fn remove(&mut self, key: &str) -> (prev: Option<T>)
        requires
            old(self).wf(),
        ensures
            final(self).wf(),
            final(self)@ == old(self)@.remove(encode_utf8(key@)),
            prev == (if old(self)@.contains_key(encode_utf8(key@)) {
                Some(old(self)@[encode_utf8(key@)])
            } else {
                None::<T>
            }),
            final(self).node_count() <= old(self).node_count(),
            final(self).path_at(0) == old(self).path_at(0),
            !old(self)@.contains_key(encode_utf8(key@)) ==> final(self).node_count()
                == old(self).node_count() && (forall|q: int|
                0 <= q < old(self).node_count() ==> final(self).path_at(q) == old(self).path_at(
                    q,
                )),
    {
        proof {
            assert(self.paths@[0int] + key.spec_bytes() =~= encode_utf8(key@));
        }
        self.remove_at(0, key.as_bytes())
    }
}

/// A fresh all-empty child table: 256 slots, every one absent.
fn zero_slots() -> (r: Vec<u32>)
    ensures
        r@.len() == 256,
        forall|b: int| 0 <= b < 256 ==> r@[b] == 0,
{
    let mut r: Vec<u32> = Vec::new();
    let mut k: usize = 0;
    while k < 256
        invariant
            k <= 256,
            r@.len() == k,
            forall|b: int| 0 <= b < k ==> r@[b] == 0,
        decreases 256 - k,
    {
        r.push(0);
        k = k + 1;
    }
    r
}

/// An all-zero child table has fill count zero.
proof fn lemma_zero_slots_count(s: Seq<u32>)
    requires
        forall|b: int| 0 <= b < s.len() ==> s[b] == 0,
    ensures
        forall|k: int| k <= s.len() ==> nonzero_below(s, k) == 0,
{
    assert forall|k: int| k <= s.len() implies nonzero_below(s, k) == 0 by {
        lemma_zero_count_below(s, k);
    }
}

proof fn lemma_zero_count_below(s: Seq<u32>, k: int)
    requires
        forall|b: int| 0 <= b < s.len() ==> s[b] == 0,
        k <= s.len(),
    ensures
        nonzero_below(s, k) == 0,
    decreases k,
{
    if k > 0 {
        lemma_zero_count_below(s, k - 1);
    }
}

/// A one-element vector.
fn vec_of_one<A>(x: A) -> (r: Vec<A>)
    ensures
        r@ =~= seq![x],
{
    let mut r: Vec<A> = Vec::new();
    r.push(x);
    r
}

} // verus!
