//! Laws of the tree as a map: what insertion and removal guarantee to every
//! later lookup, stated over the abstract views and proved once and for all.

use vstd::prelude::*;
use vstd::utf8::decode_utf8;
use vstd::utf8::encode_utf8;
use vstd::utf8::encode_utf8_decode_utf8;
use crate::string_tree::pairs_as_map;
use crate::string_tree::StringTree;

verus! {

/// The value of the last pair in `s` whose key encodes to the byte path
/// `kb`, if any pair has that key.
pub open spec fn last_value_of<T>(s: Seq<(String, T)>, kb: Seq<u8>) -> Option<T>
    decreases s.len(),
{
    if s.len() == 0 {
        None
    } else if encode_utf8(s.last().0@) == kb {
        Some(s.last().1)
    } else {
        last_value_of(s.drop_last(), kb)
    }
}

/// Building by inserts alone, the most recent insert per key wins: the map
/// of a pair list binds a key exactly when some pair carries it, and then to
/// the value of the last such pair. Keys never inserted are absent.
pub proof fn lemma_pairs_last_write_wins<T>(s: Seq<(String, T)>, kb: Seq<u8>)
    ensures
        pairs_as_map(s).contains_key(kb) == (last_value_of(s, kb) is Some),
        last_value_of(s, kb) is Some ==> pairs_as_map(s)[kb] == last_value_of(s, kb)->0,
    decreases s.len(),
{
    if s.len() > 0 {
        lemma_pairs_last_write_wins(s.drop_last(), kb);
    }
}

/// Under unique keys, insertion order is irrelevant: the built map binds
/// each pair's key to that pair's value wherever the pair stands in the
/// list, so any two orders of one uniquely-keyed set build the same map.
pub proof fn lemma_unique_keys_any_order<T>(s: Seq<(String, T)>, i: int)
    requires
        forall|i1: int, i2: int|
            #![trigger s[i1], s[i2]]
            0 <= i1 < i2 < s.len() ==> encode_utf8(s[i1].0@) != encode_utf8(s[i2].0@),
        0 <= i < s.len(),
    ensures
        pairs_as_map(s).contains_key(encode_utf8(s[i].0@)),
        pairs_as_map(s)[encode_utf8(s[i].0@)] == s[i].1,
    decreases s.len(),
{
    if i < s.len() - 1 {
        lemma_unique_keys_any_order(s.drop_last(), i);
        assert(s.drop_last()[i] == s[i]);
        assert(encode_utf8(s.last().0@) != encode_utf8(s[i].0@));
    }
}

/// Distinct string keys descend along distinct byte paths: UTF-8 encoding
/// never conflates two keys.
pub proof fn lemma_distinct_keys_distinct_paths(k1: Seq<char>, k2: Seq<char>)
    requires
        k1 != k2,
    ensures
        encode_utf8(k1) != encode_utf8(k2),
{
    if encode_utf8(k1) == encode_utf8(k2) {
        encode_utf8_decode_utf8(k1);
        encode_utf8_decode_utf8(k2);
        assert(false);
    }
}

/// A key's UTF-8 encoding takes at least one and at most four bytes per
/// character: enough to budget arena growth before an insertion.
pub proof fn lemma_encode_utf8_len(k: Seq<char>)
    ensures
        k.len() <= encode_utf8(k).len() <= 4 * k.len(),
    decreases k.len(),
{
    if k.len() > 0 {
        lemma_encode_utf8_len(k.drop_first());
    }
}

/// The most recently inserted value wins: after an insertion, looking the
/// key up yields exactly the new value, and every other key is untouched.
pub proof fn lemma_insert_then_get<T>(pre: StringTree<T>, post: StringTree<T>, key: Seq<char>, v: T)
    requires
        post@ == pre@.insert(encode_utf8(key), v),
    ensures
        post@.contains_key(encode_utf8(key)),
        post@[encode_utf8(key)] == v,
        forall|k2: Seq<u8>|
            k2 != encode_utf8(key) ==> post@.contains_key(k2) == pre@.contains_key(k2),
        forall|k2: Seq<u8>|
            k2 != encode_utf8(key) && pre@.contains_key(k2) ==> post@[k2] == pre@[k2],
{
}

/// Insertions under distinct keys commute: any insertion order of a
/// uniquely-keyed set of pairs produces the same map.
pub proof fn lemma_insert_order_independent<T>(
    m: Map<Seq<u8>, T>,
    k1: Seq<u8>,
    k2: Seq<u8>,
    v1: T,
    v2: T,
)
    requires
        k1 != k2,
    ensures
        m.insert(k1, v1).insert(k2, v2) == m.insert(k2, v2).insert(k1, v1),
{
    assert(m.insert(k1, v1).insert(k2, v2) =~= m.insert(k2, v2).insert(k1, v1));
}

/// Removal is final and idempotent: after a removal the key is absent, a
/// second removal changes nothing, and every other key is untouched.
pub proof fn lemma_remove_then_get<T>(pre: StringTree<T>, post: StringTree<T>, key: Seq<char>)
    requires
        post@ == pre@.remove(encode_utf8(key)),
    ensures
        !post@.contains_key(encode_utf8(key)),
        post@.remove(encode_utf8(key)) == post@,
        forall|k2: Seq<u8>|
            k2 != encode_utf8(key) ==> post@.contains_key(k2) == pre@.contains_key(k2),
        forall|k2: Seq<u8>|
            k2 != encode_utf8(key) && pre@.contains_key(k2) ==> post@[k2] == pre@[k2],
{
    assert(post@.remove(encode_utf8(key)) =~= post@);
}

/// Path identity: the node reached by descending a key's bytes reports a
/// path that decodes back to exactly that key.
pub proof fn lemma_path_identity<T>(t: StringTree<T>, i: int, key: Seq<char>)
    requires
        t.wf(),
        0 <= i < t.node_count(),
        t.path_at(i) == encode_utf8(key),
    ensures
        decode_utf8(t.path_at(i)) == key,
{
    encode_utf8_decode_utf8(key);
}

} // verus!
