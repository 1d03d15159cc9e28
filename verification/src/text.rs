//! UTF-8 helpers for node paths.
//!
//! Every path stored in the arena is a prefix of some valid UTF-8 byte
//! sequence (keys are UTF-8, so a node in the middle of a multi-byte
//! character sits on a prefix that can still be completed).

use vstd::prelude::*;
use vstd::utf8::*;

verus! {

/// `s` can be extended to a valid UTF-8 byte sequence.
pub open spec fn utf8_prefix(s: Seq<u8>) -> bool {
    exists|t: Seq<u8>| valid_utf8(s + t)
}

/// A valid sequence is trivially a UTF-8 prefix.
pub proof fn lemma_valid_is_prefix(s: Seq<u8>)
    requires
        valid_utf8(s),
    ensures
        utf8_prefix(s),
{
    assert(s + Seq::<u8>::empty() =~= s);
    assert(valid_utf8(s + Seq::<u8>::empty()));
}

/// Relies on core::str::from_utf8: it succeeds exactly on valid UTF-8 and
/// views exactly the given bytes, which then decode to the returned string's
/// characters.
#[verifier::external_body]
pub(crate) fn bytes_to_string(v: &Vec<u8>) -> (r: Option<String>)
    ensures
        r is Some <==> valid_utf8(v@),
        r matches Some(s) ==> s@ == decode_utf8(v@),
{
    match core::str::from_utf8(v.as_slice()) {
        Ok(s) => Some(String::from(s)),
        Err(_) => None,
    }
}

/// `s` is a whole leading-byte-plus-continuations group: exactly the byte
/// shape of one encoded character, in one of the four UTF-8 width classes.
pub open spec fn class_complete(s: Seq<u8>) -> bool {
    ||| (s.len() == 1 && is_leading_byte_width_1(s[0]))
    ||| (s.len() == 2 && is_leading_byte_width_2(s[0]) && is_continuation_byte(s[1]))
    ||| (s.len() == 3 && is_leading_byte_width_3(s[0]) && is_continuation_byte(s[1])
        && is_continuation_byte(s[2]))
    ||| (s.len() == 4 && is_leading_byte_width_4(s[0]) && is_continuation_byte(s[1])
        && is_continuation_byte(s[2]) && is_continuation_byte(s[3]))
}

/// `s1` precedes `s2` in lexicographic byte order: they agree up to some
/// position where `s1` holds the smaller byte.
pub open spec fn lex_lt(s1: Seq<u8>, s2: Seq<u8>) -> bool {
    exists|m: int|
        #![trigger s1[m]]
        0 <= m < s1.len() && m < s2.len() && s1[m] < s2[m] && (forall|j: int|
            #![trigger s1[j]]
            0 <= j < m ==> s1[j] == s2[j])
}

/// Enumeration order of whole-character byte groups: the shorter width
/// class comes first, and within one class the lexicographically (that is,
/// by lead byte, then continuation bytes) smaller group comes first.
pub open spec fn suffix_lt(s1: Seq<u8>, s2: Seq<u8>) -> bool {
    ||| s1.len() < s2.len()
    ||| (s1.len() == s2.len() && lex_lt(s1, s2))
}

/// Lifting lexicographic order over one equal leading byte: if two
/// sequences agree at position `pl` and their tails beyond it are ordered,
/// their tails from `pl` on are ordered.
pub proof fn lemma_lex_shift(p1: Seq<u8>, p2: Seq<u8>, pl: int)
    requires
        0 <= pl,
        pl + 1 <= p1.len(),
        pl + 1 <= p2.len(),
        p1[pl] == p2[pl],
        lex_lt(p1.skip(pl + 1), p2.skip(pl + 1)),
    ensures
        lex_lt(p1.skip(pl), p2.skip(pl)),
{
    let s1 = p1.skip(pl + 1);
    let s2 = p2.skip(pl + 1);
    let m = choose|m: int|
        #![trigger s1[m]]
        0 <= m < s1.len() && m < s2.len() && s1[m] < s2[m] && (forall|j: int|
            #![trigger s1[j]]
            0 <= j < m ==> s1[j] == s2[j]);
    let t1 = p1.skip(pl);
    let t2 = p2.skip(pl);
    assert(t1[m + 1] == p1[pl + 1 + m]);
    assert(t1[m + 1] == s1[m]);
    assert(t2[m + 1] == s2[m]);
    assert(t1[m + 1] < t2[m + 1]);
    assert forall|j: int| #![trigger t1[j]] 0 <= j < m + 1 implies t1[j] == t2[j] by {
        if j == 0 {
            assert(t1[0] == p1[pl]);
            assert(t2[0] == p2[pl]);
        } else {
            assert(s1[j - 1] == s2[j - 1]);
            assert(t1[j] == s1[j - 1]);
            assert(t2[j] == s2[j - 1]);
        }
    }
}

/// Lexicographic order from a strictly smaller byte at position `pl`.
pub proof fn lemma_lex_head(p1: Seq<u8>, p2: Seq<u8>, pl: int)
    requires
        0 <= pl,
        pl < p1.len(),
        pl < p2.len(),
        p1[pl] < p2[pl],
    ensures
        lex_lt(p1.skip(pl), p2.skip(pl)),
{
    let t1 = p1.skip(pl);
    let t2 = p2.skip(pl);
    assert(t1[0] == p1[pl]);
    assert(t2[0] == p2[pl]);
    assert(t1[0] < t2[0]);
}

/// Walking a valid sequence one whole scalar at a time stays on character
/// boundaries: the next boundary after `m` lies one scalar length further.
pub proof fn lemma_boundary_step(s: Seq<u8>, m: int)
    requires
        valid_utf8(s),
        is_char_boundary(s, m),
        0 <= m < s.len(),
    ensures
        valid_first_scalar(s.skip(m)),
        m + length_of_first_scalar(s.skip(m)) <= s.len(),
        is_char_boundary(s, m + length_of_first_scalar(s.skip(m))),
    decreases m,
{
    valid_utf8_split(s, m);
    let tail = s.subrange(m, s.len() as int);
    assert(tail =~= s.skip(m));
    assert(valid_utf8(tail));
    assert(valid_first_scalar(tail));
    let sl = length_of_first_scalar(tail);
    if m == 0 {
        assert(tail =~= s);
        assert(length_of_first_scalar(s) == sl);
        assert(is_char_boundary(s, sl)) by {
            assert(is_char_boundary(pop_first_scalar(s), 0));
        }
    } else {
        let head_len = length_of_first_scalar(s);
        let rest = pop_first_scalar(s);
        assert(is_char_boundary(rest, m - head_len));
        assert(rest.skip(m - head_len) =~= s.skip(m));
        lemma_boundary_step(rest, m - head_len);
        assert(is_char_boundary(rest, m - head_len + sl));
        assert(is_char_boundary(s, m + sl));
    }
}

/// A well-formed single-scalar encoding, taken whole, is exactly one
/// character-shaped byte group: decomposing a valid key scalar by scalar
/// yields the groups that child enumeration walks.
pub proof fn lemma_scalar_class_complete(s: Seq<u8>)
    requires
        valid_first_scalar(s),
        s.len() == length_of_first_scalar(s),
    ensures
        class_complete(s),
{
}

/// Appending one whole character-shaped byte group to a valid sequence
/// yields a valid sequence, provided the result can still be completed to
/// valid UTF-8 (which rules out overlong and surrogate encodings).
pub proof fn lemma_whole_char_extension(p: Seq<u8>, s: Seq<u8>)
    requires
        valid_utf8(p),
        class_complete(s),
        utf8_prefix(p + s),
    ensures
        valid_utf8(p + s),
{
    let t = choose|t: Seq<u8>| valid_utf8((p + s) + t);
    let u = (p + s) + t;
    let w = s + t;
    assert(u =~= p + w);
    assert(u[p.len() as int] == s[0]);
    assert(is_char_boundary(u, p.len() as int)) by {
        is_char_boundary_iff_not_is_continuation_byte(u, p.len() as int);
    }
    valid_utf8_split(u, p.len() as int);
    assert(u.subrange(p.len() as int, u.len() as int) =~= w);
    assert(valid_utf8(w));
    assert(valid_first_scalar(w));
    assert(length_of_first_scalar(w) == s.len()) by {
        assert(w[0] == s[0]);
    }
    assert(valid_first_scalar(s)) by {
        assert(forall|j: int| 0 <= j < s.len() ==> w[j] == s[j]);
        assert(valid_leading_and_continuation_bytes_first_codepoint(s));
        assert(decode_first_codepoint(s) == decode_first_codepoint(w));
        assert(length_of_first_codepoint(s) == length_of_first_codepoint(w));
    }
    assert(valid_utf8(s)) by {
        assert(pop_first_scalar(s) =~= Seq::<u8>::empty());
        assert(valid_utf8(Seq::<u8>::empty()));
    }
    valid_utf8_concat(p, s);
}

/// Any prefix of a UTF-8 prefix is again a UTF-8 prefix.
pub proof fn lemma_prefix_of_prefix(s: Seq<u8>, m: int)
    requires
        utf8_prefix(s),
        0 <= m <= s.len(),
    ensures
        utf8_prefix(s.take(m)),
{
    let t = choose|t: Seq<u8>| valid_utf8(s + t);
    assert(s.take(m) + (s.skip(m) + t) =~= s + t);
    assert(valid_utf8(s.take(m) + (s.skip(m) + t)));
}

} // verus!
