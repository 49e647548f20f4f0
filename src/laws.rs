//! Properties of the substring index, stated over the corpus it was built from.
use vstd::prelude::*;
use crate::corpus::corpus_valid;
use crate::index::{conflicts, corpus_bytes, is_conflict, last_index_of, lemma_conflicts_members, lemma_last_index_of};
use crate::text::{bytes_of, contains_seq};

verus! {

/// Distinct strings have distinct UTF-8 encodings.
pub proof fn lemma_bytes_injective(a: Seq<char>, b: Seq<char>)
    requires
        bytes_of(a) == bytes_of(b),
    ensures
        a == b,
{
    vstd::utf8::encode_utf8_decode_utf8(a);
    vstd::utf8::encode_utf8_decode_utf8(b);
}

/// In a corpus without duplicate entries, querying an entry's own text never
/// reports that entry.
pub proof fn lemma_self_exclusion(es: Seq<Seq<char>>, i: int)
    requires
        es.len() <= usize::MAX,
        0 <= i < es.len(),
        forall|a: int, b: int| 0 <= a < b < es.len() ==> es[a] != es[b],
    ensures
        !conflicts(corpus_bytes(es), bytes_of(es[i])).contains(i as usize),
{
    let bs = corpus_bytes(es);
    let q = bytes_of(es[i]);
    lemma_last_index_of(bs, q);
    let l = last_index_of(bs, q);
    assert(bs[i] == q);
    assert(l >= i);
    if l > i {
        lemma_bytes_injective(es[l], es[i]);
    }
    lemma_conflicts_members(bs, q, bs.len() as int);
    assert(l == i);
    assert(!is_conflict(bs, q, i));
}

/// Querying an entry `es[a]` reports every entry of different text
/// that contains it, and reports only entries that contain it.
pub proof fn lemma_boundary_containment(es: Seq<Seq<char>>, a: int)
    requires
        es.len() <= usize::MAX,
        0 <= a < es.len(),
    ensures
        forall|b: int|
            0 <= b < es.len() && es[b] != es[a] && contains_seq(bytes_of(es[b]), bytes_of(es[a]))
                ==> conflicts(corpus_bytes(es), bytes_of(es[a])).contains(b as usize),
        forall|j: int|
            0 <= j < conflicts(corpus_bytes(es), bytes_of(es[a])).len() ==> contains_seq(
                bytes_of(es[conflicts(corpus_bytes(es), bytes_of(es[a]))[j] as int]),
                bytes_of(es[a]),
            ),
{
    let bs = corpus_bytes(es);
    let q = bytes_of(es[a]);
    let n = bs.len() as int;
    lemma_conflicts_members(bs, q, n);
    lemma_last_index_of(bs, q);
    assert forall|b: int|
        0 <= b < n && es[b] != es[a] && contains_seq(bytes_of(es[b]), q) implies conflicts(bs, q).contains(
        b as usize) by {
        assert(bs[b] == bytes_of(es[b]));
        if b == last_index_of(bs, q) {
            lemma_bytes_injective(es[b], es[a]);
        }
        assert(is_conflict(bs, q, b));
    }
    assert forall|j: int| 0 <= j < conflicts(bs, q).len() implies contains_seq(
        bytes_of(es[conflicts(bs, q)[j] as int]),
        q,
    ) by {
        let x = conflicts(bs, q)[j] as int;
        assert(0 <= x < n);
        assert(conflicts(bs, q).contains(x as usize));
        assert(is_conflict(bs, q, x));
        assert(bs[x] == bytes_of(es[x]));
    }
}

/// The result of a query depends on the corpus and the pattern alone, so
/// repeating it gives the same indices in the same order.
pub proof fn lemma_query_repeatable(es: Seq<Seq<char>>, q: Seq<char>, r1: Seq<usize>, r2: Seq<usize>)
    requires
        r1 == conflicts(corpus_bytes(es), bytes_of(q)),
        r2 == conflicts(corpus_bytes(es), bytes_of(q)),
    ensures
        r1 == r2,
{
}

/// An empty corpus can be indexed, and no query reports anything against it.
pub proof fn lemma_empty_corpus(q: Seq<char>)
    ensures
        corpus_valid(corpus_bytes(Seq::<Seq<char>>::empty())),
        conflicts(corpus_bytes(Seq::<Seq<char>>::empty()), bytes_of(q)).len() == 0,
{
    assert(corpus_bytes(Seq::<Seq<char>>::empty()).len() == 0);
}

} // verus!
