//! The layout of a corpus joined into one buffer, with a zero byte between
//! consecutive entries.
use vstd::prelude::*;
use crate::text::occurs_at;

verus! {

/// The separator placed between consecutive entries.
pub const SEPARATOR: u8 = 0;

/// Offset of entry `i` in the joined buffer.
pub open spec fn start_of(es: Seq<Seq<u8>>, i: int) -> int
    decreases i,
{
    if i <= 0 {
        0
    } else {
        start_of(es, i - 1) + es[i - 1].len() + 1
    }
}

/// The entries joined with one separator between each two.
pub open spec fn join_bytes(es: Seq<Seq<u8>>) -> Seq<u8>
    decreases es.len(),
{
    if es.len() == 0 {
        Seq::empty()
    } else if es.len() == 1 {
        es[0]
    } else {
        join_bytes(es.drop_last()) + seq![SEPARATOR] + es.last()
    }
}

/// Length of the joined buffer.
pub open spec fn buffer_len(es: Seq<Seq<u8>>) -> int {
    if es.len() == 0 {
        0
    } else {
        start_of(es, es.len() as int) - 1
    }
}

/// A corpus can be indexed: no entry holds the separator, and the joined
/// buffer fits the suffix table's 32-bit offsets.
pub open spec fn corpus_valid(es: Seq<Seq<u8>>) -> bool {
    &&& forall|i: int| 0 <= i < es.len() ==> !es[i].contains(SEPARATOR)
    &&& buffer_len(es) <= u32::MAX
}

/// Start offsets depend only on the entries before them.
pub proof fn lemma_start_prefix(es: Seq<Seq<u8>>, m: int, i: int)
    requires
        0 <= i <= m <= es.len(),
    ensures
        start_of(es.subrange(0, m), i) == start_of(es, i),
    decreases i,
{
    if i > 0 {
        lemma_start_prefix(es, m, i - 1);
    }
}

/// Entries occupy disjoint, increasing spans, each followed by a separator.
pub proof fn lemma_start_increasing(es: Seq<Seq<u8>>, i: int, j: int)
    requires
        0 <= i < j,
    ensures
        start_of(es, i) + es[i].len() + 1 <= start_of(es, j),
    decreases j,
{
    if j > i + 1 {
        lemma_start_increasing(es, i, j - 1);
    }
}

/// Start offsets are never negative.
pub proof fn lemma_start_nonneg(es: Seq<Seq<u8>>, i: int)
    ensures
        start_of(es, i) >= 0,
    decreases i,
{
    if i > 0 {
        lemma_start_nonneg(es, i - 1);
    }
}

/// Every entry's span ends within the joined buffer.
pub proof fn lemma_entry_within(es: Seq<Seq<u8>>, i: int)
    requires
        0 <= i < es.len(),
    ensures
        0 <= start_of(es, i),
        start_of(es, i) + es[i].len() <= buffer_len(es),
{
    lemma_start_nonneg(es, i);
    if i + 1 < es.len() {
        lemma_start_increasing(es, i + 1, es.len() as int);
    }
}

/// Each entry sits verbatim in the joined buffer at its start offset.
pub proof fn lemma_join_layout(es: Seq<Seq<u8>>)
    ensures
        join_bytes(es).len() == buffer_len(es),
        forall|i: int, k: int|
            0 <= i < es.len() && 0 <= k < es[i].len() ==> #[trigger] join_bytes(es)[start_of(es, i) + k]
                == #[trigger] es[i][k],
    decreases es.len(),
{
    let n = es.len() as int;
    if n == 1 {
        assert(start_of(es, 0) == 0);
    } else if n > 1 {
        let pre = es.drop_last();
        lemma_join_layout(pre);
        assert forall|i: int| 0 <= i <= n - 1 implies start_of(pre, i) == start_of(es, i) by {
            lemma_start_prefix(es, n - 1, i);
            assert(pre == es.subrange(0, n - 1));
        }
        assert forall|i: int, k: int|
            0 <= i < es.len() && 0 <= k < es[i].len() implies #[trigger] join_bytes(es)[start_of(es, i) + k]
                == #[trigger] es[i][k] by {
            if i < n - 1 {
                assert(pre[i] == es[i]);
                lemma_start_increasing(pre, i, n - 1);
                lemma_start_nonneg(es, i);
            }
        }
    }
}

/// An occurrence inside an entry is an occurrence in the joined buffer, and
/// an occurrence in the buffer that lies within an entry's span is one inside
/// that entry.
pub proof fn lemma_occurrence_in_entry(es: Seq<Seq<u8>>, q: Seq<u8>, i: int, k: int)
    requires
        0 <= i < es.len(),
        0 <= k,
        k + q.len() <= es[i].len(),
    ensures
        occurs_at(es[i], q, k) <==> occurs_at(join_bytes(es), q, start_of(es, i) + k),
{
    lemma_join_layout(es);
    lemma_start_nonneg(es, i);
    if i + 1 < es.len() {
        lemma_start_increasing(es, i, es.len() - 1);
    }
    let buf = join_bytes(es);
    let s = start_of(es, i);
    assert(s + es[i].len() <= buf.len());
    if occurs_at(es[i], q, k) {
        assert(buf.subrange(s + k, s + k + q.len()) =~= q) by {
            assert forall|x: int| 0 <= x < q.len() implies buf[s + k + x] == q[x] by {
                assert(es[i].subrange(k, k + q.len())[x] == es[i][k + x]);
                assert(buf[s + (k + x)] == es[i][k + x]);
            }
        }
    }
    if occurs_at(buf, q, s + k) {
        assert(es[i].subrange(k, k + q.len()) =~= q) by {
            assert forall|x: int| 0 <= x < q.len() implies es[i][k + x] == q[x] by {
                assert(buf.subrange(s + k, s + k + q.len())[x] == buf[s + k + x]);
                assert(buf[s + (k + x)] == es[i][k + x]);
            }
        }
    }
}

} // verus!
