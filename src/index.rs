//! A substring index over a fixed corpus of entries, backed by a suffix table
//! of the entries joined with a separator byte.
use vstd::prelude::*;
use crate::corpus::{
    buffer_len, corpus_valid, join_bytes, lemma_entry_within, lemma_join_layout, lemma_occurrence_in_entry,
    lemma_start_increasing, start_of, SEPARATOR,
};
use crate::error::SubstringError;
use crate::text::{bytes_of, contains_seq, occurs_at};

verus! {

/// The suffix table of the `suffix` crate, held opaquely.
#[verifier::external_type_specification]
#[verifier::external_body]
pub struct ExSuffixTable<'s, 't>(suffix::SuffixTable<'s, 't>);

/// The bytes of the text that a suffix table was built over.
pub uninterp spec fn table_text(t: suffix::SuffixTable<'static, 'static>) -> Seq<u8>;

/// Relies on `suffix::SuffixTable::new`: the table keeps the text it indexes.
/// It panics on a text of more than `u32::MAX` bytes.
#[verifier::external_body]
fn build_table(text: String) -> (t: suffix::SuffixTable<'static, 'static>)
    requires
        bytes_of(text@).len() <= u32::MAX,
    ensures
        table_text(t) == bytes_of(text@),
{
    suffix::SuffixTable::new(text)
}

/// Relies on `suffix::SuffixTable::positions`: every byte offset at which a
/// non-empty `query` starts in the text, and nothing for an empty one.
#[verifier::external_body]
fn table_positions(t: &suffix::SuffixTable<'static, 'static>, query: &str) -> (r: Vec<u32>)
    ensures
        bytes_of(query@).len() == 0 ==> r@.len() == 0,
        forall|i: int| 0 <= i < r@.len() ==> occurs_at(table_text(*t), bytes_of(query@), r@[i] as int),
        forall|k: int|
            bytes_of(query@).len() > 0 && occurs_at(table_text(*t), bytes_of(query@), k)
                ==> r@.contains(k as u32),
{
    t.positions(query).to_vec()
}

/// The UTF-8 encoding of two strings one after the other is the two
/// encodings one after the other.
pub proof fn lemma_bytes_of_concat(a: Seq<char>, b: Seq<char>)
    ensures
        bytes_of(a + b) == bytes_of(a) + bytes_of(b),
    decreases a.len(),
{
    if a.len() == 0 {
        assert(a + b =~= b);
        assert(bytes_of(a) =~= Seq::<u8>::empty());
        assert(bytes_of(a) + bytes_of(b) =~= bytes_of(b));
    } else {
        lemma_bytes_of_concat(a.drop_first(), b);
        assert((a + b).drop_first() =~= a.drop_first() + b);
        assert((a + b)[0] == a[0]);
        assert(bytes_of(a + b) =~= bytes_of(a) + bytes_of(b));
    }
}

/// The entries with `sep` between each two.
fn join_entries(entries: &Vec<String>, sep: &str) -> (r: String)
    requires
        bytes_of(sep@) == seq![SEPARATOR],
    ensures
        bytes_of(r@) == join_bytes(corpus_bytes(entries@.map_values(|s: String| s@))),
{
    let ghost es = corpus_bytes(entries@.map_values(|s: String| s@));
    let mut r = String::new();
    let mut i: usize = 0;
    while i < entries.len()
        invariant
            i <= entries@.len(),
            es == corpus_bytes(entries@.map_values(|s: String| s@)),
            bytes_of(sep@) == seq![SEPARATOR],
            bytes_of(r@) == join_bytes(es.subrange(0, i as int)),
        decreases entries@.len() - i,
    {
        let ghost before = r@;
        let e = entries[i].as_str();
        assert(bytes_of(e@) == es[i as int]);
        let ghost sub = es.subrange(0, i + 1);
        assert(sub.drop_last() =~= es.subrange(0, i as int));
        assert(sub.last() == es[i as int]);
        if i > 0 {
            r.append(sep);
            proof {
                lemma_bytes_of_concat(before, sep@);
            }
            let ghost mid = r@;
            r.append(e);
            proof {
                lemma_bytes_of_concat(mid, e@);
            }
        } else {
            r.append(e);
            proof {
                lemma_bytes_of_concat(before, e@);
                assert(es.subrange(0, 0) =~= Seq::<Seq<u8>>::empty());
                assert(bytes_of(before) =~= Seq::<u8>::empty());
                assert(bytes_of(r@) =~= es[0]);
            }
        }
        i += 1;
    }
    assert(es.subrange(0, entries@.len() as int) =~= es);
    r
}

/// The corpus as byte strings.
pub open spec fn corpus_bytes(es: Seq<Seq<char>>) -> Seq<Seq<u8>> {
    es.map_values(|s: Seq<char>| bytes_of(s))
}

/// The last entry equal to `q`, or -1 where there is none.
pub open spec fn last_index_of(es: Seq<Seq<u8>>, q: Seq<u8>) -> int
    decreases es.len(),
{
    if es.len() == 0 {
        -1
    } else if es.last() == q {
        es.len() - 1
    } else {
        last_index_of(es.drop_last(), q)
    }
}

/// Entry `j` contains the pattern `q` and is not the entry that `q` names
/// itself.
pub open spec fn is_conflict(es: Seq<Seq<u8>>, q: Seq<u8>, j: int) -> bool {
    &&& contains_seq(es[j], q)
    &&& j != last_index_of(es, q)
}

/// The conflicting entries among the first `m`, in ascending order.
pub open spec fn conflicts_upto(es: Seq<Seq<u8>>, q: Seq<u8>, m: int) -> Seq<usize>
    decreases m,
{
    if m <= 0 {
        Seq::empty()
    } else if is_conflict(es, q, m - 1) {
        conflicts_upto(es, q, m - 1).push((m - 1) as usize)
    } else {
        conflicts_upto(es, q, m - 1)
    }
}

/// The conflicts of `q` against the whole corpus, in ascending order.
pub open spec fn conflicts(es: Seq<Seq<u8>>, q: Seq<u8>) -> Seq<usize> {
    conflicts_upto(es, q, es.len() as int)
}

/// `last_index_of` names the last entry equal to `q`, if any.
pub proof fn lemma_last_index_of(es: Seq<Seq<u8>>, q: Seq<u8>)
    ensures
        -1 <= last_index_of(es, q) < es.len(),
        last_index_of(es, q) >= 0 ==> es[last_index_of(es, q)] == q,
        forall|i: int| last_index_of(es, q) < i < es.len() ==> es[i] != q,
    decreases es.len(),
{
    if es.len() > 0 && es.last() != q {
        lemma_last_index_of(es.drop_last(), q);
        assert forall|i: int| last_index_of(es, q) < i < es.len() implies es[i] != q by {
            if i < es.len() - 1 {
                assert(es.drop_last()[i] == es[i]);
            }
        }
    }
}

/// An index lists exactly the conflicting entries.
pub proof fn lemma_conflicts_members(es: Seq<Seq<u8>>, q: Seq<u8>, m: int)
    requires
        0 <= m <= es.len(),
        m <= usize::MAX,
    ensures
        forall|j: int| 0 <= j < conflicts_upto(es, q, m).len() ==> conflicts_upto(es, q, m)[j] < m,
        forall|j: int|
            0 <= j < m ==> (conflicts_upto(es, q, m).contains(j as usize) <==> is_conflict(es, q, j)),
    decreases m,
{
    if m > 0 {
        lemma_conflicts_members(es, q, m - 1);
        let prev = conflicts_upto(es, q, m - 1);
        assert forall|j: int|
            0 <= j < m implies (conflicts_upto(es, q, m).contains(j as usize) <==> is_conflict(es, q, j)) by {
            if is_conflict(es, q, m - 1) {
                let cur = prev.push((m - 1) as usize);
                if j < m - 1 && cur.contains(j as usize) {
                    let x = choose|x: int| 0 <= x < cur.len() && cur[x] == j as usize;
                    if x < prev.len() {
                        assert(prev.contains(j as usize));
                    }
                }
                if prev.contains(j as usize) {
                    let x = choose|x: int| 0 <= x < prev.len() && prev[x] == j as usize;
                    assert(cur[x] == j as usize);
                }
                if j == m - 1 {
                    assert(cur[prev.len() as int] == j as usize);
                }
            } else if j == m - 1 && prev.contains(j as usize) {
                let x = choose|x: int| 0 <= x < prev.len() && prev[x] == j as usize;
            }
        }
    }
}

/// A substring index over a fixed, ordered corpus of entries.
///
/// The entries are joined with a separator byte and indexed by a suffix
/// table; `cumulative_starts` holds each entry's offset in the joined text,
/// so a match is mapped back to its entry by binary search. The entry that a
/// pattern names itself is recognised among the matches as one that starts
/// at an entry's offset and spans the whole entry; of several equal entries
/// the last one counts.
pub struct RustSubstringIndex {
    typos: Vec<String>,
    cumulative_starts: Vec<usize>,
    suffix_array: suffix::SuffixTable<'static, 'static>,
}

impl View for RustSubstringIndex {
    type V = Seq<Seq<char>>;

    closed spec fn view(&self) -> Seq<Seq<char>> {
        self.typos@.map_values(|s: String| s@)
    }
}

impl RustSubstringIndex {
    /// The start offsets and the suffix table describe the corpus.
    pub closed spec fn wf(&self) -> bool {
        let es = corpus_bytes(self@);
        &&& corpus_valid(es)
        &&& self.cumulative_starts@.len() == es.len()
        &&& forall|i: int|
            0 <= i < es.len() ==> self.cumulative_starts@[i] as int == #[trigger] start_of(es, i)
        &&& table_text(self.suffix_array) == join_bytes(es)
    }
}


/// `s` is strictly ascending.
pub open spec fn increasing(s: Seq<usize>) -> bool {
    forall|i: int, j: int| 0 <= i < j < s.len() ==> s[i] < s[j]
}

/// A strictly ascending list of exactly the conflicting entries among the
/// first `m` is the list of conflicts.
pub proof fn lemma_sorted_conflicts(es: Seq<Seq<u8>>, q: Seq<u8>, r: Seq<usize>, m: int)
    requires
        0 <= m <= es.len(),
        m <= usize::MAX,
        increasing(r),
        forall|y: int| 0 <= y < r.len() ==> r[y] < m,
        forall|j: int| 0 <= j < m ==> (r.contains(j as usize) <==> is_conflict(es, q, j)),
    ensures
        r == conflicts_upto(es, q, m),
    decreases m,
{
    if m == 0 {
        if r.len() > 0 {
            assert(r[0] < 0);
        }
        assert(r =~= Seq::<usize>::empty());
    } else if is_conflict(es, q, m - 1) {
        assert(r.contains((m - 1) as usize));
        let x = choose|x: int| 0 <= x < r.len() && r[x] == (m - 1) as usize;
        if x < r.len() - 1 {
            assert(r[x] < r[x + 1]);
        }
        let pre = r.drop_last();
        assert forall|y: int| 0 <= y < pre.len() implies pre[y] < m - 1 by {
            assert(r[y] < r[x]);
        }
        assert forall|j: int| 0 <= j < m - 1 implies (pre.contains(j as usize) <==> is_conflict(es, q, j)) by {
            if r.contains(j as usize) {
                let y = choose|y: int| 0 <= y < r.len() && r[y] == j as usize;
                assert(y != x);
                assert(pre[y] == j as usize);
            }
            if pre.contains(j as usize) {
                let y = choose|y: int| 0 <= y < pre.len() && pre[y] == j as usize;
                assert(r[y] == j as usize);
            }
        }
        lemma_sorted_conflicts(es, q, pre, m - 1);
        assert(r =~= pre.push((m - 1) as usize));
    } else {
        assert forall|y: int| 0 <= y < r.len() implies r[y] < m - 1 by {
            if r[y] == m - 1 {
                assert(r.contains((m - 1) as usize));
            }
        }
        lemma_sorted_conflicts(es, q, r, m - 1);
    }
}

/// Adds `x` to the strictly ascending `v`, unless it is there already.
fn insert_sorted(v: &mut Vec<usize>, x: usize)
    requires
        increasing(old(v)@),
    ensures
        increasing(final(v)@),
        forall|y: usize| final(v)@.contains(y) <==> (old(v)@.contains(y) || y == x),
{
    let mut lo: usize = 0;
    let mut hi: usize = v.len();
    while lo < hi
        invariant
            increasing(v@),
            lo <= hi <= v@.len(),
            forall|i: int| 0 <= i < lo ==> v@[i] < x,
            forall|i: int| hi <= i < v@.len() ==> v@[i] >= x,
        decreases hi - lo,
    {
        let mid = lo + (hi - lo) / 2;
        if v[mid] < x {
            lo = mid + 1;
        } else {
            hi = mid;
        }
    }
    if lo < v.len() && v[lo] == x {
        assert(v@.contains(x));
        return;
    }
    let ghost pre = v@;
    v.insert(lo, x);
    proof {
        pre.insert_ensures(lo as int, x);
        assert forall|i: int, j: int| 0 <= i < j < v@.len() implies v@[i] < v@[j] by {
            if j < lo {
            } else if i > lo {
                assert(v@[i] == pre[i - 1] && v@[j] == pre[j - 1]);
            } else if i == lo {
                assert(v@[j] == pre[j - 1]);
                if j - 1 > lo {
                    assert(pre[lo as int] < pre[j - 1]);
                }
            } else {
                if j > lo {
                    assert(v@[j] == pre[j - 1]);
                }
            }
        }
        assert forall|y: usize| v@.contains(y) <==> (pre.contains(y) || y == x) by {
            if v@.contains(y) {
                let k = choose|k: int| 0 <= k < v@.len() && v@[k] == y;
                if k < lo {
                    assert(pre[k] == y);
                } else if k > lo {
                    assert(pre[k - 1] == y);
                }
            }
            if pre.contains(y) {
                let k = choose|k: int| 0 <= k < pre.len() && pre[k] == y;
                if k < lo {
                    assert(v@[k] == y);
                } else {
                    assert(v@[k + 1] == y);
                }
            }
            if y == x {
                assert(v@[lo as int] == x);
            }
        }
    }
}

/// The greatest `i` with `starts[i] <= pos`.
fn owner_of(starts: &Vec<usize>, pos: usize) -> (i: usize)
    requires
        starts@.len() > 0,
        starts@[0] <= pos,
    ensures
        i < starts@.len(),
        starts@[i as int] <= pos,
        i + 1 < starts@.len() ==> pos < starts@[i + 1],
{
    let mut lo: usize = 0;
    let mut hi: usize = starts.len();
    while hi - lo > 1
        invariant
            lo < hi <= starts@.len(),
            starts@[lo as int] <= pos,
            hi < starts@.len() ==> pos < starts@[hi as int],
        decreases hi - lo,
    {
        let mid = lo + (hi - lo) / 2;
        if starts[mid] <= pos {
            lo = mid;
        } else {
            hi = mid;
        }
    }
    lo
}

/// Whether `b` holds the separator byte.
fn has_separator(b: &[u8]) -> (r: bool)
    ensures
        r == b@.contains(SEPARATOR),
{
    let mut i: usize = 0;
    while i < b.len()
        invariant
            i <= b@.len(),
            forall|j: int| 0 <= j < i ==> b@[j] != SEPARATOR,
        decreases b@.len() - i,
    {
        if b[i] == SEPARATOR {
            assert(b@[i as int] == SEPARATOR);
            return true;
        }
        i += 1;
    }
    false
}

impl RustSubstringIndex {
    /// Builds the index over `formatted_typos`, kept in the given order.
    /// Fails with `InvalidInput` exactly when an entry holds the separator
    /// byte or the joined corpus exceeds `u32::MAX` bytes.
    pub fn new(formatted_typos: Vec<String>) -> (r: Result<Self, SubstringError>)
        ensures
            match r {
                Ok(idx) => idx.wf() && idx@ == formatted_typos@.map_values(|s: String| s@),
                Err(e) => e == SubstringError::InvalidInput,
            },
            r is Ok <==> corpus_valid(corpus_bytes(formatted_typos@.map_values(|s: String| s@))),
    {
        let ghost es = corpus_bytes(formatted_typos@.map_values(|s: String| s@));
        let n = formatted_typos.len();
        let mut cumulative_starts: Vec<usize> = Vec::new();
        let mut cumulative_pos: u64 = 0;
        let mut i: usize = 0;
        while i < n
            invariant
                n == formatted_typos@.len(),
                es == corpus_bytes(formatted_typos@.map_values(|s: String| s@)),
                i <= n,
                cumulative_starts@.len() == i,
                forall|j: int| 0 <= j < i ==> cumulative_starts@[j] as int == #[trigger] start_of(es, j),
                cumulative_pos as int == start_of(es, i as int),
                cumulative_pos <= u32::MAX as u64 + 1,
                forall|j: int| 0 <= j < i ==> !(#[trigger] es[j]).contains(SEPARATOR),
                forall|j: int| 0 <= j < i ==> #[trigger] start_of(es, j) + es[j].len() <= u32::MAX,
            decreases n - i,
        {
            let b = formatted_typos[i].as_str().as_bytes();
            assert(b@ == es[i as int]);
            if has_separator(b) {
                return Err(SubstringError::InvalidInput);
            }
            let len = b.len() as u64;
            if len > u32::MAX as u64 || cumulative_pos + len > u32::MAX as u64 {
                proof {
                    lemma_entry_within(es, i as int);
                }
                return Err(SubstringError::InvalidInput);
            }
            cumulative_starts.push(cumulative_pos as usize);
            cumulative_pos = cumulative_pos + len + 1;
            i += 1;
        }
        proof {
            if n > 0 {
                assert(start_of(es, n as int) == start_of(es, n - 1) + es[n - 1].len() + 1);
            }
            lemma_join_layout(es);
        }
        let sep = "\u{0}";
        proof {
            reveal_strlit("\u{0}");
            assert(sep@.drop_first() =~= Seq::<char>::empty());
            assert(sep@.len() == 1 && sep@[0] == '\u{0}');
            assert(sep@[0] as u32 == 0);
            assert((0u32 & 0x7F) as u8 == 0u8) by (bit_vector);
            assert(vstd::utf8::encode_scalar(sep@[0] as u32) =~= seq![SEPARATOR]);
            assert(vstd::utf8::encode_utf8(Seq::<char>::empty()) =~= Seq::<u8>::empty());
            assert(vstd::utf8::encode_utf8(sep@) == vstd::utf8::encode_scalar(sep@[0] as u32)
                + vstd::utf8::encode_utf8(sep@.drop_first()));
            assert(vstd::utf8::encode_utf8(sep@) =~= seq![SEPARATOR]);
        }
        let concatenated = join_entries(&formatted_typos, sep);
        let suffix_array = build_table(concatenated);
        Ok(RustSubstringIndex { typos: formatted_typos, cumulative_starts, suffix_array })
    }

    /// The entries, in construction order.
    pub fn get_typos(&self) -> (r: Vec<String>)
        ensures
            r@.map_values(|s: String| s@) == self@,
    {
        let mut r: Vec<String> = Vec::new();
        let mut i: usize = 0;
        while i < self.typos.len()
            invariant
                i <= self.typos@.len(),
                r@.len() == i,
                forall|j: int| 0 <= j < i ==> r@[j]@ == self.typos@[j]@,
            decreases self.typos@.len() - i,
        {
            r.push(self.typos[i].clone());
            i += 1;
        }
        assert(r@.map_values(|s: String| s@) =~= self@);
        r
    }

    /// The entries that contain the non-empty `typo`, in ascending order and
    /// each once, found through the suffix table; and the last entry equal to it.
    fn matching_entries(&self, typo: &str) -> (r: (Vec<usize>, Option<usize>))
        requires
            self.wf(),
            bytes_of(typo@).len() > 0,
        ensures
            increasing(r.0@),
            forall|y: int| 0 <= y < r.0@.len() ==> #[trigger] r.0@[y] < self@.len(),
            forall|x: int|
                0 <= x < self@.len() ==> (r.0@.contains(x as usize) <==> contains_seq(
                    corpus_bytes(self@)[x],
                    bytes_of(typo@),
                )),
            r.1 matches Some(s) ==> s < self@.len() && corpus_bytes(self@)[s as int] == bytes_of(typo@),
            forall|x: int|
                0 <= x < self@.len() && #[trigger] corpus_bytes(self@)[x] == bytes_of(typo@)
                    ==> (r.1 matches Some(s) && x <= s),
    {
        let ghost es = corpus_bytes(self@);
        let ghost q = bytes_of(typo@);
        let n = self.typos.len();
        let plen = typo.as_bytes().len();
        let positions = table_positions(&self.suffix_array, typo);
        proof {
            lemma_join_layout(es);
        }
        let mut owners: Vec<usize> = Vec::new();
        let mut found = false;
        let mut best: usize = 0;
        let mut t: usize = 0;
        while t < positions.len()
            invariant
                self.wf(),
                es == corpus_bytes(self@),
                q == bytes_of(typo@),
                plen == q.len(),
                n == es.len(),
                table_text(self.suffix_array) == join_bytes(es),
                join_bytes(es).len() == buffer_len(es),
                q.len() == 0 ==> positions@.len() == 0,
                forall|u: int| 0 <= u < positions@.len() ==> occurs_at(join_bytes(es), q, positions@[u] as int),
                t <= positions@.len(),
                increasing(owners@),
                forall|y: int| 0 <= y < owners@.len() ==> #[trigger] owners@[y] < n,
                forall|x: int| 0 <= x < n && owners@.contains(x as usize) ==> contains_seq(es[x], q),
                forall|u: int, x: int|
                    0 <= u < t && 0 <= x < n && start_of(es, x) <= #[trigger] positions@[u]
                        && positions@[u] + q.len() <= #[trigger] start_of(es, x) + es[x].len() ==> owners@.contains(x as usize),
                found ==> best < n && es[best as int] == q,
                forall|u: int, x: int|
                    0 <= u < t && 0 <= x < n && #[trigger] positions@[u] == #[trigger] start_of(es, x)
                        && q.len() == es[x].len() ==> found && x <= best,
            decreases positions@.len() - t,
        {
            let pos = positions[t] as usize;
            proof {
                if n == 0 {
                    assert(join_bytes(es).len() == 0);
                }
                assert(self.cumulative_starts@[0] as int == start_of(es, 0));
            }
            let i = owner_of(&self.cumulative_starts, pos);
            let start = self.cumulative_starts[i];
            let len = self.typos[i].as_str().as_bytes().len();
            proof {
                assert(start as int == start_of(es, i as int));
                assert(len as int == es[i as int].len());
                lemma_entry_within(es, i as int);
                assert forall|x: int|
                    0 <= x < n && start_of(es, x) <= pos && pos + q.len() <= start_of(es, x) + es[x].len()
                        implies x == i by {
                    if x < i {
                        lemma_start_increasing(es, x, i as int);
                    } else if x > i {
                        if x > i + 1 {
                            lemma_start_increasing(es, i + 1, x);
                        }
                        assert(self.cumulative_starts@[i + 1] as int == start_of(es, i + 1));
                    }
                }
            }
            if pos + plen <= start + len {
                proof {
                    lemma_occurrence_in_entry(es, q, i as int, pos - start);
                }
                let ghost pre = owners@;
                insert_sorted(&mut owners, i);
                proof {
                    assert forall|y: int| 0 <= y < owners@.len() implies #[trigger] owners@[y] < n by {
                        assert(owners@.contains(owners@[y]));
                        if pre.contains(owners@[y]) {
                            let k = choose|k: int| 0 <= k < pre.len() && pre[k] == owners@[y];
                        }
                    }
                }
                if pos == start && plen == len {
                    proof {
                        assert(es[i as int] =~= es[i as int].subrange(0, len as int));
                    }
                    if !found || best < i {
                        best = i;
                    }
                    found = true;
                }
            }
            t += 1;
        }
        proof {
            assert forall|x: int| 0 <= x < n && contains_seq(es[x], q) implies owners@.contains(x as usize) by {
                let k = choose|k: int| occurs_at(es[x], q, k);
                lemma_occurrence_in_entry(es, q, x, k);
                lemma_entry_within(es, x);
                assert(positions@.contains((start_of(es, x) + k) as u32));
                let u = choose|u: int| 0 <= u < positions@.len() && positions@[u] == (start_of(es, x) + k) as u32;
                assert(start_of(es, x) <= positions@[u]);
            }
            assert forall|x: int| 0 <= x < n && es[x] == q implies found && x <= best by {
                assert(es[x].subrange(0, q.len() as int) =~= q);
                assert(occurs_at(es[x], q, 0));
                lemma_occurrence_in_entry(es, q, x, 0);
                lemma_entry_within(es, x);
                assert(positions@.contains(start_of(es, x) as u32));
                let u = choose|u: int| 0 <= u < positions@.len() && positions@[u] == start_of(es, x) as u32;
                assert(positions@[u] == start_of(es, x));
            }
        }
        if found {
            (owners, Some(best))
        } else {
            (owners, None)
        }
    }

    /// Marks every entry, as each contains the empty pattern, and finds the
    /// last empty entry.
    fn mark_all(&self) -> (r: (Vec<bool>, Option<usize>))
        ensures
            r.0@.len() == self@.len(),
            forall|x: int| 0 <= x < self@.len() ==> #[trigger] r.0@[x],
            r.1 matches Some(s) ==> s < self@.len() && corpus_bytes(self@)[s as int].len() == 0,
            forall|x: int|
                0 <= x < self@.len() && (#[trigger] corpus_bytes(self@)[x]).len() == 0
                    ==> (r.1 matches Some(s) && x <= s),
    {
        let ghost es = corpus_bytes(self@);
        let n = self.typos.len();
        let mut marks: Vec<bool> = Vec::new();
        let mut own: Option<usize> = None;
        let mut x: usize = 0;
        while x < n
            invariant
                n == es.len(),
                es == corpus_bytes(self@),
                x <= n,
                marks@.len() == x,
                forall|y: int| 0 <= y < x ==> #[trigger] marks@[y],
                own matches Some(s) ==> s < x && es[s as int].len() == 0,
                forall|y: int| 0 <= y < x && (#[trigger] es[y]).len() == 0 ==> (own matches Some(s) && y <= s),
            decreases n - x,
        {
            marks.push(true);
            let b = self.typos[x].as_str().as_bytes();
            assert(b@ == es[x as int]);
            if b.len() == 0 {
                own = Some(x);
            }
            x += 1;
        }
        (marks, own)
    }

    /// The conflicts of a non-empty `typo`: the entries found through the
    /// suffix table, less the pattern's own.
    fn conflicts_of_pattern(&self, typo: &str) -> (r: Vec<usize>)
        requires
            self.wf(),
            bytes_of(typo@).len() > 0,
        ensures
            r@ == conflicts(corpus_bytes(self@), bytes_of(typo@)),
    {
        let ghost es = corpus_bytes(self@);
        let ghost q = bytes_of(typo@);
        let n = self.typos.len();
        let (owners, own) = self.matching_entries(typo);
        proof {
            lemma_last_index_of(es, q);
            let l = last_index_of(es, q);
            if l >= 0 {
                assert(es[l] == q);
            }
        }
        let mut result: Vec<usize> = Vec::new();
        let mut i: usize = 0;
        while i < owners.len()
            invariant
                i <= owners@.len(),
                increasing(owners@),
                increasing(result@),
                forall|y: int| 0 <= y < result@.len() ==> #[trigger] result@[y] < n,
                i < owners@.len() ==> forall|y: int| 0 <= y < result@.len() ==> #[trigger] result@[y] < owners@[i as int],
                forall|y: int| 0 <= y < owners@.len() ==> #[trigger] owners@[y] < n,
                forall|x: usize|
                    result@.contains(x) <==> (owners@.subrange(0, i as int).contains(x) && own != Some(x)),
            decreases owners@.len() - i,
        {
            let o = owners[i];
            let ghost before = result@;
            if own != Some(o) {
                result.push(o);
            }
            proof {
                let s0 = owners@.subrange(0, i as int);
                let s1 = owners@.subrange(0, i + 1);
                assert forall|x: usize| result@.contains(x) <==> (s1.contains(x) && own != Some(x)) by {
                    if s1.contains(x) {
                        let k = choose|k: int| 0 <= k < s1.len() && s1[k] == x;
                        if k < i {
                            assert(s0[k] == x);
                        }
                    }
                    if s0.contains(x) {
                        let k = choose|k: int| 0 <= k < s0.len() && s0[k] == x;
                        assert(s1[k] == x);
                    }
                    assert(s1[i as int] == o);
                    if result@.contains(x) {
                        let k = choose|k: int| 0 <= k < result@.len() && result@[k] == x;
                        if k < before.len() {
                            assert(before[k] == x);
                        }
                    }
                    if before.contains(x) {
                        let k = choose|k: int| 0 <= k < before.len() && before[k] == x;
                        assert(result@[k] == x);
                    }
                    if x == o && own != Some(o) {
                        assert(result@[before.len() as int] == x);
                    }
                }
            }
            i += 1;
            proof {
                if i < owners@.len() {
                    assert(owners@[i - 1] < owners@[i as int]);
                }
            }
        }
        proof {
            assert(owners@.subrange(0, owners@.len() as int) =~= owners@);
            let l = last_index_of(es, q);
            assert forall|j: int| 0 <= j < n implies (result@.contains(j as usize) <==> is_conflict(es, q, j)) by {
                assert(owners@.contains(j as usize) <==> contains_seq(es[j], q));
                if own == Some(j as usize) {
                    assert(es[j] == q);
                    assert(j <= l);
                }
                if j == l {
                    assert(es[j] == q);
                    assert(own is Some);
                    let s = own->Some_0;
                    assert(es[s as int] == q);
                    assert(s <= l);
                }
            }
            lemma_sorted_conflicts(es, q, result@, n as int);
        }
        result
    }

    /// The entries that contain `typo` as a substring, in ascending order and
    /// each once; for an empty `typo`, every entry. Where `typo` equals an
    /// entry, the last such entry is left out as the pattern's own.
    pub fn find_substring_conflicts(&self, typo: &str) -> (r: Vec<usize>)
        requires
            self.wf(),
        ensures
            r@ == conflicts(corpus_bytes(self@), bytes_of(typo@)),
    {
        let ghost es = corpus_bytes(self@);
        let ghost q = bytes_of(typo@);
        let n = self.typos.len();
        if typo.as_bytes().len() > 0 {
            return self.conflicts_of_pattern(typo);
        }
        let (marks, own) = self.mark_all();
        proof {
            assert forall|x: int| 0 <= x < n implies contains_seq(es[x], q) by {
                assert(occurs_at(es[x], q, 0)) by {
                    assert(es[x].subrange(0, 0) =~= q);
                }
            }
            assert forall|x: int| 0 <= x < n implies (es[x] == q <==> es[x].len() == 0) by {
                if es[x].len() == 0 {
                    assert(es[x] =~= q);
                }
            }
            lemma_last_index_of(es, q);
            let l = last_index_of(es, q);
            if l >= 0 {
                assert(es[l] == q);
            }
        }
        let mut result: Vec<usize> = Vec::new();
        let mut j: usize = 0;
        while j < n
            invariant
                j <= n,
                n == es.len(),
                marks@.len() == n,
                result@ == conflicts_upto(es, q, j as int),
                forall|x: int| 0 <= x < n ==> (#[trigger] marks@[x] <==> contains_seq(es[x], q)),
                own is Some <==> last_index_of(es, q) >= 0,
                own matches Some(s) ==> s == last_index_of(es, q),
            decreases n - j,
        {
            if marks[j] && own != Some(j) {
                result.push(j);
            }
            j += 1;
        }
        result
    }
}

} // verus!
