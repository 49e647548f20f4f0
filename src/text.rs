use vstd::prelude::*;

verus! {

/// `p` occurs in `w` starting at offset `k`.
pub open spec fn occurs_at<T>(w: Seq<T>, p: Seq<T>, k: int) -> bool {
    0 <= k && k + p.len() <= w.len() && w.subrange(k, k + p.len()) == p
}

/// `p` is a substring of `w`.
pub open spec fn contains_seq<T>(w: Seq<T>, p: Seq<T>) -> bool {
    exists|k: int| occurs_at(w, p, k)
}

/// The UTF-8 bytes of a string.
pub open spec fn bytes_of(s: Seq<char>) -> Seq<u8> {
    vstd::utf8::encode_utf8(s)
}

/// The characters of `s`, in order.
pub(crate) fn chars_of(s: &str) -> (r: Vec<char>)
    ensures
        r@ == s@,
{
    broadcast use vstd::string::axiom_spec_iter;
    let mut r: Vec<char> = Vec::new();
    for c in it: s.chars()
        invariant
            it.seq() == s@,
            r@ == it.seq().subrange(0, it.index() as int),
    {
        r.push(c);
    }
    r
}

} // verus!
