//! Searching and copying byte strings.

use vstd::prelude::*;

verus! {

/// The byte that ends a header and a tree entry's name.
pub const NUL: u8 = 0;

/// The byte that ends a line.
pub const LF: u8 = 10;

/// The byte between an entry's mode and its name, and between the words of a header.
pub const SP: u8 = 32;

/// The first index in `[from, end)` at which `s` holds `b`, or `end` if there is none.
pub open spec fn find_byte(s: Seq<u8>, b: u8, from: int, end: int) -> int
    decreases end - from,
{
    if from >= end {
        end
    } else if s[from] == b {
        from
    } else {
        find_byte(s, b, from + 1, end)
    }
}

/// `find_byte` returns an index in range, nothing before it is `b`, and unless it is `end`
/// the byte at it is `b`.
pub proof fn lemma_find_byte(s: Seq<u8>, b: u8, from: int, end: int)
    requires
        from <= end,
    ensures
        from <= find_byte(s, b, from, end) <= end,
        forall|j: int| from <= j < find_byte(s, b, from, end) ==> s[j] != b,
        find_byte(s, b, from, end) < end ==> s[find_byte(s, b, from, end)] == b,
    decreases end - from,
{
    if from < end && s[from] != b {
        lemma_find_byte(s, b, from + 1, end);
    }
}

/// An index with nothing equal to `b` before it, which holds `b` or is `end`, is what
/// `find_byte` returns.
pub proof fn lemma_find_byte_is(s: Seq<u8>, b: u8, from: int, end: int, p: int)
    requires
        from <= p <= end,
        forall|j: int| from <= j < p ==> s[j] != b,
        p < end ==> s[p] == b,
    ensures
        find_byte(s, b, from, end) == p,
    decreases end - from,
{
    if from < p {
        lemma_find_byte_is(s, b, from + 1, end, p);
    }
}

/// Finds the first `b` in `s[from..end]`.
pub fn find(s: &[u8], b: u8, from: usize, end: usize) -> (p: usize)
    requires
        from <= end <= s.len(),
    ensures
        p == find_byte(s@, b, from as int, end as int),
        from <= p <= end,
{
    let mut i: usize = from;
    while i < end && s[i] != b
        invariant
            from <= i <= end <= s.len(),
            forall|j: int| from <= j < i ==> s@[j] != b,
        decreases end - i,
    {
        i += 1;
    }
    proof {
        lemma_find_byte_is(s@, b, from as int, end as int, i as int);
    }
    i
}

/// Appends `src` to `out`.
pub fn append(out: &mut Vec<u8>, src: &[u8])
    ensures
        final(out)@ == old(out)@ + src@,
{
    let mut i: usize = 0;
    while i < src.len()
        invariant
            i <= src.len(),
            out@ == old(out)@ + src@.take(i as int),
        decreases src.len() - i,
    {
        out.push(src[i]);
        i += 1;
    }
    assert(src@.take(src.len() as int) == src@);
}

/// Copies `src[from..end]`.
pub fn copy_range(src: &[u8], from: usize, end: usize) -> (out: Vec<u8>)
    requires
        from <= end <= src.len(),
    ensures
        out@ == src@.subrange(from as int, end as int),
{
    let mut out: Vec<u8> = Vec::new();
    let mut i: usize = from;
    while i < end
        invariant
            from <= i <= end <= src.len(),
            out@ == src@.subrange(from as int, i as int),
        decreases end - i,
    {
        out.push(src[i]);
        i += 1;
    }
    out
}

/// Whether `a` and `b` hold the same bytes.
pub fn same_bytes(a: &[u8], b: &[u8]) -> (r: bool)
    ensures
        r == (a@ == b@),
{
    if a.len() != b.len() {
        return false;
    }
    let mut i: usize = 0;
    while i < a.len()
        invariant
            i <= a.len(),
            a.len() == b.len(),
            a@.take(i as int) == b@.take(i as int),
        decreases a.len() - i,
    {
        if a[i] != b[i] {
            return false;
        }
        assert(a@.take(i + 1) == a@.take(i as int).push(a@[i as int]));
        assert(b@.take(i + 1) == b@.take(i as int).push(b@[i as int]));
        i += 1;
    }
    assert(a@.take(a.len() as int) == a@);
    assert(b@.take(b.len() as int) == b@);
    true
}

} // verus!
