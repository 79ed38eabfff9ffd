use vstd::prelude::*;

verus! {

/// Appends every byte of `src` to `dst`.
pub fn append_bytes(dst: &mut Vec<u8>, src: &[u8])
    ensures
        final(dst)@ == old(dst)@ + src@,
{
    let ghost start = dst@;
    let mut i: usize = 0;
    while i < src.len()
        invariant
            i <= src.len(),
            dst@ == start + src@.take(i as int),
        decreases src.len() - i,
    {
        dst.push(src[i]);
        i += 1;
        assert(dst@ =~= start + src@.take(i as int));
    }
    assert(src@.take(src.len() as int) =~= src@);
}

/// A fresh vector holding `src[from..to]`.
pub fn copy_range(src: &[u8], from: usize, to: usize) -> (out: Vec<u8>)
    requires
        from <= to <= src.len(),
    ensures
        out@ == src@.subrange(from as int, to as int),
{
    let mut out: Vec<u8> = Vec::new();
    let mut i: usize = from;
    while i < to
        invariant
            from <= i <= to <= src.len(),
            out@ == src@.subrange(from as int, i as int),
        decreases to - i,
    {
        out.push(src[i]);
        i += 1;
        assert(out@ =~= src@.subrange(from as int, i as int));
    }
    out
}

/// Does `pattern` occur in `data` starting at offset `at`?
pub open spec fn occurs_at(data: Seq<u8>, pattern: Seq<u8>, at: int) -> bool {
    &&& 0 <= at
    &&& at + pattern.len() <= data.len()
    &&& data.subrange(at, at + pattern.len()) == pattern
}

/// Compares `data[at..at + pattern.len()]` with `pattern`.
pub fn window_equals(data: &[u8], at: usize, pattern: &[u8]) -> (r: bool)
    requires
        at + pattern.len() <= data.len(),
    ensures
        r == occurs_at(data@, pattern@, at as int),
{
    let mut k: usize = 0;
    while k < pattern.len()
        invariant
            k <= pattern.len(),
            at + pattern.len() <= data.len(),
            forall|j: int| 0 <= j < k ==> data@[at + j] == pattern@[j],
        decreases pattern.len() - k,
    {
        if data[at + k] != pattern[k] {
            assert(data@.subrange(at as int, at + pattern.len())[k as int] != pattern@[k as int]);
            return false;
        }
        k += 1;
    }
    assert(data@.subrange(at as int, at + pattern.len()) =~= pattern@);
    true
}

/// The byte views of a sequence of byte vectors.
pub open spec fn chunks_view(v: Seq<Vec<u8>>) -> Seq<Seq<u8>> {
    v.map_values(|c: Vec<u8>| c@)
}

} // verus!
