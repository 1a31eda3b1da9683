//! The byte-range copier: the primitive used wherever a contiguous slice
//! of the archive must be relocated without reinterpretation.
use vstd::prelude::*;

verus! {

/// Appends `count` bytes of `src`, starting at `start`, to `dst`.
pub fn copy_bytes(src: &Vec<u8>, start: usize, count: usize, dst: &mut Vec<u8>)
    requires
        start + count <= src@.len(),
    ensures
        final(dst)@ == old(dst)@ + src@.subrange(start as int, (start + count) as int),
{
    let n: usize = src.len();
    let mut i: usize = 0;
    while i < count
        invariant
            start + count <= n,
            n == src@.len(),
            i <= count,
            dst@ == old(dst)@ + src@.subrange(start as int, (start + i) as int),
        decreases count - i,
    {
        dst.push(src[start + i]);
        i = i + 1;
        assert(dst@ == old(dst)@ + src@.subrange(start as int, (start + i) as int));
    }
    assert(dst@ =~= old(dst)@ + src@.subrange(start as int, (start + count) as int));
}

} // verus!
