use vstd::prelude::*;

pub mod binary;
pub mod binary_mut;
pub mod binary_ref;
pub mod bt;

verus! {

/// The bytes `src[from..to]`, copied into a new vector.
pub fn copy_range(src: &[u8], from: usize, to: usize) -> (res: Vec<u8>)
    requires
        from <= to <= src@.len(),
    ensures
        res@ == src@.subrange(from as int, to as int),
{
    let mut res: Vec<u8> = Vec::with_capacity(to - from);
    let mut i = from;
    while i < to
        invariant
            from <= i <= to,
            to <= src@.len(),
            res@ == src@.subrange(from as int, i as int),
        decreases to - i,
    {
        res.push(src[i]);
        i = i + 1;
        proof {
            assert(res@ =~= src@.subrange(from as int, i as int));
        }
    }
    res
}

} // verus!
