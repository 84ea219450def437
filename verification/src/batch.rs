//! Bounded concurrency across independent blocks: how many workers, and which blocks each takes.
use crate::error::FormatError;
use vstd::prelude::*;

verus! {

/// One worker by default; additional workers trade CPU and memory for throughput.
#[derive(Clone, Copy, Debug)]
pub struct Options {
    pub workers: usize,
}

impl Default for Options {
    fn default() -> (r: Options)
        ensures
            r.workers == 1,
    {
        Options { workers: 1 }
    }
}

/// The blocks per worker: the inputs split as evenly as the workers allow, rounded up.
pub open spec fn chunk_size(len: nat, workers: nat) -> nat {
    let w: int = if workers < len { workers as int } else { len as int };
    ((len + w - 1) / w) as nat
}

/// The consecutive ranges of `size` inputs (the last possibly shorter) that cover `0..len`.
pub open spec fn chunk_ranges(len: nat, size: nat) -> Seq<(usize, usize)> {
    Seq::new(((len + size - 1) / (size as int)) as nat, |i: int| (
        (i * size) as usize,
        (if (i + 1) * size < len { (i + 1) * size } else { len as int }) as usize,
    ))
}

impl Options {
    /// Checks the worker count and splits `len` inputs into the ranges that the workers take,
    /// in input order.
    pub fn plan(self, len: usize) -> (r: Result<Vec<(usize, usize)>, FormatError>)
        ensures
            !(1 <= self.workers <= 64) ==> r == Err::<Vec<(usize, usize)>, FormatError>(FormatError::InvalidWorkers),
            (1 <= self.workers <= 64 && len == 0) ==> (r matches Ok(v) && v@.len() == 0),
            (1 <= self.workers <= 64 && len > 0) ==> (r matches Ok(v) && v@ == chunk_ranges(len as nat,
                chunk_size(len as nat, self.workers as nat))),
            r matches Ok(v) ==> {
                &&& forall|i: int| 0 <= i < v@.len() ==> #[trigger] v@[i].0 < v@[i].1
                &&& forall|i: int| 0 < i < v@.len() ==> #[trigger] v@[i].0 == v@[i - 1].1
                &&& v@.len() > 0 ==> v@[0].0 == 0 && v@.last().1 == len
                &&& v@.len() <= self.workers
            },
    {
        if !(1 <= self.workers && self.workers <= 64) {
            return Err(FormatError::InvalidWorkers);
        }
        let mut ranges: Vec<(usize, usize)> = Vec::new();
        if len == 0 {
            return Ok(ranges);
        }
        let workers = if self.workers < len { self.workers } else { len };
        let size = (len - 1) / workers + 1;
        assert(size == chunk_size(len as nat, self.workers as nat)) by (nonlinear_arith)
            requires
                workers >= 1,
                len >= 1,
                size == (len - 1) / (workers as int) + 1,
                workers == (if self.workers < len { self.workers } else { len }),
        ;
        let ghost count = ((len + size - 1) / (size as int)) as nat;
        assert(count <= workers) by (nonlinear_arith)
            requires
                workers >= 1,
                len >= 1,
                size == (len - 1) / (workers as int) + 1,
                count == (len + size - 1) / (size as int),
        ;
        assert(1 <= count <= len) by (nonlinear_arith)
            requires
                1 <= size <= len,
                count == (len + size - 1) / (size as int),
        ;
        let mut start: usize = 0;
        let mut i: usize = 0;
        while start < len
            invariant
                1 <= size <= len,
                1 <= count <= len,
                count == (len + size - 1) / (size as int),
                start <= len,
                i <= count,
                start < len ==> start == i * size && i < count,
                start == len ==> i == count,
                ranges@ =~= chunk_ranges(len as nat, size as nat).take(i as int),
            decreases len - start,
        {
            let end = if len - start > size { start + size } else { len };
            proof {
                assert((i + 1) * size == start + size) by (nonlinear_arith)
                    requires
                        start == i * size,
                ;
                if end < len {
                    assert(i + 1 < count) by (nonlinear_arith)
                        requires
                            start + size < len,
                            start == i * size,
                            count == (len + size - 1) / (size as int),
                            size >= 1,
                    ;
                } else {
                    assert(i + 1 == count) by (nonlinear_arith)
                        requires
                            start + size >= len,
                            start < len,
                            start == i * size,
                            count == (len + size - 1) / (size as int),
                            size >= 1,
                    ;
                }
            }
            ranges.push((start, end));
            start = end;
            i = i + 1;
        }
        proof {
            assert(chunk_ranges(len as nat, size as nat).take(i as int) =~= chunk_ranges(len as nat, size as nat));
            assert forall|j: int| 0 <= j < ranges@.len() implies #[trigger] ranges@[j].0 < ranges@[j].1 by {
                assert(j * size < len) by (nonlinear_arith)
                    requires
                        0 <= j < count,
                        count == (len + size - 1) / (size as int),
                        size >= 1,
                ;
                assert((j + 1) * size == j * size + size) by (nonlinear_arith);
            }
            assert forall|j: int| 0 < j < ranges@.len() implies #[trigger] ranges@[j].0 == ranges@[j - 1].1 by {
                assert((j - 1 + 1) * size == j * size);
                assert(j * size < len) by (nonlinear_arith)
                    requires
                        0 <= j < count,
                        count == (len + size - 1) / (size as int),
                        size >= 1,
                ;
            }
            assert((count - 1) * size < len) by (nonlinear_arith)
                requires
                    count >= 1,
                    count == (len + size - 1) / (size as int),
                    size >= 1,
            ;
            assert(count * size >= len) by (nonlinear_arith)
                requires
                    count == (len + size - 1) / (size as int),
                    size >= 1,
            ;
        }
        Ok(ranges)
    }
}

} // verus!
