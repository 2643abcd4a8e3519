use argminmax::ArgMinMax;
use vstd::prelude::*;

use crate::chunks::concat_of;
use crate::chunks::lemma_concat_take_prefix;
use crate::chunks::lemma_concat_take_succ;
use crate::sortedness::Sortedness;

verus! {

/// `i` is the first position of the minimum of `vals`.
pub open spec fn is_first_min(vals: Seq<i64>, i: int) -> bool {
    &&& 0 <= i < vals.len()
    &&& forall|j: int| 0 <= j < vals.len() ==> vals[i] <= vals[j]
    &&& forall|j: int| 0 <= j < i ==> vals[i] < vals[j]
}

/// `i` is the first position of the maximum of `vals`.
pub open spec fn is_first_max(vals: Seq<i64>, i: int) -> bool {
    &&& 0 <= i < vals.len()
    &&& forall|j: int| 0 <= j < vals.len() ==> vals[i] >= vals[j]
    &&& forall|j: int| 0 <= j < i ==> vals[i] > vals[j]
}

/// Relies on `argminmax::ArgMinMax::argmin` for `&[i64]`: the vectorized
/// kernel returns the index of the first occurrence of the minimum and
/// asserts that its input is not empty.
#[verifier::external_body]
fn slice_argmin(vals: &[i64]) -> (r: usize)
    requires
        vals@.len() > 0,
    ensures
        is_first_min(vals@, r as int),
{
    vals.argmin()
}

/// Relies on `argminmax::ArgMinMax::argmax` for `&[i64]`: the vectorized
/// kernel returns the index of the first occurrence of the maximum and
/// asserts that its input is not empty.
#[verifier::external_body]
fn slice_argmax(vals: &[i64]) -> (r: usize)
    requires
        vals@.len() > 0,
    ensures
        is_first_max(vals@, r as int),
{
    vals.argmax()
}

/// A numeric sequence: ordered chunks of raw values, the producer's null
/// count, and the sortedness hint. The vectorized kernels never consult a
/// validity bitmap, so only the null count is carried: where it is not
/// zero, the raw value stored at a null position takes part in the scan
/// like any other, and the answer is only guaranteed for null-free data.
pub struct NumericSeq {
    pub chunks: Vec<Vec<i64>>,
    pub null_count: usize,
    pub sorted: Sortedness,
}

impl NumericSeq {
    pub open spec fn chunk_views(&self) -> Seq<Seq<i64>> {
        self.chunks@.map_values(|c: Vec<i64>| c@)
    }

    /// The raw values of all chunks, laid end to end.
    pub open spec fn values(&self) -> Seq<i64> {
        concat_of(self.chunk_views())
    }

    pub open spec fn wf(&self) -> bool {
        &&& self.values().len() <= usize::MAX
        &&& self.null_count <= self.values().len()
    }

    /// Total number of values over all chunks.
    pub fn len(&self) -> (r: usize)
        requires
            self.wf(),
        ensures
            r == self.values().len(),
    {
        let views = Ghost(self.chunk_views());
        let mut total: usize = 0;
        let mut k: usize = 0;
        while k < self.chunks.len()
            invariant
                self.wf(),
                views@ == self.chunk_views(),
                k <= self.chunks@.len(),
                total == concat_of(views@.take(k as int)).len(),
            decreases self.chunks@.len() - k,
        {
            proof {
                lemma_concat_take_succ(views@, k as int);
                lemma_concat_take_prefix(views@, k as int + 1);
            }
            total = total + self.chunks[k].len();
            k = k + 1;
        }
        proof {
            assert(views@.take(self.chunks@.len() as int) =~= views@);
        }
        total
    }
}

/// What the numeric argmin answers for a sequence whose values concatenate
/// to `vals`: the boundary index when the sortedness flag is known (the
/// flag is only trusted over a non-empty sequence), else the first position
/// of the minimum, or no result when even the chunks together hold nothing.
pub open spec fn arg_min_numeric_res(vals: Seq<i64>, sorted: Sortedness, r: Option<usize>) -> bool {
    match sorted {
        Sortedness::Ascending => r == Some(0usize),
        Sortedness::Descending => r == Some((vals.len() - 1) as usize),
        Sortedness::Unknown => if vals.len() == 0 {
            r is None
        } else {
            r matches Some(g) && is_first_min(vals, g as int)
        },
    }
}

/// The mirror image of [`arg_min_numeric_res`] for the maximum.
pub open spec fn arg_max_numeric_res(vals: Seq<i64>, sorted: Sortedness, r: Option<usize>) -> bool {
    match sorted {
        Sortedness::Ascending => r == Some((vals.len() - 1) as usize),
        Sortedness::Descending => r == Some(0usize),
        Sortedness::Unknown => if vals.len() == 0 {
            r is None
        } else {
            r matches Some(g) && is_first_max(vals, g as int)
        },
    }
}

/// Argmin over one contiguous slice spanning the whole sequence: the fast
/// path taken when there are no nulls and a single chunk. The kernel
/// requires a non-empty slice, so callers short-circuit empty input first.
pub fn arg_min_numeric_slice(vals: &[i64], is_sorted: Sortedness) -> (r: Option<usize>)
    requires
        vals@.len() > 0,
    ensures
        arg_min_numeric_res(vals@, is_sorted, r),
{
    match is_sorted {
        Sortedness::Ascending => Some(0),
        Sortedness::Descending => Some(vals.len() - 1),
        Sortedness::Unknown => Some(slice_argmin(vals)),
    }
}

/// Argmax over one contiguous slice spanning the whole sequence.
pub fn arg_max_numeric_slice(vals: &[i64], is_sorted: Sortedness) -> (r: Option<usize>)
    requires
        vals@.len() > 0,
    ensures
        arg_max_numeric_res(vals@, is_sorted, r),
{
    match is_sorted {
        Sortedness::Ascending => Some(vals.len() - 1),
        Sortedness::Descending => Some(0),
        Sortedness::Unknown => Some(slice_argmax(vals)),
    }
}

/// Argmin over a chunked numeric sequence: the sortedness fast path, else a
/// left-to-right fold that reduces each non-empty chunk with the vectorized
/// kernel and keeps the running best, replacing it only on a strict
/// improvement so that the first occurrence wins, while the running offset
/// advances by every chunk's length.
pub fn arg_min_numeric(ca: &NumericSeq) -> (r: Option<usize>)
    requires
        ca.wf(),
        !(ca.sorted is Unknown) ==> ca.values().len() > 0,
    ensures
        arg_min_numeric_res(ca.values(), ca.sorted, r),
{
    match ca.sorted {
        Sortedness::Ascending => Some(0),
        Sortedness::Descending => Some(ca.len() - 1),
        Sortedness::Unknown => {
            let views = Ghost(ca.chunk_views());
            let mut best_idx: usize = 0;
            let mut best_val: i64 = 0;
            let mut have: bool = false;
            let mut off: usize = 0;
            let mut k: usize = 0;
            while k < ca.chunks.len()
                invariant
                    ca.wf(),
                    views@ == ca.chunk_views(),
                    k <= ca.chunks@.len(),
                    off == concat_of(views@.take(k as int)).len(),
                    have == (off > 0),
                    have ==> is_first_min(concat_of(views@.take(k as int)), best_idx as int),
                    have ==> best_val == concat_of(views@.take(k as int))[best_idx as int],
                decreases ca.chunks@.len() - k,
            {
                let ghost pre = concat_of(views@.take(k as int));
                let ghost post = concat_of(views@.take(k as int + 1));
                proof {
                    lemma_concat_take_succ(views@, k as int);
                    lemma_concat_take_prefix(views@, k as int + 1);
                }
                let chunk = &ca.chunks[k];
                if chunk.len() > 0 {
                    let local = slice_argmin(chunk.as_slice());
                    let v = chunk[local];
                    proof {
                        assert(post[off + local] == chunk@[local as int]);
                        assert forall|j: int| 0 <= j < post.len() implies {
                            &&& off <= j ==> post[j] == chunk@[j - off]
                            &&& j < off ==> post[j] == pre[j]
                        } by {
                            if off <= j {
                                assert((pre + chunk@)[j] == chunk@[j - off]);
                            } else {
                                assert((pre + chunk@)[j] == pre[j]);
                            }
                        }
                    }
                    if !have {
                        have = true;
                        best_idx = local;
                        best_val = v;
                    } else if v < best_val {
                        best_idx = off + local;
                        best_val = v;
                    }
                    off = off + chunk.len();
                } else {
                    proof {
                        assert(pre + chunk@ =~= pre);
                    }
                }
                k = k + 1;
            }
            proof {
                assert(views@.take(ca.chunks@.len() as int) =~= views@);
            }
            if have {
                Some(best_idx)
            } else {
                None
            }
        },
    }
}

/// How the values are split into chunks does not matter: two sequences
/// whose chunks concatenate to the same values and that carry the same
/// flag admit exactly the same answers, so the cross-chunk fold and the
/// single contiguous-slice fast path agree wherever both apply.
pub proof fn lemma_chunking_irrelevant(a: NumericSeq, b: NumericSeq, r: Option<usize>)
    requires
        a.values() == b.values(),
        a.sorted == b.sorted,
    ensures
        arg_min_numeric_res(a.values(), a.sorted, r) == arg_min_numeric_res(
            b.values(),
            b.sorted,
            r,
        ),
        arg_max_numeric_res(a.values(), a.sorted, r) == arg_max_numeric_res(
            b.values(),
            b.sorted,
            r,
        ),
{
}

/// Argmax over a chunked numeric sequence, the mirror image of
/// [`arg_min_numeric`].
pub fn arg_max_numeric(ca: &NumericSeq) -> (r: Option<usize>)
    requires
        ca.wf(),
        !(ca.sorted is Unknown) ==> ca.values().len() > 0,
    ensures
        arg_max_numeric_res(ca.values(), ca.sorted, r),
{
    match ca.sorted {
        Sortedness::Ascending => Some(ca.len() - 1),
        Sortedness::Descending => Some(0),
        Sortedness::Unknown => {
            let views = Ghost(ca.chunk_views());
            let mut best_idx: usize = 0;
            let mut best_val: i64 = 0;
            let mut have: bool = false;
            let mut off: usize = 0;
            let mut k: usize = 0;
            while k < ca.chunks.len()
                invariant
                    ca.wf(),
                    views@ == ca.chunk_views(),
                    k <= ca.chunks@.len(),
                    off == concat_of(views@.take(k as int)).len(),
                    have == (off > 0),
                    have ==> is_first_max(concat_of(views@.take(k as int)), best_idx as int),
                    have ==> best_val == concat_of(views@.take(k as int))[best_idx as int],
                decreases ca.chunks@.len() - k,
            {
                let ghost pre = concat_of(views@.take(k as int));
                let ghost post = concat_of(views@.take(k as int + 1));
                proof {
                    lemma_concat_take_succ(views@, k as int);
                    lemma_concat_take_prefix(views@, k as int + 1);
                }
                let chunk = &ca.chunks[k];
                if chunk.len() > 0 {
                    let local = slice_argmax(chunk.as_slice());
                    let v = chunk[local];
                    proof {
                        assert(post[off + local] == chunk@[local as int]);
                        assert forall|j: int| 0 <= j < post.len() implies {
                            &&& off <= j ==> post[j] == chunk@[j - off]
                            &&& j < off ==> post[j] == pre[j]
                        } by {
                            if off <= j {
                                assert((pre + chunk@)[j] == chunk@[j - off]);
                            } else {
                                assert((pre + chunk@)[j] == pre[j]);
                            }
                        }
                    }
                    if !have {
                        have = true;
                        best_idx = local;
                        best_val = v;
                    } else if v > best_val {
                        best_idx = off + local;
                        best_val = v;
                    }
                    off = off + chunk.len();
                } else {
                    proof {
                        assert(pre + chunk@ =~= pre);
                    }
                }
                k = k + 1;
            }
            proof {
                assert(views@.take(ca.chunks@.len() as int) =~= views@);
            }
            if have {
                Some(best_idx)
            } else {
                None
            }
        },
    }
}

} // verus!
