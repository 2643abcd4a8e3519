//! Index-of-extremum reduction over chunked, nullable, possibly pre-sorted
//! columnar sequences.
//!
//! A sequence is a logically single column of values of one physical kind
//! (numeric, boolean or text), physically split into one or more chunks and
//! possibly carrying null entries and a producer-asserted sortedness hint.
//! [`ArgAgg::arg_min`] and [`ArgAgg::arg_max`] return the global zero-based
//! index of the extremum, reconciling chunk-local indices, the type-specific
//! null ordering, the sortedness fast path, and the specialised bit-level
//! and contiguous-slice scan paths.

pub mod bitmap;
pub mod boolean;
pub mod chunks;
pub mod numeric;
pub mod sortedness;
pub mod text;

use vstd::prelude::*;

use crate::boolean::arg_max_bool;
use crate::boolean::arg_max_bool_res;
use crate::boolean::arg_min_bool;
use crate::boolean::arg_min_bool_res;
use crate::boolean::BooleanSeq;
use crate::chunks::lemma_concat_singleton;
use crate::numeric::arg_max_numeric;
use crate::numeric::arg_max_numeric_res;
use crate::numeric::arg_max_numeric_slice;
use crate::numeric::arg_min_numeric;
use crate::numeric::arg_min_numeric_res;
use crate::numeric::arg_min_numeric_slice;
use crate::numeric::NumericSeq;
use crate::sortedness::Sortedness;
use crate::text::arg_max_str;
use crate::text::arg_max_str_res;
use crate::text::arg_min_str;
use crate::text::arg_min_str_res;
use crate::text::TextSeq;

verus! {

/// A columnar sequence in its physical representation, tagged with its
/// physical kind. Logical types whose bit layout matches a numeric, boolean
/// or text kind arrive already converted by the storage layer; any other
/// kind is `Other`, for which both reductions answer "no result".
pub enum Sequence {
    Numeric(NumericSeq),
    Boolean(BooleanSeq),
    Text(TextSeq),
    Other,
}

impl Sequence {
    /// The number of elements, chunk boundaries notwithstanding.
    pub open spec fn total_len(&self) -> nat {
        match self {
            Sequence::Numeric(ca) => ca.values().len(),
            Sequence::Boolean(ca) => ca@.len(),
            Sequence::Text(ca) => ca@.len(),
            Sequence::Other => 0,
        }
    }

    /// The producer's sortedness hint.
    pub open spec fn flag(&self) -> Sortedness {
        match self {
            Sequence::Numeric(ca) => ca.sorted,
            Sequence::Boolean(ca) => ca.sorted,
            Sequence::Text(ca) => ca.sorted,
            Sequence::Other => Sortedness::Unknown,
        }
    }
}

/// Argmin / Argmax
pub trait ArgAgg {
    /// The validity constraints the reductions assume of the sequence.
    spec fn wf(&self) -> bool;

    /// Exactly the answers `arg_min` may give.
    spec fn is_arg_min(&self, r: Option<usize>) -> bool;

    /// Exactly the answers `arg_max` may give.
    spec fn is_arg_max(&self, r: Option<usize>) -> bool;

    /// Get the index of the minimal value
    fn arg_min(&self) -> (r: Option<usize>)
        requires
            self.wf(),
        ensures
            self.is_arg_min(r),
    ;

    /// Get the index of the maximal value
    fn arg_max(&self) -> (r: Option<usize>)
        requires
            self.wf(),
        ensures
            self.is_arg_max(r),
    ;
}

impl ArgAgg for Sequence {
    open spec fn wf(&self) -> bool {
        match self {
            Sequence::Numeric(ca) => ca.wf(),
            Sequence::Boolean(ca) => ca.wf(),
            Sequence::Text(_) => true,
            Sequence::Other => true,
        }
    }

    open spec fn is_arg_min(&self, r: Option<usize>) -> bool {
        match self {
            Sequence::Numeric(ca) => if ca.values().len() == 0 {
                r is None
            } else {
                arg_min_numeric_res(ca.values(), ca.sorted, r)
            },
            Sequence::Boolean(ca) => arg_min_bool_res(*ca, r),
            Sequence::Text(ca) => arg_min_str_res(*ca, r),
            Sequence::Other => r is None,
        }
    }

    open spec fn is_arg_max(&self, r: Option<usize>) -> bool {
        match self {
            Sequence::Numeric(ca) => if ca.values().len() == 0 {
                r is None
            } else {
                arg_max_numeric_res(ca.values(), ca.sorted, r)
            },
            Sequence::Boolean(ca) => arg_max_bool_res(*ca, r),
            Sequence::Text(ca) => arg_max_str_res(*ca, r),
            Sequence::Other => r is None,
        }
    }

    fn arg_min(&self) -> (r: Option<usize>) {
        match self {
            Sequence::Text(ca) => arg_min_str(ca),
            Sequence::Boolean(ca) => arg_min_bool(ca),
            Sequence::Numeric(ca) => {
                let n = ca.len();
                if n == 0 {
                    // the vectorized kernel assumes non-empty input
                    None
                } else if ca.null_count == 0 && ca.chunks.len() == 1 {
                    proof {
                        lemma_concat_singleton(ca.chunk_views());
                    }
                    arg_min_numeric_slice(ca.chunks[0].as_slice(), ca.sorted)
                } else {
                    arg_min_numeric(ca)
                }
            },
            Sequence::Other => None,
        }
    }

    fn arg_max(&self) -> (r: Option<usize>) {
        match self {
            Sequence::Text(ca) => arg_max_str(ca),
            Sequence::Boolean(ca) => arg_max_bool(ca),
            Sequence::Numeric(ca) => {
                let n = ca.len();
                if n == 0 {
                    // the vectorized kernel assumes non-empty input
                    None
                } else if ca.null_count == 0 && ca.chunks.len() == 1 {
                    proof {
                        lemma_concat_singleton(ca.chunk_views());
                    }
                    arg_max_numeric_slice(ca.chunks[0].as_slice(), ca.sorted)
                } else {
                    arg_max_numeric(ca)
                }
            },
            Sequence::Other => None,
        }
    }
}

/// An empty numeric, boolean or text sequence has no extremum: both
/// reductions answer "no result".
pub proof fn lemma_empty_no_result(s: Sequence, rmin: Option<usize>, rmax: Option<usize>)
    requires
        s.wf(),
        !(s is Other),
        s.total_len() == 0,
        s.is_arg_min(rmin),
        s.is_arg_max(rmax),
    ensures
        rmin is None,
        rmax is None,
{
}

/// A trusted sortedness flag answers with the boundary index, whatever the
/// contents: ascending puts the minimum first and the maximum last, and
/// descending the mirror image. The numeric and text reducers consult the
/// flag; the boolean reducer's priority of states never does.
pub proof fn lemma_sorted_fast_path(s: Sequence, rmin: Option<usize>, rmax: Option<usize>)
    requires
        s.wf(),
        s matches Sequence::Numeric(_) || s matches Sequence::Text(_),
        s.total_len() > 0,
        s.is_arg_min(rmin),
        s.is_arg_max(rmax),
    ensures
        s.flag() is Ascending ==> rmin == Some(0usize) && rmax == Some(
            (s.total_len() - 1) as usize,
        ),
        s.flag() is Descending ==> rmin == Some((s.total_len() - 1) as usize) && rmax == Some(
            0usize,
        ),
{
}

/// The reductions are deterministic: the contract pins a single argmin
/// answer, so a tie can only resolve to the earliest occurrence it names.
pub proof fn lemma_arg_min_unique(s: Sequence, r1: Option<usize>, r2: Option<usize>)
    requires
        s.wf(),
        s.is_arg_min(r1),
        s.is_arg_min(r2),
    ensures
        r1 == r2,
{
    if let (Some(g1), Some(g2)) = (r1, r2) {
        let i1 = g1 as int;
        let i2 = g2 as int;
        match s {
            Sequence::Numeric(ca) => {
                let vs = ca.values();
                if ca.sorted is Unknown && vs.len() > 0 {
                    if i1 < i2 {
                        assert(vs[i2] < vs[i1]);
                        assert(vs[i1] <= vs[i2]);
                    }
                    if i2 < i1 {
                        assert(vs[i1] < vs[i2]);
                        assert(vs[i2] <= vs[i1]);
                    }
                }
            },
            Sequence::Boolean(ca) => {
                let su = ca@;
                if su.len() > 0 && !(forall|i: int| 0 <= i < su.len() ==> su[i] != Some(false)) {
                    assert(crate::boolean::min_candidate(su[i1]));
                    assert(crate::boolean::min_candidate(su[i2]));
                }
            },
            Sequence::Text(ca) => {
                let st = ca@;
                if st.len() > 0 && ca.sorted is Unknown {
                    if i1 < i2 {
                        assert(crate::text::text_lt(st[i2], st[i1]));
                    }
                    if i2 < i1 {
                        assert(crate::text::text_lt(st[i1], st[i2]));
                    }
                }
            },
            Sequence::Other => {},
        }
    }
}

/// The mirror image of [`lemma_arg_min_unique`] for argmax.
pub proof fn lemma_arg_max_unique(s: Sequence, r1: Option<usize>, r2: Option<usize>)
    requires
        s.wf(),
        s.is_arg_max(r1),
        s.is_arg_max(r2),
    ensures
        r1 == r2,
{
    if let (Some(g1), Some(g2)) = (r1, r2) {
        let i1 = g1 as int;
        let i2 = g2 as int;
        match s {
            Sequence::Numeric(ca) => {
                let vs = ca.values();
                if ca.sorted is Unknown && vs.len() > 0 {
                    if i1 < i2 {
                        assert(vs[i2] > vs[i1]);
                        assert(vs[i1] >= vs[i2]);
                    }
                    if i2 < i1 {
                        assert(vs[i1] > vs[i2]);
                        assert(vs[i2] >= vs[i1]);
                    }
                }
            },
            Sequence::Boolean(ca) => {
                let su = ca@;
                if su.len() > 0 && crate::boolean::count_none(su) != su.len() && (exists|i: int|
                    0 <= i < su.len() && su[i] == Some(true)) {
                    assert(su[i1] == Some(true));
                    assert(su[i2] == Some(true));
                }
            },
            Sequence::Text(ca) => {
                let st = ca@;
                if st.len() > 0 && ca.sorted is Unknown {
                    if i1 < i2 {
                        assert(crate::text::text_lt(st[i1], st[i2]));
                    }
                    if i2 < i1 {
                        assert(crate::text::text_lt(st[i2], st[i1]));
                    }
                }
            },
            Sequence::Other => {},
        }
    }
}

/// A present answer is a valid global index into the sequence.
pub proof fn lemma_result_in_bounds(s: Sequence, r: Option<usize>, g: usize)
    requires
        s.wf(),
        s.is_arg_min(r) || s.is_arg_max(r),
        r == Some(g),
    ensures
        (g as int) < s.total_len(),
{
}

} // verus!
