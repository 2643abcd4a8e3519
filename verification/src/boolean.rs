use vstd::prelude::*;

use crate::bitmap::count_unset;
use crate::bitmap::first_set_bit;
use crate::bitmap::first_unset_bit;
use crate::bitmap::Bitmap;
use crate::chunks::concat_of;
use crate::chunks::lemma_concat_singleton;
use crate::chunks::lemma_concat_take_prefix;
use crate::chunks::lemma_concat_take_succ;
use crate::sortedness::Sortedness;

verus! {

/// One physically contiguous segment of a boolean sequence: its value bits
/// plus an optional validity bitmap (1 = present, 0 = null).
pub struct BoolChunk {
    pub values: Bitmap,
    pub validity: Option<Bitmap>,
}

impl View for BoolChunk {
    type V = Seq<Option<bool>>;

    open spec fn view(&self) -> Seq<Option<bool>> {
        Seq::new(
            self.values.len as nat,
            |i: int|
                match self.validity {
                    Some(v) => if v@[i] {
                        Some(self.values@[i])
                    } else {
                        None
                    },
                    None => Some(self.values@[i]),
                },
        )
    }
}

impl BoolChunk {
    pub open spec fn wf(&self) -> bool {
        &&& self.values.wf()
        &&& match self.validity {
            Some(v) => v.wf() && v.len == self.values.len,
            None => true,
        }
    }

    /// The element at position `i`: its value, or `None` where the validity
    /// bitmap marks a null.
    pub fn get(&self, i: usize) -> (r: Option<bool>)
        requires
            self.wf(),
            i < self.values.len,
        ensures
            r == self@[i as int],
    {
        match &self.validity {
            Some(v) => if v.bit(i) {
                Some(self.values.bit(i))
            } else {
                None
            },
            None => Some(self.values.bit(i)),
        }
    }

    /// How many elements of the chunk are null.
    pub fn null_count(&self) -> (r: usize)
        requires
            self.wf(),
        ensures
            r == count_none(self@),
    {
        proof {
            lemma_chunk_count_none(*self);
        }
        match &self.validity {
            Some(v) => v.unset_bits(),
            None => 0,
        }
    }
}

/// How many elements of an optional-value sequence are null.
pub open spec fn count_none(s: Seq<Option<bool>>) -> nat
    decreases s.len(),
{
    if s.len() == 0 {
        0
    } else {
        count_none(s.drop_last()) + (if s.last() is None {
            1nat
        } else {
            0nat
        })
    }
}

pub proof fn lemma_count_none_le(s: Seq<Option<bool>>)
    ensures
        count_none(s) <= s.len(),
    decreases s.len(),
{
    if s.len() > 0 {
        lemma_count_none_le(s.drop_last());
    }
}

pub proof fn lemma_count_none_add(a: Seq<Option<bool>>, b: Seq<Option<bool>>)
    ensures
        count_none(a + b) == count_none(a) + count_none(b),
    decreases b.len(),
{
    if b.len() == 0 {
        assert(a + b =~= a);
    } else {
        lemma_count_none_add(a, b.drop_last());
        assert((a + b).drop_last() =~= a + b.drop_last());
        assert((a + b).last() == b.last());
    }
}

/// A sequence without nulls holds a value at every position.
pub proof fn lemma_count_none_zero(s: Seq<Option<bool>>)
    requires
        count_none(s) == 0,
    ensures
        forall|i: int| 0 <= i < s.len() ==> s[i] is Some,
    decreases s.len(),
{
    if s.len() > 0 {
        lemma_count_none_zero(s.drop_last());
        assert forall|i: int| 0 <= i < s.len() implies s[i] is Some by {
            if i < s.len() - 1 {
                assert(s.drop_last()[i] == s[i]);
            }
        }
    }
}

/// A sequence whose null count is its length is null at every position.
pub proof fn lemma_count_none_full(s: Seq<Option<bool>>)
    requires
        count_none(s) == s.len(),
    ensures
        forall|i: int| 0 <= i < s.len() ==> s[i] is None,
    decreases s.len(),
{
    if s.len() > 0 {
        lemma_count_none_le(s.drop_last());
        lemma_count_none_full(s.drop_last());
        assert forall|i: int| 0 <= i < s.len() implies s[i] is None by {
            if i < s.len() - 1 {
                assert(s.drop_last()[i] == s[i]);
            }
        }
    }
}

proof fn lemma_chunk_count_none_take(c: BoolChunk, n: int)
    requires
        c.wf(),
        0 <= n <= c.values.len,
    ensures
        count_none(c@.take(n)) == match c.validity {
            Some(v) => count_unset(v@.take(n)),
            None => 0nat,
        },
    decreases n,
{
    if n > 0 {
        lemma_chunk_count_none_take(c, n - 1);
        assert(c@.take(n).drop_last() =~= c@.take(n - 1));
        assert(c@.take(n).last() == c@[n - 1]);
        match c.validity {
            Some(v) => {
                assert(v@.take(n).drop_last() =~= v@.take(n - 1));
                assert(v@.take(n).last() == v@[n - 1]);
            },
            None => {},
        }
    }
}

/// A chunk's null count is its validity bitmap's unset-bit count.
pub proof fn lemma_chunk_count_none(c: BoolChunk)
    requires
        c.wf(),
    ensures
        count_none(c@) == match c.validity {
            Some(v) => count_unset(v@),
            None => 0nat,
        },
{
    lemma_chunk_count_none_take(c, c.values.len as int);
    assert(c@.take(c.values.len as int) =~= c@);
    match c.validity {
        Some(v) => {
            assert(v@.take(c.values.len as int) =~= v@);
        },
        None => {},
    }
}

/// A boolean sequence: ordered chunks plus the producer's sortedness hint.
/// The boolean reducers derive their answer from the contents alone; their
/// priority of states never consults the hint.
pub struct BooleanSeq {
    pub chunks: Vec<BoolChunk>,
    pub sorted: Sortedness,
}

impl View for BooleanSeq {
    type V = Seq<Option<bool>>;

    open spec fn view(&self) -> Seq<Option<bool>> {
        concat_of(self.chunk_views())
    }
}

impl BooleanSeq {
    pub open spec fn chunk_views(&self) -> Seq<Seq<Option<bool>>> {
        self.chunks@.map_values(|c: BoolChunk| c@)
    }

    pub open spec fn wf(&self) -> bool {
        &&& forall|k: int| 0 <= k < self.chunks@.len() ==> (#[trigger] self.chunks@[k]).wf()
        &&& self@.len() <= usize::MAX
    }

    /// Total number of elements over all chunks.
    pub fn len(&self) -> (r: usize)
        requires
            self.wf(),
        ensures
            r == self@.len(),
    {
        let views = Ghost(self.chunk_views());
        let mut total: usize = 0;
        let mut k: usize = 0;
        while k < self.chunks.len()
            invariant
                self.wf(),
                views@ == self.chunk_views(),
                k <= self.chunks@.len(),
                total == concat_of(views@.take(k as int)).len(),
            decreases self.chunks@.len() - k,
        {
            proof {
                lemma_concat_take_succ(views@, k as int);
                lemma_concat_take_prefix(views@, k as int + 1);
            }
            total = total + self.chunks[k].values.len;
            k = k + 1;
        }
        proof {
            assert(views@.take(self.chunks@.len() as int) =~= views@);
        }
        total
    }

    /// Total number of nulls over all chunks.
    pub fn null_count(&self) -> (r: usize)
        requires
            self.wf(),
        ensures
            r == count_none(self@),
    {
        let views = Ghost(self.chunk_views());
        let mut nulls: usize = 0;
        let mut k: usize = 0;
        while k < self.chunks.len()
            invariant
                self.wf(),
                views@ == self.chunk_views(),
                k <= self.chunks@.len(),
                nulls == count_none(concat_of(views@.take(k as int))),
            decreases self.chunks@.len() - k,
        {
            proof {
                lemma_concat_take_succ(views@, k as int);
                lemma_concat_take_prefix(views@, k as int + 1);
                lemma_count_none_add(concat_of(views@.take(k as int)), self.chunks@[k as int]@);
                lemma_count_none_le(concat_of(views@.take(k as int + 1)));
            }
            nulls = nulls + self.chunks[k].null_count();
            k = k + 1;
        }
        proof {
            assert(views@.take(self.chunks@.len() as int) =~= views@);
        }
        nulls
    }
}

/// `v` orders at the bottom of the boolean order: `false`, or null, which
/// ties with `false` for minimality.
pub open spec fn min_candidate(v: Option<bool>) -> bool {
    v == Some(false) || v is None
}

/// `g` is the first position holding `true`.
pub open spec fn is_first_true(s: Seq<Option<bool>>, g: int) -> bool {
    &&& 0 <= g < s.len()
    &&& s[g] == Some(true)
    &&& forall|j: int| 0 <= j < g ==> s[j] != Some(true)
}

/// `g` is the first position holding `false` or null.
pub open spec fn is_first_min_candidate(s: Seq<Option<bool>>, g: int) -> bool {
    &&& 0 <= g < s.len()
    &&& min_candidate(s[g])
    &&& forall|j: int| 0 <= j < g ==> !min_candidate(s[j])
}

/// Linear positional scan for the first element equal to `true`.
fn scan_first_true(ca: &BooleanSeq) -> (r: Option<usize>)
    requires
        ca.wf(),
    ensures
        match r {
            Some(g) => is_first_true(ca@, g as int),
            None => forall|j: int| 0 <= j < ca@.len() ==> ca@[j] != Some(true),
        },
{
    let views = Ghost(ca.chunk_views());
    let mut off: usize = 0;
    let mut k: usize = 0;
    while k < ca.chunks.len()
        invariant
            ca.wf(),
            views@ == ca.chunk_views(),
            k <= ca.chunks@.len(),
            off == concat_of(views@.take(k as int)).len(),
            forall|j: int| 0 <= j < off ==> ca@[j] != Some(true),
        decreases ca.chunks@.len() - k,
    {
        let c = &ca.chunks[k];
        let clen = c.values.len;
        proof {
            lemma_concat_take_succ(views@, k as int);
            lemma_concat_take_prefix(views@, k as int + 1);
        }
        let mut i: usize = 0;
        while i < clen
            invariant
                ca.wf(),
                views@ == ca.chunk_views(),
                k < ca.chunks@.len(),
                c == ca.chunks@[k as int],
                clen == c.values.len,
                off == concat_of(views@.take(k as int)).len(),
                off + clen == concat_of(views@.take(k as int + 1)).len(),
                off + clen <= ca@.len(),
                concat_of(views@.take(k as int + 1)) == concat_of(views@.take(k as int)) + c@,
                forall|j: int|
                    0 <= j < concat_of(views@.take(k as int + 1)).len() ==> concat_of(
                        views@.take(k as int + 1),
                    )[j] == ca@[j],
                i <= clen,
                forall|j: int| 0 <= j < off + i ==> ca@[j] != Some(true),
            decreases clen - i,
        {
            proof {
                assert(concat_of(views@.take(k as int + 1))[off + i] == c@[i as int]);
            }
            let v = c.get(i);
            if let Some(b) = v {
                if b {
                    return Some(off + i);
                }
            }
            i = i + 1;
        }
        off = off + clen;
        k = k + 1;
    }
    proof {
        assert(views@.take(ca.chunks@.len() as int) =~= views@);
    }
    None
}

/// Linear positional scan for the first element equal to `false` or null.
fn scan_first_min_candidate(ca: &BooleanSeq) -> (r: Option<usize>)
    requires
        ca.wf(),
    ensures
        match r {
            Some(g) => is_first_min_candidate(ca@, g as int),
            None => forall|j: int| 0 <= j < ca@.len() ==> !min_candidate(ca@[j]),
        },
{
    let views = Ghost(ca.chunk_views());
    let mut off: usize = 0;
    let mut k: usize = 0;
    while k < ca.chunks.len()
        invariant
            ca.wf(),
            views@ == ca.chunk_views(),
            k <= ca.chunks@.len(),
            off == concat_of(views@.take(k as int)).len(),
            forall|j: int| 0 <= j < off ==> !min_candidate(ca@[j]),
        decreases ca.chunks@.len() - k,
    {
        let c = &ca.chunks[k];
        let clen = c.values.len;
        proof {
            lemma_concat_take_succ(views@, k as int);
            lemma_concat_take_prefix(views@, k as int + 1);
        }
        let mut i: usize = 0;
        while i < clen
            invariant
                ca.wf(),
                views@ == ca.chunk_views(),
                k < ca.chunks@.len(),
                c == ca.chunks@[k as int],
                clen == c.values.len,
                off == concat_of(views@.take(k as int)).len(),
                off + clen == concat_of(views@.take(k as int + 1)).len(),
                off + clen <= ca@.len(),
                concat_of(views@.take(k as int + 1)) == concat_of(views@.take(k as int)) + c@,
                forall|j: int|
                    0 <= j < concat_of(views@.take(k as int + 1)).len() ==> concat_of(
                        views@.take(k as int + 1),
                    )[j] == ca@[j],
                i <= clen,
                forall|j: int| 0 <= j < off + i ==> !min_candidate(ca@[j]),
            decreases clen - i,
        {
            proof {
                assert(concat_of(views@.take(k as int + 1))[off + i] == c@[i as int]);
            }
            let hit = match c.get(i) {
                Some(b) => !b,
                None => true,
            };
            if hit {
                return Some(off + i);
            }
            i = i + 1;
        }
        off = off + clen;
        k = k + 1;
    }
    proof {
        assert(views@.take(ca.chunks@.len() as int) =~= views@);
    }
    None
}

/// Whether some element equals `false`.
fn has_false(ca: &BooleanSeq) -> (r: bool)
    requires
        ca.wf(),
    ensures
        r == exists|i: int| 0 <= i < ca@.len() && ca@[i] == Some(false),
{
    let views = Ghost(ca.chunk_views());
    let mut off: usize = 0;
    let mut k: usize = 0;
    while k < ca.chunks.len()
        invariant
            ca.wf(),
            views@ == ca.chunk_views(),
            k <= ca.chunks@.len(),
            off == concat_of(views@.take(k as int)).len(),
            forall|j: int| 0 <= j < off ==> ca@[j] != Some(false),
        decreases ca.chunks@.len() - k,
    {
        let c = &ca.chunks[k];
        let clen = c.values.len;
        proof {
            lemma_concat_take_succ(views@, k as int);
            lemma_concat_take_prefix(views@, k as int + 1);
        }
        let mut i: usize = 0;
        while i < clen
            invariant
                ca.wf(),
                views@ == ca.chunk_views(),
                k < ca.chunks@.len(),
                c == ca.chunks@[k as int],
                clen == c.values.len,
                off == concat_of(views@.take(k as int)).len(),
                off + clen == concat_of(views@.take(k as int + 1)).len(),
                off + clen <= ca@.len(),
                concat_of(views@.take(k as int + 1)) == concat_of(views@.take(k as int)) + c@,
                forall|j: int|
                    0 <= j < concat_of(views@.take(k as int + 1)).len() ==> concat_of(
                        views@.take(k as int + 1),
                    )[j] == ca@[j],
                i <= clen,
                forall|j: int| 0 <= j < off + i ==> ca@[j] != Some(false),
            decreases clen - i,
        {
            proof {
                assert(concat_of(views@.take(k as int + 1))[off + i] == c@[i as int]);
            }
            let v = c.get(i);
            if let Some(b) = v {
                if !b {
                    proof {
                        assert(ca@[off + i] == Some(false));
                    }
                    return true;
                }
            }
            i = i + 1;
        }
        off = off + clen;
        k = k + 1;
    }
    proof {
        assert(views@.take(ca.chunks@.len() as int) =~= views@);
    }
    false
}

/// What `arg_min_bool` answers, in its priority of states: no result for an
/// empty sequence; the boundary index 0 when no `false` is present (all
/// null, or every non-null value `true`); otherwise the first position
/// holding `false` or null — null orders below `true`, tying with `false`.
pub open spec fn arg_min_bool_res(ca: BooleanSeq, r: Option<usize>) -> bool {
    let s = ca@;
    if s.len() == 0 {
        r is None
    } else if forall|i: int| 0 <= i < s.len() ==> s[i] != Some(false) {
        r == Some(0usize)
    } else {
        r matches Some(g) && is_first_min_candidate(s, g as int)
    }
}

/// What `arg_max_bool` answers: no result for an empty sequence; index 0
/// when everything is null; over a single chunk without nulls, the bitmap
/// scanner's answer — the first `true`, or 0 when there is none; otherwise
/// a linear scan for the first `true`, which reports no result when no
/// `true` exists.
pub open spec fn arg_max_bool_res(ca: BooleanSeq, r: Option<usize>) -> bool {
    let s = ca@;
    if s.len() == 0 {
        r is None
    } else if count_none(s) == s.len() {
        r == Some(0usize)
    } else if count_none(s) == 0 && ca.chunks@.len() == 1 {
        if exists|i: int| 0 <= i < s.len() && s[i] == Some(true) {
            r matches Some(g) && is_first_true(s, g as int)
        } else {
            r == Some(0usize)
        }
    } else {
        if exists|i: int| 0 <= i < s.len() && s[i] == Some(true) {
            r matches Some(g) && is_first_true(s, g as int)
        } else {
            r is None
        }
    }
}

/// Over a single chunk without nulls, where the reducers take the bitmap
/// scanner instead of a linear positional scan, the answer agrees with
/// that scan whenever the sought value is present — at every bit length
/// and offset: argmax finds the first `true` and argmin the first
/// `false`. Only when the value is absent does the scanner's boundary
/// answer 0 stand in for the scan's "no result".
pub proof fn lemma_single_chunk_matches_scan(ca: BooleanSeq, rmin: Option<usize>, rmax: Option<usize>)
    requires
        ca.wf(),
        ca.chunks@.len() == 1,
        count_none(ca@) == 0,
        arg_min_bool_res(ca, rmin),
        arg_max_bool_res(ca, rmax),
    ensures
        (exists|i: int| 0 <= i < ca@.len() && ca@[i] == Some(false)) ==> (rmin matches Some(g)
            && is_first_min_candidate(ca@, g as int)),
        (exists|i: int| 0 <= i < ca@.len() && ca@[i] == Some(true)) ==> (rmax matches Some(g)
            && is_first_true(ca@, g as int)),
{
    let s = ca@;
    if exists|i: int| 0 <= i < s.len() && s[i] == Some(false) {
        let i0 = choose|i: int| 0 <= i < s.len() && s[i] == Some(false);
        assert(s[i0] == Some(false));
    }
    if exists|i: int| 0 <= i < s.len() && s[i] == Some(true) {
        let i0 = choose|i: int| 0 <= i < s.len() && s[i] == Some(true);
        lemma_count_none_le(s);
        assert(s[i0] is Some);
        if count_none(s) == s.len() {
            lemma_count_none_full(s);
        }
    }
}

/// Argmin over a boolean sequence.
pub fn arg_min_bool(ca: &BooleanSeq) -> (r: Option<usize>)
    requires
        ca.wf(),
    ensures
        arg_min_bool_res(*ca, r),
{
    let n = ca.len();
    let nulls = ca.null_count();
    if n == 0 {
        return None;
    }
    if nulls == n {
        proof {
            lemma_count_none_full(ca@);
        }
        return Some(0);
    }
    if !has_false(ca) {
        return Some(0);
    }
    if nulls == 0 && ca.chunks.len() == 1 {
        proof {
            lemma_count_none_zero(ca@);
            lemma_concat_singleton(ca.chunk_views());
        }
        let c = &ca.chunks[0];
        let fb = first_unset_bit(&c.values);
        proof {
            let s = ca@;
            let i0 = choose|i: int| 0 <= i < s.len() && s[i] == Some(false);
            assert(c.values@[i0] == false);
            assert(is_first_min_candidate(s, fb as int)) by {
                assert(s[fb as int] == Some(false));
                assert forall|j: int| 0 <= j < fb implies !min_candidate(s[j]) by {
                    assert(c.values@[j] != false);
                }
            }
        }
        Some(fb)
    } else {
        let r = scan_first_min_candidate(ca);
        proof {
            let s = ca@;
            let i0 = choose|i: int| 0 <= i < s.len() && s[i] == Some(false);
            assert(min_candidate(s[i0]));
        }
        r
    }
}

/// Argmax over a boolean sequence.
pub fn arg_max_bool(ca: &BooleanSeq) -> (r: Option<usize>)
    requires
        ca.wf(),
    ensures
        arg_max_bool_res(*ca, r),
{
    let n = ca.len();
    if n == 0 {
        return None;
    }
    let nulls = ca.null_count();
    if nulls == n {
        return Some(0);
    }
    if nulls == 0 && ca.chunks.len() == 1 {
        proof {
            lemma_count_none_zero(ca@);
            lemma_concat_singleton(ca.chunk_views());
        }
        let c = &ca.chunks[0];
        let fs = first_set_bit(&c.values);
        proof {
            let s = ca@;
            if exists|i: int| 0 <= i < s.len() && s[i] == Some(true) {
                let i0 = choose|i: int| 0 <= i < s.len() && s[i] == Some(true);
                assert(c.values@[i0] == true);
                assert(is_first_true(s, fs as int)) by {
                    assert(s[fs as int] == Some(true));
                    assert forall|j: int| 0 <= j < fs implies s[j] != Some(true) by {
                        assert(c.values@[j] != true);
                    }
                }
            } else {
                assert forall|i: int| 0 <= i < c.values@.len() implies c.values@[i] != true by {
                    assert(s[i] == Some(c.values@[i]));
                }
                assert(fs == 0);
            }
        }
        Some(fs)
    } else {
        scan_first_true(ca)
    }
}

} // verus!
