use vstd::prelude::*;

use crate::sortedness::Sortedness;

verus! {

/// Lexicographic order on byte strings, the order of the text values
/// (byte-wise comparison of encoded text agrees with its code-point order).
pub open spec fn bytes_lt(a: Seq<u8>, b: Seq<u8>) -> bool
    decreases a.len(),
{
    if b.len() == 0 {
        false
    } else if a.len() == 0 {
        true
    } else if a[0] < b[0] {
        true
    } else if a[0] > b[0] {
        false
    } else {
        bytes_lt(a.drop_first(), b.drop_first())
    }
}

/// The total order of the text reducer: null compares as less than every
/// real value, and real values compare lexicographically.
pub open spec fn text_lt(a: Option<Seq<u8>>, b: Option<Seq<u8>>) -> bool {
    match (a, b) {
        (Option::None, Option::None) => false,
        (Option::None, Option::Some(_)) => true,
        (Option::Some(_), Option::None) => false,
        (Option::Some(x), Option::Some(y)) => bytes_lt(x, y),
    }
}

pub proof fn lemma_bytes_lt_irrefl(a: Seq<u8>)
    ensures
        !bytes_lt(a, a),
    decreases a.len(),
{
    if a.len() > 0 {
        lemma_bytes_lt_irrefl(a.drop_first());
    }
}

pub proof fn lemma_bytes_lt_trans(a: Seq<u8>, b: Seq<u8>, c: Seq<u8>)
    requires
        bytes_lt(a, b),
        bytes_lt(b, c),
    ensures
        bytes_lt(a, c),
    decreases a.len(),
{
    if a.len() > 0 && b.len() > 0 && c.len() > 0 {
        if a[0] == b[0] && b[0] == c[0] {
            lemma_bytes_lt_trans(a.drop_first(), b.drop_first(), c.drop_first());
        }
    }
}

/// Two byte strings that each do not precede the other are equal.
pub proof fn lemma_bytes_lt_connected(a: Seq<u8>, b: Seq<u8>)
    requires
        !bytes_lt(a, b),
        !bytes_lt(b, a),
    ensures
        a == b,
    decreases a.len(),
{
    if a.len() == 0 || b.len() == 0 {
        assert(a =~= b);
    } else {
        lemma_bytes_lt_connected(a.drop_first(), b.drop_first());
        assert forall|k: int| 0 <= k < a.len() implies a[k] == b[k] by {
            if k > 0 {
                assert(a.drop_first()[k - 1] == b.drop_first()[k - 1]);
            }
        }
        assert(a =~= b);
    }
}

pub proof fn lemma_text_lt_irrefl(a: Option<Seq<u8>>)
    ensures
        !text_lt(a, a),
{
    if a is Some {
        lemma_bytes_lt_irrefl(a.unwrap());
    }
}

pub proof fn lemma_text_lt_trans(a: Option<Seq<u8>>, b: Option<Seq<u8>>, c: Option<Seq<u8>>)
    requires
        text_lt(a, b),
        text_lt(b, c),
    ensures
        text_lt(a, c),
{
    if a is Some && b is Some && c is Some {
        lemma_bytes_lt_trans(a.unwrap(), b.unwrap(), c.unwrap());
    }
}

/// Two values that each do not precede the other are equal: nulls tie only
/// with nulls, and real values by byte-wise equality.
pub proof fn lemma_text_lt_connected(a: Option<Seq<u8>>, b: Option<Seq<u8>>)
    requires
        !text_lt(a, b),
        !text_lt(b, a),
    ensures
        a == b,
{
    if a is Some && b is Some {
        lemma_bytes_lt_connected(a.unwrap(), b.unwrap());
    }
}

proof fn lemma_bytes_lt_skip(a: Seq<u8>, b: Seq<u8>, i: int)
    requires
        0 <= i <= a.len(),
        0 <= i <= b.len(),
        forall|j: int| 0 <= j < i ==> a[j] == b[j],
    ensures
        bytes_lt(a, b) == bytes_lt(a.skip(i), b.skip(i)),
    decreases i,
{
    if i == 0 {
        assert(a.skip(0) =~= a);
        assert(b.skip(0) =~= b);
    } else {
        assert(a.len() > 0 && b.len() > 0 && a[0] == b[0]);
        assert(bytes_lt(a, b) == bytes_lt(a.drop_first(), b.drop_first()));
        lemma_bytes_lt_skip(a.drop_first(), b.drop_first(), i - 1);
        assert(a.drop_first().skip(i - 1) =~= a.skip(i));
        assert(b.drop_first().skip(i - 1) =~= b.skip(i));
    }
}

/// Whether `a` precedes `b` in the lexicographic byte order.
fn bytes_less(a: &Vec<u8>, b: &Vec<u8>) -> (r: bool)
    ensures
        r == bytes_lt(a@, b@),
{
    let mut i: usize = 0;
    while i < a.len() && i < b.len()
        invariant
            i <= a@.len(),
            i <= b@.len(),
            forall|j: int| 0 <= j < i ==> a@[j] == b@[j],
        decreases a@.len() - i,
    {
        proof {
            lemma_bytes_lt_skip(a@, b@, i as int);
        }
        if a[i] < b[i] {
            proof {
                assert(a@.skip(i as int)[0] == a@[i as int]);
                assert(b@.skip(i as int)[0] == b@[i as int]);
            }
            return true;
        }
        if a[i] > b[i] {
            proof {
                assert(a@.skip(i as int)[0] == a@[i as int]);
                assert(b@.skip(i as int)[0] == b@[i as int]);
            }
            return false;
        }
        i = i + 1;
    }
    proof {
        lemma_bytes_lt_skip(a@, b@, i as int);
    }
    a.len() < b.len()
}

/// The view of one stored text value.
pub open spec fn text_view(v: Option<Vec<u8>>) -> Option<Seq<u8>> {
    match v {
        Option::Some(x) => Some(x@),
        Option::None => None,
    }
}

/// Whether `a` precedes `b` in the text order, null first.
fn text_less(a: &Option<Vec<u8>>, b: &Option<Vec<u8>>) -> (r: bool)
    ensures
        r == text_lt(text_view(*a), text_view(*b)),
{
    match (a, b) {
        (Option::None, Option::None) => false,
        (Option::None, Option::Some(_)) => true,
        (Option::Some(_), Option::None) => false,
        (Option::Some(x), Option::Some(y)) => bytes_less(x, y),
    }
}

/// A text sequence: optional byte-string values in one flat run (the text
/// reducer walks positions in order, indifferent to chunk boundaries) plus
/// the producer's sortedness hint.
pub struct TextSeq {
    pub vals: Vec<Option<Vec<u8>>>,
    pub sorted: Sortedness,
}

impl View for TextSeq {
    type V = Seq<Option<Seq<u8>>>;

    open spec fn view(&self) -> Seq<Option<Seq<u8>>> {
        self.vals@.map_values(|v: Option<Vec<u8>>| text_view(v))
    }
}

/// `g` is the first position of the minimum under the null-first order.
pub open spec fn is_first_text_min(s: Seq<Option<Seq<u8>>>, g: int) -> bool {
    &&& 0 <= g < s.len()
    &&& forall|j: int| 0 <= j < s.len() ==> !text_lt(s[j], s[g])
    &&& forall|j: int| 0 <= j < g ==> text_lt(s[g], s[j])
}

/// `g` is the first position of the maximum under the null-first order.
pub open spec fn is_first_text_max(s: Seq<Option<Seq<u8>>>, g: int) -> bool {
    &&& 0 <= g < s.len()
    &&& forall|j: int| 0 <= j < s.len() ==> !text_lt(s[g], s[j])
    &&& forall|j: int| 0 <= j < g ==> text_lt(s[j], s[g])
}

/// What the text argmin answers: no result only for an empty sequence, the
/// boundary index under a known sortedness flag, else the first position of
/// the minimum — null is smallest, and only a strictly smaller value
/// replaces the running best, so the earliest extremum wins.
pub open spec fn arg_min_str_res(ca: TextSeq, r: Option<usize>) -> bool {
    let s = ca@;
    if s.len() == 0 {
        r is None
    } else {
        match ca.sorted {
            Sortedness::Ascending => r == Some(0usize),
            Sortedness::Descending => r == Some((s.len() - 1) as usize),
            Sortedness::Unknown => r matches Some(g) && is_first_text_min(s, g as int),
        }
    }
}

/// The mirror image of [`arg_min_str_res`] for the maximum.
pub open spec fn arg_max_str_res(ca: TextSeq, r: Option<usize>) -> bool {
    let s = ca@;
    if s.len() == 0 {
        r is None
    } else {
        match ca.sorted {
            Sortedness::Ascending => r == Some((s.len() - 1) as usize),
            Sortedness::Descending => r == Some(0usize),
            Sortedness::Unknown => r matches Some(g) && is_first_text_max(s, g as int),
        }
    }
}

/// Argmin over a text sequence.
pub fn arg_min_str(ca: &TextSeq) -> (r: Option<usize>)
    ensures
        arg_min_str_res(*ca, r),
{
    let n = ca.vals.len();
    if n == 0 {
        return None;
    }
    match ca.sorted {
        Sortedness::Ascending => Some(0),
        Sortedness::Descending => Some(n - 1),
        Sortedness::Unknown => {
            let ghost s = ca@;
            proof {
                lemma_text_lt_irrefl(s[0]);
            }
            let mut best: usize = 0;
            let mut i: usize = 1;
            while i < n
                invariant
                    n == ca.vals@.len(),
                    s == ca@,
                    best < i <= n,
                    forall|j: int| 0 <= j < i ==> !text_lt(s[j], s[best as int]),
                    forall|j: int| 0 <= j < best ==> text_lt(s[best as int], s[j]),
                decreases n - i,
            {
                if text_less(&ca.vals[i], &ca.vals[best]) {
                    proof {
                        let bi = best as int;
                        let ii = i as int;
                        lemma_text_lt_irrefl(s[ii]);
                        assert forall|j: int| 0 <= j < ii implies {
                            &&& !text_lt(s[j], s[ii])
                            &&& text_lt(s[ii], s[j])
                        } by {
                            if text_lt(s[j], s[ii]) {
                                lemma_text_lt_trans(s[j], s[ii], s[bi]);
                            }
                            if !text_lt(s[bi], s[j]) {
                                lemma_text_lt_connected(s[j], s[bi]);
                            } else {
                                lemma_text_lt_trans(s[ii], s[bi], s[j]);
                            }
                        }
                    }
                    best = i;
                }
                i = i + 1;
            }
            Some(best)
        },
    }
}

/// Argmax over a text sequence.
pub fn arg_max_str(ca: &TextSeq) -> (r: Option<usize>)
    ensures
        arg_max_str_res(*ca, r),
{
    let n = ca.vals.len();
    if n == 0 {
        return None;
    }
    match ca.sorted {
        Sortedness::Ascending => Some(n - 1),
        Sortedness::Descending => Some(0),
        Sortedness::Unknown => {
            let ghost s = ca@;
            proof {
                lemma_text_lt_irrefl(s[0]);
            }
            let mut best: usize = 0;
            let mut i: usize = 1;
            while i < n
                invariant
                    n == ca.vals@.len(),
                    s == ca@,
                    best < i <= n,
                    forall|j: int| 0 <= j < i ==> !text_lt(s[best as int], s[j]),
                    forall|j: int| 0 <= j < best ==> text_lt(s[j], s[best as int]),
                decreases n - i,
            {
                if text_less(&ca.vals[best], &ca.vals[i]) {
                    proof {
                        let bi = best as int;
                        let ii = i as int;
                        lemma_text_lt_irrefl(s[ii]);
                        assert forall|j: int| 0 <= j < ii implies {
                            &&& !text_lt(s[ii], s[j])
                            &&& text_lt(s[j], s[ii])
                        } by {
                            if text_lt(s[ii], s[j]) {
                                lemma_text_lt_trans(s[bi], s[ii], s[j]);
                            }
                            if !text_lt(s[j], s[bi]) {
                                lemma_text_lt_connected(s[j], s[bi]);
                            } else {
                                lemma_text_lt_trans(s[j], s[bi], s[ii]);
                            }
                        }
                    }
                    best = i;
                }
                i = i + 1;
            }
            Some(best)
        },
    }
}

} // verus!
