use vstd::prelude::*;

verus! {

/// The logical contents of a chunked sequence: its chunks laid end to end.
/// The global index of position `i` of chunk `k` is the sum of the lengths
/// of the chunks before `k`, plus `i`.
pub open spec fn concat_of<T>(cs: Seq<Seq<T>>) -> Seq<T>
    decreases cs.len(),
{
    if cs.len() == 0 {
        Seq::empty()
    } else {
        concat_of(cs.drop_last()) + cs.last()
    }
}

/// Extending the prefix of chunks by one chunk appends that chunk's contents.
pub proof fn lemma_concat_take_succ<T>(cs: Seq<Seq<T>>, k: int)
    requires
        0 <= k < cs.len(),
    ensures
        concat_of(cs.take(k + 1)) == concat_of(cs.take(k)) + cs[k],
{
    assert(cs.take(k + 1).drop_last() =~= cs.take(k));
    assert(cs.take(k + 1).last() == cs[k]);
    assert(concat_of(cs.take(k + 1)) == concat_of(cs.take(k + 1).drop_last()) + cs.take(k + 1).last());
}

/// What a prefix of the chunks concatenates to is a prefix of what the
/// whole sequence of chunks concatenates to.
pub proof fn lemma_concat_take_prefix<T>(cs: Seq<Seq<T>>, k: int)
    requires
        0 <= k <= cs.len(),
    ensures
        concat_of(cs.take(k)).len() <= concat_of(cs).len(),
        forall|j: int|
            0 <= j < concat_of(cs.take(k)).len() ==> concat_of(cs.take(k))[j] == concat_of(cs)[j],
    decreases cs.len() - k,
{
    if k == cs.len() {
        assert(cs.take(k) =~= cs);
    } else {
        lemma_concat_take_succ(cs, k);
        lemma_concat_take_prefix(cs, k + 1);
        assert forall|j: int|
            0 <= j < concat_of(cs.take(k)).len() implies concat_of(cs.take(k))[j] == concat_of(
            cs,
        )[j] by {
            assert(concat_of(cs.take(k + 1))[j] == (concat_of(cs.take(k)) + cs[k])[j]);
        }
    }
}

/// A single chunk concatenates to itself.
pub proof fn lemma_concat_singleton<T>(cs: Seq<Seq<T>>)
    requires
        cs.len() == 1,
    ensures
        concat_of(cs) == cs[0],
{
    assert(cs.drop_last() =~= Seq::<Seq<T>>::empty());
    assert(concat_of(cs) == concat_of(cs.drop_last()) + cs.last());
    assert(concat_of(cs.drop_last()) == Seq::<T>::empty());
    assert(Seq::<T>::empty() + cs[0] =~= cs[0]);
}

} // verus!
