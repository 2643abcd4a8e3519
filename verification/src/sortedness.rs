use vstd::prelude::*;

verus! {

/// Producer-asserted global ordering hint carried by a sequence.
///
/// The flag is trusted without re-verification: when it reports
/// `Ascending` or `Descending` the reducers answer with the boundary
/// index and perform no scan, whatever the actual contents are.
#[derive(Clone, Copy, PartialEq, Eq, Structural)]
pub enum Sortedness {
    Ascending,
    Descending,
    Unknown,
}

} // verus!
