//! The interface shared by all min-priority queues.

use vstd::prelude::*;
use vstd::multiset::Multiset;
use crate::T;

verus! {

/// `m` occurs in `s` and no key of `s` is smaller.
pub open spec fn is_min(s: Multiset<T>, m: T) -> bool {
    &&& s.count(m) > 0
    &&& forall|k: T| #[trigger] s.count(k) > 0 ==> m <= k
}

/// The relation between the keys held before a `pop`, the value it returns
/// and the keys held afterwards.
pub open spec fn pop_step(before: Multiset<T>, r: Option<T>, after: Multiset<T>) -> bool {
    match r {
        None => before.len() == 0 && after == before,
        Some(m) => is_min(before, m) && after == before.remove(m),
    }
}

/// A min-priority queue over keys of type `T`, seen as a multiset.
///
/// The clauses below are what an implementation inside `verus!` is held
/// to. `inv` and `contents` carry default bodies for one reason only: code
/// outside `verus!` cannot write spec functions and could not implement the
/// trait without them. The defaults are placeholders and no model: with
/// them `contents` is one fixed multiset, of which the clause of `push`
/// cannot hold. Nothing that is proved through this trait says anything
/// about an implementation that keeps them.
pub trait Heap: Sized {
    /// The structural invariant of the implementation. The default is a
    /// placeholder for implementations outside `verus!`.
    open spec fn inv(&self) -> bool {
        true
    }

    /// The keys currently held, with multiplicity. The default is a
    /// placeholder for implementations outside `verus!`.
    open spec fn contents(&self) -> Multiset<T> {
        arbitrary()
    }

    /// An empty heap.
    fn default() -> (h: Self)
        ensures
            h.inv(),
            h.contents() == Multiset::<T>::empty(),
    ;

    /// Adds one occurrence of `t`.
    fn push(&mut self, t: T)
        requires
            old(self).inv(),
        ensures
            final(self).inv(),
            final(self).contents() == old(self).contents().insert(t),
    ;

    /// Removes and returns a smallest key, or returns `None` when no key is held.
    fn pop(&mut self) -> (r: Option<T>)
        requires
            old(self).inv(),
        ensures
            final(self).inv(),
            pop_step(old(self).contents(), r, final(self).contents()),
    ;
}

} // verus!
