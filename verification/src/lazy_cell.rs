//! A write-once memoization cell.

use vstd::cell::invcell::InvCell;
use vstd::prelude::*;

verus! {

/// A single slot that starts empty, is filled by the first read and hands
/// the same value to every later read.
///
/// What the slot holds cannot be observed in a contract, since it changes
/// behind a shared reference. A cell therefore carries the set of values it
/// admits: whatever fills it is in that set, and so is whatever it returns.
#[verifier::reject_recursive_types(T)]
pub struct LazyCell<T: Copy> {
    value: InvCell<Option<T>, spec_fn(Option<T>) -> bool>,
}

impl<T: Copy> LazyCell<T> {
    /// The values that this cell may be filled with.
    pub closed spec fn admits(&self, v: T) -> bool {
        self.value.inv(Some(v))
    }

    /// The cell may always be empty.
    pub closed spec fn wf(&self) -> bool {
        self.value.inv(None)
    }

    /// An empty cell that admits every value.
    pub fn new() -> (cell: Self)
        ensures
            cell.wf(),
            forall|v: T| cell.admits(v),
    {
        LazyCell { value: InvCell::new(None, Ghost(|v: Option<T>| true)) }
    }

    /// An empty cell that admits the values of `allowed` only.
    pub fn restricted(Ghost(allowed): Ghost<spec_fn(T) -> bool>) -> (cell: Self)
        ensures
            cell.wf(),
            forall|v: T| cell.admits(v) == allowed(v),
    {
        LazyCell {
            value: InvCell::new(
                None,
                Ghost(
                    |v: Option<T>|
                        match v {
                            Some(x) => allowed(x),
                            None => true,
                        },
                ),
            ),
        }
    }

    /// The cached value; `init` computes it when the cell is still empty.
    pub fn get<F: FnOnce() -> T>(&self, init: F) -> (v: T)
        requires
            init.requires(()),
            forall|x: T| init.ensures((), x) ==> self.admits(x),
        ensures
            self.admits(v),
    {
        if let Some(x) = self.value.get() {
            return x;
        }
        let x = init();
        assert(self.admits(x));
        self.value.set(Some(x));
        x
    }

    /// Two reads of a cell that admits one value only agree.
    pub proof fn lemma_reads_agree(&self, first: T, second: T, only: T)
        requires
            forall|x: T| self.admits(x) ==> x == only,
            self.admits(first),
            self.admits(second),
        ensures
            first == second,
    {
    }
}

} // verus!
