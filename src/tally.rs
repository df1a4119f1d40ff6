//! The running total of a run: the sum of the line counts of every file counted.
use vstd::prelude::*;

verus! {

/// The sum of `counts`.
pub open spec fn sum(counts: Seq<usize>) -> nat
    decreases counts.len(),
{
    if counts.len() == 0 {
        0
    } else {
        sum(counts.drop_last()) + counts.last() as nat
    }
}

/// The line counts added so far and their sum.
pub struct RunningTotal {
    total: usize,
    counts: Ghost<Seq<usize>>,
}

impl RunningTotal {
    /// The per-file counts added so far, in order.
    pub closed spec fn counts(&self) -> Seq<usize> {
        self.counts@
    }

    pub closed spec fn wf(&self) -> bool {
        self.total as nat == sum(self.counts@)
    }

    /// A total with no counts in it.
    pub fn new() -> (r: RunningTotal)
        ensures
            r.wf(),
            r.counts() == Seq::<usize>::empty(),
    {
        RunningTotal { total: 0, counts: Ghost(Seq::empty()) }
    }

    /// The sum of every count added so far, exactly.
    pub fn total(&self) -> (r: usize)
        requires
            self.wf(),
        ensures
            r == sum(self.counts()),
    {
        self.total
    }

    /// Adds the line count of one more file. Where the sum would no longer fit
    /// in `usize` nothing changes and `false` comes back.
    pub fn add(&mut self, count: usize) -> (r: bool)
        requires
            old(self).wf(),
        ensures
            final(self).wf(),
            r == (sum(old(self).counts()) + count <= usize::MAX),
            r ==> final(self).counts() == old(self).counts().push(count),
            !r ==> final(self).counts() == old(self).counts(),
    {
        match self.total.checked_add(count) {
            Some(t) => {
                proof {
                    assert(self.counts@.push(count).drop_last() =~= self.counts@);
                }
                self.total = t;
                self.counts = Ghost(self.counts@.push(count));
                true
            },
            None => false,
        }
    }
}

} // verus!
