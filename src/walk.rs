//! The order in which paths are searched: roots first in the order given,
//! each directory expanded in place, depth first, down to a maximum depth.
//!
//! Reading directories is left to the caller: it takes the next path, and
//! when that path is a directory hands its entries back.

use vstd::prelude::*;

verus! {

/// A path still to look at, and its depth: `0` for a root, one more than its
/// directory for an entry.
#[derive(Debug, Clone)]
pub struct PendingPath {
    pub path: String,
    pub depth: usize,
}

/// The paths still to look at, as a stack whose top, at the end, comes next.
#[derive(Debug)]
pub struct Walker {
    pending: Vec<PendingPath>,
    max_depth: Option<usize>,
}

/// Whether entries at `depth` are looked at under the bound `max_depth`.
pub open spec fn depth_allowed(depth: int, max_depth: Option<usize>) -> bool {
    match max_depth {
        Some(m) => depth <= m,
        None => true,
    }
}

impl Walker {
    pub closed spec fn stack(&self) -> Seq<PendingPath> {
        self.pending@
    }

    pub closed spec fn bound(&self) -> Option<usize> {
        self.max_depth
    }

    /// No pending path lies deeper than the bound.
    pub open spec fn wf(&self) -> bool {
        forall|i: int| 0 <= i < self.stack().len() ==> depth_allowed(#[trigger] self.stack()[i].depth as int, self.bound())
    }

    /// A walk over `roots`, all at depth `0`, first root first.
    pub fn new(roots: Vec<String>, max_depth: Option<usize>) -> (r: Walker)
        ensures
            r.wf(),
            r.bound() == max_depth,
            r.stack().len() == roots@.len(),
            forall|i: int| 0 <= i < roots@.len() ==> #[trigger] r.stack()[i] == (PendingPath { path: roots@[roots@.len() - 1 - i], depth: 0 }),
    {
        let mut w = Walker { pending: Vec::new(), max_depth };
        let mut roots = roots;
        let ghost all = roots@;
        while roots.len() > 0
            invariant
                w.max_depth == max_depth,
                roots@ == all.subrange(0, roots@.len() as int),
                w.pending@.len() + roots@.len() == all.len(),
                forall|i: int| 0 <= i < w.pending@.len() ==> #[trigger] w.pending@[i] == (PendingPath { path: all[all.len() - 1 - i], depth: 0 }),
            decreases roots.len(),
        {
            let p = roots.pop().unwrap();
            w.pending.push(PendingPath { path: p, depth: 0 });
            proof {
                assert(roots@ =~= all.subrange(0, roots@.len() as int));
            }
        }
        w
    }

    /// The next path to look at, taken off the stack; none when the walk is done.
    pub fn next(&mut self) -> (r: Option<PendingPath>)
        requires
            old(self).wf(),
        ensures
            final(self).wf(),
            final(self).bound() == old(self).bound(),
            old(self).stack().len() == 0 ==> r is None && final(self).stack() == old(self).stack(),
            old(self).stack().len() > 0 ==> r == Some(old(self).stack().last())
                && final(self).stack() == old(self).stack().drop_last(),
            r matches Some(p) ==> depth_allowed(p.depth as int, final(self).bound()),
    {
        self.pending.pop()
    }

    /// Hands back the `entries` of a directory at `depth`. They come next,
    /// first entry first, one level deeper; unless that level lies beyond the
    /// bound (or beyond the largest depth), and then none of them is looked at.
    pub fn enter_directory(&mut self, entries: Vec<String>, depth: usize)
        requires
            old(self).wf(),
        ensures
            final(self).wf(),
            final(self).bound() == old(self).bound(),
            depth < usize::MAX && depth_allowed(depth + 1, old(self).bound()) ==> {
                &&& final(self).stack().len() == old(self).stack().len() + entries@.len()
                &&& final(self).stack().subrange(0, old(self).stack().len() as int) == old(self).stack()
                &&& forall|i: int| 0 <= i < entries@.len() ==> #[trigger] final(self).stack()[old(self).stack().len() + i]
                    == (PendingPath { path: entries@[entries@.len() - 1 - i], depth: (depth + 1) as usize })
            },
            !(depth < usize::MAX && depth_allowed(depth + 1, old(self).bound())) ==> final(self).stack() == old(self).stack(),
    {
        if depth == usize::MAX {
            return;
        }
        let next_depth = depth + 1;
        let allowed = match self.max_depth {
            Some(m) => next_depth <= m,
            None => true,
        };
        if !allowed {
            return;
        }
        let ghost before = self.pending@;
        proof {
            assert forall|i: int| 0 <= i < before.len() implies depth_allowed(#[trigger] before[i].depth as int, self.max_depth) by {
                assert(depth_allowed(self.stack()[i].depth as int, self.bound()));
            }
        }
        let mut entries = entries;
        let ghost all = entries@;
        while entries.len() > 0
            invariant
                self.max_depth == old(self).max_depth,
                entries@.len() <= all.len(),
                before.len() <= self.pending@.len(),
                depth_allowed(next_depth as int, self.max_depth),
                next_depth == depth + 1,
                entries@ == all.subrange(0, entries@.len() as int),
                self.pending@.len() == before.len() + all.len() - entries@.len(),
                self.pending@.subrange(0, before.len() as int) == before,
                forall|i: int| 0 <= i < before.len() ==> depth_allowed(#[trigger] before[i].depth as int, self.max_depth),
                forall|i: int| 0 <= i < self.pending@.len() - before.len() ==> #[trigger] self.pending@[before.len() + i]
                    == (PendingPath { path: all[all.len() - 1 - i], depth: next_depth }),
            decreases entries.len(),
        {
            let ghost prev_entries = entries@;
            let p = entries.pop().unwrap();
            let ghost prev = self.pending@;
            self.pending.push(PendingPath { path: p, depth: next_depth });
            proof {
                assert(entries@ =~= all.subrange(0, entries@.len() as int));
                assert(p == all[entries@.len() as int]);
                assert(self.pending@.subrange(0, before.len() as int) =~= prev.subrange(0, before.len() as int));
            }
        }
        proof {
            assert forall|i: int| 0 <= i < self.pending@.len() implies depth_allowed(#[trigger] self.pending@[i].depth as int, self.max_depth) by {
                if i < before.len() {
                    assert(self.pending@.subrange(0, before.len() as int)[i] == before[i]);
                } else {
                    assert(self.pending@[before.len() + (i - before.len())] == self.pending@[i]);
                }
            }
        }
    }
}

/// With a bound of `0` no directory is expanded: every pending path is a
/// root, and entries handed back are dropped.
pub proof fn lemma_depth_zero_only_roots(w: Walker)
    requires
        w.wf(),
        w.bound() == Some(0usize),
    ensures
        forall|i: int| 0 <= i < w.stack().len() ==> #[trigger] w.stack()[i].depth == 0,
        forall|depth: usize| !#[trigger] depth_allowed(depth + 1, w.bound()),
{
    assert forall|i: int| 0 <= i < w.stack().len() implies #[trigger] w.stack()[i].depth == 0 by {
        assert(depth_allowed(w.stack()[i].depth as int, w.bound()));
    }
}

} // verus!
