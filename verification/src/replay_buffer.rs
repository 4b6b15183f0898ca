//! The bounded experience-replay buffer: a FIFO store of replay steps with
//! a capacity fixed at construction; once full, the oldest entry leaves
//! first. Supports sampling a batch without replacement.

use vstd::prelude::*;

verus! {

use std::collections::VecDeque;
use crate::replay::{ReplayStep, ReplayStepView};
use crate::rng::rand_below;

/// What one insertion does to the stored sequence: append, evicting the
/// oldest entry first when the buffer is at capacity.
pub open spec fn buffer_push(
    cap: int,
    buf: Seq<ReplayStepView>,
    step: ReplayStepView,
) -> Seq<ReplayStepView> {
    if buf.len() >= cap {
        buf.drop_first().push(step)
    } else {
        buf.push(step)
    }
}

/// The buffer contents after inserting `items` in order into an empty
/// buffer of capacity `cap`.
pub open spec fn buffer_after(cap: int, items: Seq<ReplayStepView>) -> Seq<ReplayStepView>
    decreases items.len(),
{
    if items.len() == 0 {
        Seq::empty()
    } else {
        buffer_push(cap, buffer_after(cap, items.drop_last()), items.last())
    }
}

/// The FIFO law: a buffer of capacity `cap` holds exactly the last `cap` of
/// the items ever inserted — after `cap + 1` distinct insertions, the very
/// first item is gone.
pub proof fn lemma_buffer_fifo(cap: int, items: Seq<ReplayStepView>)
    requires
        1 <= cap,
    ensures
        buffer_after(cap, items).len() == vstd::math::min(cap, items.len() as int),
        buffer_after(cap, items) == items.skip(
            vstd::math::max(0, items.len() - cap),
        ),
    decreases items.len(),
{
    if items.len() == 0 {
        assert(buffer_after(cap, items) =~= items.skip(0));
    } else {
        let dl = items.drop_last();
        lemma_buffer_fifo(cap, dl);
        let pre = buffer_after(cap, dl);
        if pre.len() >= cap {
            assert(pre.drop_first().push(items.last()) =~= items.skip(items.len() - cap));
        } else {
            assert(pre.push(items.last()) =~= items.skip(
                vstd::math::max(0, items.len() - cap),
            ));
        }
    }
}

/// A bounded FIFO store of replay steps.
#[derive(Debug)]
pub struct ReplayBuffer {
    items: VecDeque<ReplayStep>,
    capacity: usize,
}

impl View for ReplayBuffer {
    type V = Seq<ReplayStepView>;

    closed spec fn view(&self) -> Seq<ReplayStepView> {
        self.items@.map_values(|s: ReplayStep| s@)
    }
}

impl ReplayBuffer {
    /// The fixed capacity this buffer was built with.
    pub closed spec fn spec_capacity(&self) -> int {
        self.capacity as int
    }

    pub open spec fn wf(&self) -> bool {
        &&& 1 <= self.spec_capacity()
        &&& self@.len() <= self.spec_capacity()
    }

    pub fn new(capacity: usize) -> (r: ReplayBuffer)
        requires
            1 <= capacity,
        ensures
            r.wf(),
            r.spec_capacity() == capacity,
            r@ == Seq::<ReplayStepView>::empty(),
    {
        let r = ReplayBuffer { items: VecDeque::new(), capacity };
        proof {
            assert(r@ =~= Seq::<ReplayStepView>::empty());
        }
        r
    }

    pub fn capacity(&self) -> (r: usize)
        ensures
            r == self.spec_capacity(),
    {
        self.capacity
    }

    pub fn len(&self) -> (r: usize)
        ensures
            r == self@.len(),
    {
        self.items.len()
    }

    pub fn is_empty(&self) -> (r: bool)
        ensures
            r == (self@.len() == 0),
    {
        self.items.len() == 0
    }

    /// Insert one step, evicting the oldest first when at capacity.
    pub fn push(&mut self, step: ReplayStep)
        requires
            old(self).wf(),
        ensures
            final(self).wf(),
            final(self).spec_capacity() == old(self).spec_capacity(),
            final(self)@ == buffer_push(old(self).spec_capacity(), old(self)@, step@),
    {
        if self.items.len() > 0 && self.capacity <= self.items.len() {
            let ghost pre = self.items@;
            self.items.pop_front();
            proof {
                assert(self.items@.map_values(|s: ReplayStep| s@) =~= pre.map_values(
                    |s: ReplayStep| s@,
                ).drop_first());
            }
        }
        let ghost mid = self.items@;
        self.items.push_back(step);
        proof {
            assert(self.items@.map_values(|s: ReplayStep| s@) =~= mid.map_values(
                |s: ReplayStep| s@,
            ).push(step@));
        }
    }

    /// A batch of `batch_size` distinct entries chosen without replacement;
    /// the whole buffer, in order, when it holds fewer than that.
    pub fn sample(&self, batch_size: usize) -> (r: Vec<ReplayStep>)
        requires
            self.wf(),
        ensures
            self@.len() <= batch_size ==> r@.len() == self@.len() && (forall|i: int|
                0 <= i < r@.len() ==> (#[trigger] r@[i])@ == self@[i]),
            batch_size < self@.len() ==> r@.len() == batch_size && (exists|picks: Seq<int>|
                {
                    &&& picks.no_duplicates()
                    &&& picks.len() == batch_size
                    &&& (forall|i: int|
                        0 <= i < picks.len() ==> 0 <= #[trigger] picks[i] < self@.len())
                    &&& (forall|i: int|
                        0 <= i < picks.len() ==> (#[trigger] r@[i])@ == self@[picks[i]])
                }),
    {
        let len = self.items.len();
        let mut r: Vec<ReplayStep> = Vec::new();
        if len <= batch_size {
            let mut i: usize = 0;
            while i < len
                invariant
                    i <= len,
                    len == self@.len(),
                    r@.len() == i,
                    forall|k: int| 0 <= k < i ==> (#[trigger] r@[k])@ == self@[k],
                decreases len - i,
            {
                r.push(self.items[i].clone());
                i = i + 1;
            }
            return r;
        }
        // choose distinct positions by a partial shuffle of the index list
        let mut indices: Vec<usize> = Vec::new();
        let mut i: usize = 0;
        while i < len
            invariant
                i <= len,
                indices@.len() == i,
                forall|k: int| 0 <= k < i ==> (#[trigger] indices@[k]) == k,
            decreases len - i,
        {
            indices.push(i);
            i = i + 1;
        }
        proof {
            assert(indices@.no_duplicates());
        }
        let mut t: usize = 0;
        while t < batch_size
            invariant
                t <= batch_size,
                batch_size < len,
                len == self@.len(),
                indices@.len() == len,
                indices@.no_duplicates(),
                forall|k: int| 0 <= k < len ==> (#[trigger] indices@[k]) < len,
                r@.len() == t,
                forall|k: int| 0 <= k < t ==> (#[trigger] r@[k])@ == self@[indices@[k] as int],
            decreases batch_size - t,
        {
            let j = t + rand_below(len - t);
            let a = indices[t];
            let b = indices[j];
            indices[t] = b;
            indices[j] = a;
            proof {
                assert(indices@.no_duplicates()) by {
                    assert forall|p: int, q: int|
                        0 <= p < indices@.len() && 0 <= q < indices@.len() && p != q implies
                        indices@[p] != indices@[q] by {}
                }
                assert forall|k: int| 0 <= k < t implies (#[trigger] r@[k])@ == self@[indices@[k] as int] by {}
                assert forall|k: int| 0 <= k < len implies (#[trigger] indices@[k]) < len by {}
                assert(indices@[t as int] < len);
            }
            let pos = indices[t];
            proof {
                assert(pos == indices@[t as int]);
                assert((pos as int) < self@.len());
            }
            r.push(self.items[pos].clone());
            t = t + 1;
        }
        proof {
            let picks = Seq::new(batch_size as nat, |i: int| indices@[i] as int);
            assert(picks.no_duplicates()) by {
                assert forall|p: int, q: int|
                    0 <= p < picks.len() && 0 <= q < picks.len() && p != q implies picks[p]
                    != picks[q] by {
                    assert(indices@[p] != indices@[q]);
                }
            }
            assert(forall|i: int| 0 <= i < picks.len() ==> 0 <= #[trigger] picks[i] < self@.len());
            assert(forall|i: int| 0 <= i < picks.len() ==> (#[trigger] r@[i])@ == self@[picks[i]]);
        }
        r
    }
}

} // verus!
