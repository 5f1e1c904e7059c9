//! Deferred deletion: a queue that keeps resources alive for a fixed
//! number of frames before handing them back for destruction.

use vstd::prelude::*;

verus! {

/// One queued value with its remaining time to live, counted in frames.
#[derive(Debug)]
pub struct Item<T> {
    /// The value kept alive.
    pub value: T,
    /// Remaining frames before the value is released. Always at least 1.
    pub ttl: u32,
}

/// The remaining lifetimes, in queue order.
pub open spec fn ttls_of<T>(items: Seq<Item<T>>) -> Seq<u32> {
    items.map_values(|it: Item<T>| it.ttl)
}

/// Every queued item has at least one frame left: the queue never holds an
/// already-expired item.
pub open spec fn dq_wf<T>(items: Seq<Item<T>>) -> bool {
    forall|i: int| 0 <= i < items.len() ==> (#[trigger] items[i]).ttl >= 1
}

/// One frame step: every lifetime drops by one, and items that reach zero
/// leave the queue.
pub open spec fn spec_next_frame<T>(items: Seq<Item<T>>) -> Seq<Item<T>>
    decreases items.len(),
{
    if items.len() == 0 {
        Seq::empty()
    } else {
        let rest = spec_next_frame(items.drop_last());
        let it = items.last();
        if it.ttl <= 1 {
            rest
        } else {
            rest.push(Item { value: it.value, ttl: (it.ttl - 1) as u32 })
        }
    }
}

/// Deletion queue that stores resources until they are ready to be
/// deleted: each pushed value lives for `max_ttl` calls to
/// [`DeletionQueue::next_frame`].
#[derive(Debug)]
pub struct DeletionQueue<T> {
    max_ttl: u32,
    items: Vec<Item<T>>,
}

impl<T> View for DeletionQueue<T> {
    type V = Seq<Item<T>>;

    closed spec fn view(&self) -> Seq<Item<T>> {
        self.items@
    }
}

impl<T> DeletionQueue<T> {
    /// The number of frames a pushed value is kept alive.
    pub closed spec fn spec_max_ttl(&self) -> u32 {
        self.max_ttl
    }

    /// Create a new deletion queue. Items that are pushed onto this queue
    /// will be kept alive for `max_ttl` calls to
    /// [`DeletionQueue::next_frame`].
    pub fn new(max_ttl: u32) -> (r: DeletionQueue<T>)
        requires
            max_ttl >= 1,
        ensures
            r@ == Seq::<Item<T>>::empty(),
            r.spec_max_ttl() == max_ttl,
            dq_wf(r@),
    {
        let r = DeletionQueue { max_ttl, items: Vec::new() };
        proof {
            assert(r@ =~= Seq::<Item<T>>::empty());
        }
        r
    }

    /// How many items are still alive.
    pub fn len(&self) -> (r: usize)
        ensures
            r == self@.len(),
    {
        self.items.len()
    }

    /// Pushes a value onto the deletion queue. This moves out of the
    /// parameter so the value cannot be used after it is pushed.
    pub fn push(&mut self, value: T)
        requires
            dq_wf(old(self)@),
            old(self).spec_max_ttl() >= 1,
        ensures
            final(self)@ == old(self)@.push(
                Item { value, ttl: old(self).spec_max_ttl() },
            ),
            final(self).spec_max_ttl() == old(self).spec_max_ttl(),
            dq_wf(final(self)@),
    {
        let ghost prev = self.items@;
        let ttl = self.max_ttl;
        self.items.push(Item { value, ttl });
        proof {
            assert forall|i: int| 0 <= i < self@.len() implies (#[trigger] self@[i]).ttl >= 1 by {
                if i < prev.len() {
                    assert(self@[i] == prev[i]);
                }
            }
        }
    }

    /// Advance the frame counter by one, decreasing time to live by one on
    /// each element. Elements whose time to live reaches zero are removed
    /// and returned, in queue order, so the caller can destroy them.
    pub fn next_frame(&mut self) -> (expired: Vec<T>)
        requires
            dq_wf(old(self)@),
        ensures
            final(self)@ == spec_next_frame(old(self)@),
            final(self).spec_max_ttl() == old(self).spec_max_ttl(),
            dq_wf(final(self)@),
            expired@.len() + final(self)@.len() == old(self)@.len(),
    {
        let ghost items0 = self.items@;
        let mut kept: Vec<Item<T>> = Vec::new();
        let mut expired: Vec<T> = Vec::new();
        proof {
            assert(items0.take(0) =~= Seq::<Item<T>>::empty());
            assert(kept@ =~= spec_next_frame(items0.take(0)));
        }
        // Drain the vector from the back into a scratch list, then rebuild
        // front to back; each pop is O(1).
        let mut rest: Vec<Item<T>> = Vec::new();
        core::mem::swap(&mut rest, &mut self.items);
        proof {
            assert(rest@ == items0);
        }
        // Consume from the back so each pop is O(1); indices are tracked
        // against the original order.
        let mut taken: Vec<Item<T>> = Vec::new();
        while rest.len() > 0
            invariant
                taken@.len() + rest@.len() == items0.len(),
                forall|q: int|
                    0 <= q < rest@.len() ==> rest@[q] == items0[q],
                forall|q: int|
                    0 <= q < taken@.len() ==> taken@[q] == items0[items0.len() - 1 - q],
            decreases rest@.len(),
        {
            let ghost rest0 = rest@;
            let it = match rest.pop() {
                Option::Some(it) => it,
                Option::None => {
                    proof {
                        assert(false);
                    }
                    vstd::pervasive::unreached()
                },
            };
            taken.push(it);
            proof {
                assert forall|q: int|
                    0 <= q < taken@.len() implies taken@[q] == items0[items0.len() - 1 - q] by {
                    if q < taken@.len() - 1 {
                    } else {
                        assert(taken@[q] == rest0[rest0.len() - 1]);
                    }
                }
            }
        }
        // Rebuild front to back.
        let mut k: usize = taken.len();
        while k > 0
            invariant
                taken@.len() == k as int,
                k <= items0.len(),
                forall|q: int|
                    0 <= q < taken@.len() ==> taken@[q] == items0[items0.len() - 1 - q],
                dq_wf(items0),
                kept@ == spec_next_frame(items0.take(items0.len() - k as int)),
                kept@.len() + expired@.len() + k as int == items0.len(),
            decreases k,
        {
            let ghost pos = items0.len() - k as int;
            k = k - 1;
            let it = match taken.pop() {
                Option::Some(it) => it,
                Option::None => {
                    proof {
                        assert(false);
                    }
                    vstd::pervasive::unreached()
                },
            };
            proof {
                assert(it == items0[pos]);
                assert(items0.take(pos + 1).drop_last() =~= items0.take(pos));
                assert(items0.take(pos + 1).last() == items0[pos]);
                assert(items0[pos].ttl >= 1);
            }
            if it.ttl <= 1 {
                expired.push(it.value);
            } else {
                let ghost kept_prev = kept@;
                let new_ttl = it.ttl - 1;
                kept.push(Item { value: it.value, ttl: new_ttl });
                proof {
                    assert(kept@ =~= kept_prev.push(
                        Item { value: items0[pos].value, ttl: (items0[pos].ttl - 1) as u32 },
                    ));
                }
            }
            proof {
                assert(kept@ == spec_next_frame(items0.take(pos + 1)));
            }
        }
        proof {
            assert(items0.take(items0.len() as int) =~= items0);
        }
        self.items = kept;
        proof {
            lemma_next_frame_wf(items0);
            lemma_next_frame_len(items0);
        }
        expired
    }
}

/// Every surviving item still has at least one frame left.
proof fn lemma_next_frame_wf<T>(items: Seq<Item<T>>)
    ensures
        dq_wf(spec_next_frame(items)),
    decreases items.len(),
{
    if items.len() > 0 {
        lemma_next_frame_wf(items.drop_last());
        let rest = spec_next_frame(items.drop_last());
        let r = spec_next_frame(items);
        if items.last().ttl > 1 {
            assert forall|i: int| 0 <= i < r.len() implies (#[trigger] r[i]).ttl >= 1 by {
                if i < rest.len() {
                    assert(r[i] == rest[i]);
                }
            }
        }
    }
}

/// A frame step never grows the queue.
proof fn lemma_next_frame_len<T>(items: Seq<Item<T>>)
    ensures
        spec_next_frame(items).len() <= items.len(),
    decreases items.len(),
{
    if items.len() > 0 {
        lemma_next_frame_len(items.drop_last());
    }
}

} // verus!
