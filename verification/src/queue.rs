//! The engine's event queue: a binary min-heap under `ScheduledEvent::before`.

use vstd::prelude::*;
use vstd::multiset::Multiset;
use crate::events::ScheduledEvent;

verus! {

/// Index of the parent of heap slot `i`.
pub open spec fn parent_of(i: int) -> int {
    (i - 1) / 2
}

/// Every slot but the root holds an event that is not before its parent's.
pub open spec fn heap_ordered(s: Seq<ScheduledEvent>) -> bool {
    forall|i: int| 0 < i < s.len() ==> s[parent_of(i)].not_after(#[trigger] s[i])
}

/// The heap order with slot `hole` possibly before its parent: every other
/// slot is ordered, and the slots below `hole` are not before the slot above it.
spec fn ordered_but_up(s: Seq<ScheduledEvent>, hole: int) -> bool {
    &&& forall|i: int|
        0 < i < s.len() && i != hole ==> s[parent_of(i)].not_after(#[trigger] s[i])
    &&& forall|i: int|
        0 < i < s.len() && parent_of(i) == hole && hole > 0 ==> s[parent_of(hole)].not_after(
            #[trigger] s[i],
        )
}

/// The heap order with slot `hole` possibly after its children: every slot
/// whose parent is not `hole` is ordered, and the slots below `hole` are not
/// before the slot above it.
spec fn ordered_but_down(s: Seq<ScheduledEvent>, hole: int) -> bool {
    &&& forall|i: int|
        0 < i < s.len() && parent_of(i) != hole ==> s[parent_of(i)].not_after(#[trigger] s[i])
    &&& forall|i: int|
        0 < i < s.len() && parent_of(i) == hole && hole > 0 ==> s[parent_of(hole)].not_after(
            #[trigger] s[i],
        )
}

proof fn lemma_not_after_chains(a: ScheduledEvent, b: ScheduledEvent, c: ScheduledEvent)
    requires
        a.not_after(b),
        b.not_after(c),
    ensures
        a.not_after(c),
{
}

proof fn lemma_not_before_means_not_after(a: ScheduledEvent, b: ScheduledEvent)
    requires
        !a.before(b),
    ensures
        b.not_after(a),
{
}

/// `e` is a least event of `m`: it is in `m` and nothing in `m` is before it.
pub open spec fn is_least(m: Multiset<ScheduledEvent>, e: ScheduledEvent) -> bool {
    m.contains(e) && forall|x: ScheduledEvent| m.contains(x) ==> !#[trigger] x.before(e)
}

proof fn lemma_root_is_least(s: Seq<ScheduledEvent>, i: int)
    requires
        heap_ordered(s),
        0 <= i < s.len(),
    ensures
        s[0].not_after(s[i]),
    decreases i,
{
    if i > 0 {
        lemma_root_is_least(s, parent_of(i));
        assert(s[parent_of(i)].not_after(s[i]));
    }
}

proof fn lemma_exchange_keeps_contents(s: Seq<ScheduledEvent>, i: int, j: int)
    requires
        0 <= i < s.len(),
        0 <= j < s.len(),
    ensures
        s.update(i, s[j]).update(j, s[i]).to_multiset() == s.to_multiset(),
{
    broadcast use vstd::seq_lib::group_to_multiset_ensures;

    let t = s.update(i, s[j]);
    assert(t.to_multiset() == s.to_multiset().insert(s[j]).remove(s[i]));
    assert(t.update(j, s[i]).to_multiset() == t.to_multiset().insert(s[i]).remove(t[j]));
    assert(s.to_multiset().count(s[i]) > 0) by {
        assert(s.contains(s[i]));
    }
    assert(s.to_multiset().count(s[j]) > 0) by {
        assert(s.contains(s[j]));
    }
    assert(t.update(j, s[i]).to_multiset() =~= s.to_multiset());
}

/// Exchanges two slots of the heap.
fn exchange(v: &mut Vec<ScheduledEvent>, i: usize, j: usize)
    requires
        i < old(v).len(),
        j < old(v).len(),
    ensures
        final(v)@ == old(v)@.update(i as int, old(v)@[j as int]).update(j as int, old(v)@[i as int]),
        final(v)@.to_multiset() == old(v)@.to_multiset(),
{
    let a: ScheduledEvent = v[i];
    let b: ScheduledEvent = v[j];
    v[i] = b;
    v[j] = a;
    proof {
        lemma_exchange_keeps_contents(old(v)@, i as int, j as int);
    }
}

/// Moves the event in slot `start` towards the root until its parent is not after it.
fn sift_up(v: &mut Vec<ScheduledEvent>, start: usize)
    requires
        start < old(v).len(),
        ordered_but_up(old(v)@, start as int),
    ensures
        heap_ordered(final(v)@),
        final(v)@.to_multiset() == old(v)@.to_multiset(),
{
    let mut i: usize = start;
    while i > 0
        invariant
            i < v.len(),
            ordered_but_up(v@, i as int),
            v@.to_multiset() == old(v)@.to_multiset(),
        ensures
            heap_ordered(v@),
            v@.to_multiset() == old(v)@.to_multiset(),
        decreases i,
    {
        let p: usize = (i - 1) / 2;
        if v[i].precedes(&v[p]) {
            let ghost prior = v@;
            exchange(v, i, p);
            proof {
                let s = v@;
                assert forall|k: int| 0 < k < s.len() && k != p implies s[parent_of(k)].not_after(
                    #[trigger] s[k],
                ) by {
                    if k == i {
                    } else if parent_of(k) == i {
                        assert(prior[parent_of(i as int)].not_after(prior[k]));
                    } else if parent_of(k) == p {
                        assert(prior[p as int].not_after(prior[k]));
                        lemma_not_after_chains(prior[i as int], prior[p as int], prior[k]);
                    } else {
                        assert(prior[parent_of(k)].not_after(prior[k]));
                    }
                }
                assert forall|k: int|
                    0 < k < s.len() && parent_of(k) == p && p > 0 implies s[parent_of(
                        p as int,
                    )].not_after(#[trigger] s[k]) by {
                    assert(prior[parent_of(p as int)].not_after(prior[p as int]));
                    if k != i {
                        assert(prior[p as int].not_after(prior[k]));
                        lemma_not_after_chains(
                            prior[parent_of(p as int)],
                            prior[p as int],
                            prior[k],
                        );
                    }
                }
            }
            i = p;
        } else {
            proof {
                let s = v@;
                lemma_not_before_means_not_after(s[i as int], s[p as int]);
                assert forall|k: int| 0 < k < s.len() implies s[parent_of(k)].not_after(
                    #[trigger] s[k],
                ) by {
                    if k == i {
                    }
                }
            }
            break;
        }
    }
}

/// Moves the event in slot `start` away from the root until no child is before it.
fn sift_down(v: &mut Vec<ScheduledEvent>, start: usize)
    requires
        start < old(v).len(),
        ordered_but_down(old(v)@, start as int),
    ensures
        heap_ordered(final(v)@),
        final(v)@.to_multiset() == old(v)@.to_multiset(),
{
    let n: usize = v.len();
    let mut i: usize = start;
    while i < n / 2
        invariant
            n == v.len(),
            i < n,
            ordered_but_down(v@, i as int),
            v@.to_multiset() == old(v)@.to_multiset(),
        ensures
            heap_ordered(v@),
            v@.to_multiset() == old(v)@.to_multiset(),
        decreases n - i,
    {
        let left: usize = 2 * i + 1;
        let right: usize = left + 1;
        let mut least: usize = left;
        if right < n && v[right].precedes(&v[left]) {
            least = right;
        }
        proof {
            if right < n {
                if least == left {
                    lemma_not_before_means_not_after(v@[right as int], v@[left as int]);
                }
            }
        }
        if v[least].precedes(&v[i]) {
            let ghost prior = v@;
            exchange(v, i, least);
            proof {
                let s = v@;
                assert forall|k: int|
                    0 < k < s.len() && parent_of(k) != least implies s[parent_of(k)].not_after(
                        #[trigger] s[k],
                    ) by {
                    if k == i {
                        assert(prior[parent_of(i as int)].not_after(prior[least as int]));
                    } else if parent_of(k) == i {
                        assert(k == left || k == right);
                    } else {
                        assert(prior[parent_of(k)].not_after(prior[k]));
                    }
                }
                assert forall|k: int|
                    0 < k < s.len() && parent_of(k) == least && least > 0 implies s[parent_of(
                        least as int,
                    )].not_after(#[trigger] s[k]) by {
                    assert(prior[parent_of(k)].not_after(prior[k]));
                }
            }
            i = least;
        } else {
            proof {
                let s = v@;
                lemma_not_before_means_not_after(s[least as int], s[i as int]);
                assert forall|k: int| 0 < k < s.len() implies s[parent_of(k)].not_after(
                    #[trigger] s[k],
                ) by {
                    if parent_of(k) == i {
                        assert(k == left || k == right);
                        if k != least {
                            lemma_not_after_chains(s[i as int], s[least as int], s[k]);
                        }
                    }
                }
            }
            break;
        }
    }
}

/// A min-priority queue of scheduled events.
///
/// Its view is the multiset of the events that it holds; `pop` hands out a
/// least one under `ScheduledEvent::before`.
pub struct EventQueue {
    heap: Vec<ScheduledEvent>,
}

impl View for EventQueue {
    type V = Multiset<ScheduledEvent>;

    closed spec fn view(&self) -> Multiset<ScheduledEvent> {
        self.heap@.to_multiset()
    }
}

impl EventQueue {
    #[verifier::type_invariant]
    spec fn well_formed(&self) -> bool {
        heap_ordered(self.heap@)
    }

    pub fn new() -> (queue: Self)
        ensures
            queue@ == Multiset::<ScheduledEvent>::empty(),
    {
        let heap: Vec<ScheduledEvent> = Vec::new();
        proof {
            assert(heap@.to_multiset() =~= Multiset::<ScheduledEvent>::empty()) by {
                broadcast use vstd::seq_lib::group_to_multiset_ensures;

                assert(heap@.to_multiset().len() == 0);
            }
        }
        EventQueue { heap }
    }

    /// Number of events waiting in the queue.
    pub fn len(&self) -> (n: usize)
        ensures
            n == self@.len(),
    {
        proof {
            broadcast use vstd::seq_lib::group_to_multiset_ensures;

        }
        self.heap.len()
    }

    pub fn is_empty(&self) -> (empty: bool)
        ensures
            empty == (self@.len() == 0),
    {
        proof {
            broadcast use vstd::seq_lib::group_to_multiset_ensures;

        }
        self.heap.len() == 0
    }

    /// Adds one event.
    pub fn push(&mut self, event: ScheduledEvent)
        ensures
            final(self)@ == old(self)@.insert(event),
    {
        proof {
            use_type_invariant(&*self);
            broadcast use vstd::seq_lib::group_to_multiset_ensures;

        }
        // The heap is rearranged outside the queue and put back in order.
        let mut heap: Vec<ScheduledEvent> = Vec::new();
        core::mem::swap(&mut self.heap, &mut heap);
        heap.push(event);
        let last: usize = heap.len() - 1;
        sift_up(&mut heap, last);
        core::mem::swap(&mut self.heap, &mut heap);
    }

    /// The event that `pop` would hand out, if there is one.
    pub fn peek(&self) -> (next: Option<ScheduledEvent>)
        ensures
            match next {
                Some(event) => is_least(self@, event),
                None => self@.len() == 0,
            },
    {
        proof {
            use_type_invariant(self);
            broadcast use vstd::seq_lib::group_to_multiset_ensures;

        }
        if self.heap.len() == 0 {
            None
        } else {
            let event: ScheduledEvent = self.heap[0];
            proof {
                lemma_root_is_least_of_contents(self.heap@);
            }
            Some(event)
        }
    }

    /// Takes out a least event; `None` when the queue is empty.
    pub fn pop(&mut self) -> (next: Option<ScheduledEvent>)
        ensures
            match next {
                Some(event) => is_least(old(self)@, event) && final(self)@ == old(self)@.remove(
                    event,
                ),
                None => old(self)@.len() == 0 && final(self)@ == old(self)@,
            },
    {
        proof {
            use_type_invariant(&*self);
            broadcast use vstd::seq_lib::group_to_multiset_ensures;

        }
        if self.heap.len() == 0 {
            return None;
        }
        let ghost prior = self.heap@;
        proof {
            lemma_root_is_least_of_contents(prior);
        }
        let mut heap: Vec<ScheduledEvent> = Vec::new();
        core::mem::swap(&mut self.heap, &mut heap);
        let event: ScheduledEvent = heap.swap_remove(0);
        proof {
            let last = prior.last();
            let moved = prior.update(0, last);
            assert(moved.drop_last() =~= moved.remove(moved.len() - 1));
            assert(prior.contains(last)) by {
                assert(prior[prior.len() - 1] == last);
            }
            assert(prior.contains(event)) by {
                assert(prior[0] == event);
            }
            assert(heap@.to_multiset() =~= prior.to_multiset().remove(event));
        }
        if heap.len() > 0 {
            proof {
                let s = heap@;
                assert forall|k: int| 0 < k < s.len() && parent_of(k) != 0 implies s[parent_of(
                    k,
                )].not_after(#[trigger] s[k]) by {
                    assert(prior[parent_of(k)].not_after(prior[k]));
                }
            }
            sift_down(&mut heap, 0);
        }
        core::mem::swap(&mut self.heap, &mut heap);
        Some(event)
    }
}

proof fn lemma_root_is_least_of_contents(s: Seq<ScheduledEvent>)
    requires
        heap_ordered(s),
        s.len() > 0,
    ensures
        is_least(s.to_multiset(), s[0]),
{
    broadcast use vstd::seq_lib::group_to_multiset_ensures;

    assert(s.contains(s[0]));
    assert forall|x: ScheduledEvent| s.to_multiset().contains(x) implies !#[trigger] x.before(
        s[0],
    ) by {
        assert(s.contains(x));
        let i = choose|i: int| 0 <= i < s.len() && s[i] == x;
        lemma_root_is_least(s, i);
    }
}

} // verus!
