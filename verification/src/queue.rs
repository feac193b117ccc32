use vstd::multiset::Multiset;
use vstd::prelude::*;
use vstd::seq_lib::{to_multiset_build, to_multiset_contains, to_multiset_remove, to_multiset_update};

verus! {

/// An entry of the queue: an edge and the scale it was queued with.
#[derive(Clone, Copy, Debug, PartialEq, Eq, Structural)]
pub struct QueueEntry {
    pub weight: u64,
    pub edge: usize,
}

/// A priority queue of edges that hands out an entry of least weight first.
/// Entries of equal weight come out in no particular order.
pub struct EdgeQueue {
    heap: Vec<QueueEntry>,
}

/// Whether every entry but the first is at least as heavy as the entry at
/// half its position.
pub open spec fn heap_ordered(heap: Seq<QueueEntry>) -> bool {
    forall|i: int| 1 <= i < heap.len() ==> heap[(i - 1) / 2].weight <= (#[trigger] heap[i]).weight
}

/// Whether the heap order holds between every entry and the entry at half
/// its position, except for the pairs whose upper entry is at `hole`.
spec fn ordered_below(heap: Seq<QueueEntry>, hole: int) -> bool {
    forall|i: int|
        1 <= i < heap.len() && (i - 1) / 2 != hole ==> heap[(i - 1) / 2].weight <= (
        #[trigger] heap[i]).weight
}

/// Whether the heap order holds between every entry and the entry at half
/// its position, except for the pair whose lower entry is at `hole`.
spec fn ordered_above(heap: Seq<QueueEntry>, hole: int) -> bool {
    forall|i: int|
        1 <= i < heap.len() && i != hole ==> heap[(i - 1) / 2].weight <= (#[trigger] heap[i]).weight
}

/// In an ordered heap no entry is lighter than the first.
proof fn lemma_first_is_least(heap: Seq<QueueEntry>, i: int)
    requires
        heap_ordered(heap),
        0 <= i < heap.len(),
    ensures
        heap[0].weight <= heap[i].weight,
    decreases i,
{
    if i > 0 {
        lemma_first_is_least(heap, (i - 1) / 2);
    }
}

/// Exchanging two entries keeps the entries of a sequence, counted with
/// their multiplicity.
proof fn lemma_exchange(heap: Seq<QueueEntry>, i: int, j: int)
    requires
        0 <= i < heap.len(),
        0 <= j < heap.len(),
    ensures
        heap.update(i, heap[j]).update(j, heap[i]).to_multiset() == heap.to_multiset(),
{
    to_multiset_update(heap, i, heap[j]);
    to_multiset_update(heap.update(i, heap[j]), j, heap[i]);
    to_multiset_contains(heap, heap[j]);
    to_multiset_contains(heap, heap[i]);
    assert(heap.contains(heap[j]));
    assert(heap.contains(heap[i]));
    assert(heap.update(i, heap[j]).update(j, heap[i]).to_multiset() =~= heap.to_multiset());
}

impl EdgeQueue {
    /// The entries of the queue, counted with their multiplicity.
    pub closed spec fn view(&self) -> Multiset<QueueEntry> {
        self.heap@.to_multiset()
    }

    /// The queue keeps its entries in heap order.
    pub closed spec fn wf(&self) -> bool {
        heap_ordered(self.heap@)
    }

    /// A queue without entries.
    pub fn new() -> (res: Self)
        ensures
            res.wf(),
            res@ == Multiset::<QueueEntry>::empty(),
    {
        let res = EdgeQueue { heap: Vec::new() };
        proof {
            assert(res.heap@.to_multiset() =~= Multiset::<QueueEntry>::empty()) by {
                broadcast use vstd::seq_lib::group_to_multiset_ensures;

            }
        }
        res
    }

    /// The number of entries.
    pub fn len(&self) -> (res: usize)
        ensures
            res == self@.len(),
    {
        proof {
            vstd::seq_lib::to_multiset_len(self.heap@);
        }
        self.heap.len()
    }

    /// Adds an entry.
    pub fn push(&mut self, entry: QueueEntry)
        requires
            old(self).wf(),
        ensures
            final(self).wf(),
            final(self)@ == old(self)@.insert(entry),
            forall|other: QueueEntry|
                final(self)@.contains(other) <==> other == entry || old(self)@.contains(other),
    {
        self.heap.push(entry);
        proof {
            to_multiset_build(old(self).heap@, entry);
            assert forall|other: QueueEntry|
                old(self).heap@.to_multiset().insert(entry).contains(other) <==> other == entry
                    || old(self).heap@.to_multiset().contains(other) by {
                broadcast use vstd::multiset::group_multiset_axioms;

            }
        }
        let ghost pushed = self.heap@;
        let mut i: usize = self.heap.len() - 1;
        while i > 0 && self.heap[(i - 1) / 2].weight > self.heap[i].weight
            invariant
                0 <= i < self.heap@.len(),
                self.heap@.to_multiset() == pushed.to_multiset(),
                ordered_above(self.heap@, i as int),
                forall|k: int|
                    1 <= k < self.heap@.len() && (k - 1) / 2 == i && i > 0 ==> self.heap@[(i - 1)
                        / 2].weight <= (#[trigger] self.heap@[k]).weight,
            decreases i,
        {
            let up: usize = (i - 1) / 2;
            let ghost before = self.heap@;
            let low = self.heap[i];
            let high = self.heap[up];
            self.heap[i] = high;
            self.heap[up] = low;
            proof {
                lemma_exchange(before, i as int, up as int);
                assert(self.heap@ =~= before.update(i as int, before[up as int]).update(
                    up as int,
                    before[i as int],
                ));
                assert forall|k: int| 1 <= k < self.heap@.len() && k != up implies self.heap@[(k
                    - 1) / 2].weight <= (#[trigger] self.heap@[k]).weight by {
                    if k == i {
                    } else if (k - 1) / 2 == i {
                        assert(before[(i - 1) / 2].weight <= before[k].weight);
                    } else if (k - 1) / 2 == up {
                        assert(before[(k - 1) / 2].weight <= before[k].weight);
                    } else {
                        assert(before[(k - 1) / 2].weight <= before[k].weight);
                    }
                }
                assert forall|k: int|
                    1 <= k < self.heap@.len() && (k - 1) / 2 == up && up
                        > 0 implies self.heap@[(up - 1) / 2].weight <= (
                #[trigger] self.heap@[k]).weight by {
                    assert(before[(up - 1) / 2].weight <= before[up as int].weight);
                    if k != i {
                        assert(before[(k - 1) / 2].weight <= before[k].weight);
                    }
                }
            }
            i = up;
        }
    }

    /// Takes out an entry of least weight, if the queue has any.
    pub fn pop(&mut self) -> (res: Option<QueueEntry>)
        requires
            old(self).wf(),
        ensures
            final(self).wf(),
            res.is_none() <==> old(self)@.len() == 0,
            res.is_none() ==> final(self)@ == old(self)@,
            res.is_none() ==> forall|other: QueueEntry| !old(self)@.contains(other),
            res.is_some() ==> {
                &&& old(self)@.contains(res.unwrap())
                &&& final(self)@ == old(self)@.remove(res.unwrap())
                &&& final(self)@.len() + 1 == old(self)@.len()
                &&& forall|other: QueueEntry|
                    old(self)@.contains(other) ==> res.unwrap().weight <= other.weight
                &&& forall|other: QueueEntry|
                    final(self)@.contains(other) ==> old(self)@.contains(other)
                &&& forall|other: QueueEntry|
                    old(self)@.contains(other) && other != res.unwrap() ==> final(self)@.contains(
                        other,
                    )
            },
    {
        proof {
            vstd::seq_lib::to_multiset_len(self.heap@);
            assert forall|other: QueueEntry|
                old(self)@.contains(other) implies old(self)@.len() > 0 by {
                broadcast use vstd::multiset::group_multiset_axioms;

            }
            assert forall|taken: QueueEntry, other: QueueEntry|
                old(self)@.contains(taken) implies (#[trigger] old(self)@.remove(taken).contains(
                other,
            ) ==> old(self)@.contains(other)) && (old(self)@.contains(other) && other != taken
                ==> old(self)@.remove(taken).contains(other)) && old(self)@.remove(taken).len() + 1
                == old(self)@.len() by {
                broadcast use vstd::multiset::group_multiset_axioms;

            }
        }
        let len = self.heap.len();
        if len == 0 {
            return None;
        }
        let ghost full = self.heap@;
        let top = self.heap[0];
        proof {
            assert forall|other: QueueEntry| full.to_multiset().contains(other) implies top.weight
                <= other.weight by {
                to_multiset_contains(full, other);
                let i = choose|i: int| 0 <= i < full.len() && full[i] == other;
                lemma_first_is_least(full, i);
            }
            to_multiset_contains(full, top);
            assert(full.contains(top));
        }
        let last = self.heap.pop().unwrap();
        proof {
            to_multiset_remove(full, len as int - 1);
            assert(full.remove(len as int - 1) =~= self.heap@);
        }
        if len == 1 {
            return Some(top);
        }
        let ghost cut = self.heap@;
        self.heap[0] = last;
        proof {
            to_multiset_update(cut, 0, last);
            assert(self.heap@.to_multiset() =~= full.to_multiset().remove(top)) by {
                assert(cut.to_multiset() == full.to_multiset().remove(last));
                assert(full.contains(last)) by {
                    assert(full[len as int - 1] == last);
                }
                to_multiset_contains(full, last);
            }
        }
        let ghost refilled = self.heap@;
        let size: usize = len - 1;
        let mut i: usize = 0;
        loop
            invariant_except_break
                0 <= i < size,
                size == self.heap@.len(),
                self.heap@.to_multiset() == refilled.to_multiset(),
                ordered_below(self.heap@, i as int),
                forall|k: int|
                    1 <= k < size && (k - 1) / 2 == i && i > 0 ==> self.heap@[(i - 1) / 2].weight
                        <= (#[trigger] self.heap@[k]).weight,
            ensures
                size == self.heap@.len(),
                self.heap@.to_multiset() == refilled.to_multiset(),
                heap_ordered(self.heap@),
            decreases size - i,
        {
            if i >= (size - 1) / 2 + 1 {
                // No entry has its upper entry at `i`.
                assert(heap_ordered(self.heap@)) by {
                    assert forall|k: int| 1 <= k < self.heap@.len() implies self.heap@[(k - 1)
                        / 2].weight <= (#[trigger] self.heap@[k]).weight by {
                        assert((k - 1) / 2 != i);
                    }
                }
                break ;
            }
            let left: usize = 2 * i + 1;
            if left >= size {
                assert(heap_ordered(self.heap@)) by {
                    assert forall|k: int| 1 <= k < self.heap@.len() implies self.heap@[(k - 1)
                        / 2].weight <= (#[trigger] self.heap@[k]).weight by {
                        assert((k - 1) / 2 != i);
                    }
                }
                break ;
            }
            let right: usize = left + 1;
            let mut least: usize = left;
            if right < size && self.heap[right].weight < self.heap[left].weight {
                least = right;
            }
            if self.heap[i].weight <= self.heap[least].weight {
                assert(heap_ordered(self.heap@)) by {
                    assert forall|k: int| 1 <= k < self.heap@.len() implies self.heap@[(k - 1)
                        / 2].weight <= (#[trigger] self.heap@[k]).weight by {
                        if (k - 1) / 2 == i {
                            assert(k == left || k == right);
                        }
                    }
                }
                break ;
            }
            let ghost before = self.heap@;
            let high = self.heap[i];
            let low = self.heap[least];
            self.heap[i] = low;
            self.heap[least] = high;
            proof {
                lemma_exchange(before, i as int, least as int);
                assert(self.heap@ =~= before.update(i as int, before[least as int]).update(
                    least as int,
                    before[i as int],
                ));
                assert forall|k: int|
                    1 <= k < self.heap@.len() && (k - 1) / 2 != least implies self.heap@[(k - 1)
                        / 2].weight <= (#[trigger] self.heap@[k]).weight by {
                    if (k - 1) / 2 == i {
                        assert(k == left || k == right);
                    } else if k == i {
                        assert(before[(i - 1) / 2].weight <= before[least as int].weight);
                    } else {
                        assert(before[(k - 1) / 2].weight <= before[k].weight);
                    }
                }
                assert forall|k: int|
                    1 <= k < size && (k - 1) / 2 == least && least > 0 implies self.heap@[(least
                        - 1) / 2].weight <= (#[trigger] self.heap@[k]).weight by {
                    assert(before[(k - 1) / 2].weight <= before[k].weight);
                }
            }
            i = least;
        }
        Some(top)
    }
}

} // verus!
