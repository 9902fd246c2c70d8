//! Priority queue of path costs: a binary heap that gives out the least entry.
use vstd::multiset::Multiset;
use vstd::prelude::*;

verus! {

/// Order of queue entries: by cost, then by node.
pub open spec fn entry_le(left: (u64, u32), right: (u64, u32)) -> bool {
    left.0 < right.0 || (left.0 == right.0 && left.1 <= right.1)
}

/// Whether an entry is the least of a multiset.
pub open spec fn is_least(entries: Multiset<(u64, u32)>, entry: (u64, u32)) -> bool {
    entries.contains(entry) && forall|other: (u64, u32)|
        #[trigger] entries.contains(other) ==> entry_le(entry, other)
}

/// A queue of `(cost, node)` entries.
#[derive(Debug)]
pub struct CostHeap {
    entries: Vec<(u64, u32)>,
}

impl View for CostHeap {
    type V = Multiset<(u64, u32)>;

    closed spec fn view(&self) -> Multiset<(u64, u32)> {
        self.entries@.to_multiset()
    }
}

/// Whether the entry at a position is not less than its parent's.
spec fn above(entries: Seq<(u64, u32)>, at: int) -> bool {
    entry_le(entries[(at - 1) / 2], entries[at])
}

spec fn swapped(entries: Seq<(u64, u32)>, i: int, j: int) -> Seq<(u64, u32)> {
    entries.update(i, entries[j]).update(j, entries[i])
}

proof fn lemma_swap_keeps_contents(entries: Seq<(u64, u32)>, i: int, j: int)
    requires
        0 <= i < entries.len(),
        0 <= j < entries.len(),
    ensures
        swapped(entries, i, j).to_multiset() == entries.to_multiset(),
{
    broadcast use vstd::seq_lib::group_to_multiset_ensures;
    let once = entries.update(i, entries[j]);
    vstd::seq_lib::to_multiset_update(entries, i, entries[j]);
    vstd::seq_lib::to_multiset_update(once, j, entries[i]);
    assert(entries.to_multiset().contains(entries[i]));
    assert(entries.to_multiset().contains(entries[j]));
    assert(swapped(entries, i, j).to_multiset() =~= entries.to_multiset());
}

fn swap(entries: &mut Vec<(u64, u32)>, i: usize, j: usize)
    requires
        i < old(entries)@.len(),
        j < old(entries)@.len(),
    ensures
        final(entries)@ == swapped(old(entries)@, i as int, j as int),
        final(entries)@.to_multiset() == old(entries)@.to_multiset(),
{
    proof {
        lemma_swap_keeps_contents(entries@, i as int, j as int);
    }
    let left: (u64, u32) = entries[i];
    let right: (u64, u32) = entries[j];
    entries[i] = right;
    entries[j] = left;
}

fn less(left: (u64, u32), right: (u64, u32)) -> (result: bool)
    ensures
        result == !entry_le(right, left),
{
    left.0 < right.0 || (left.0 == right.0 && left.1 < right.1)
}

impl CostHeap {
    /// Whether the entries form a heap.
    pub closed spec fn wf(&self) -> bool {
        forall|j: int| 0 < j < self.entries@.len() ==> #[trigger] above(self.entries@, j)
    }

    /// An empty queue.
    pub fn new() -> (heap: Self)
        ensures
            heap.wf(),
            heap@ == Multiset::<(u64, u32)>::empty(),
    {
        let heap = CostHeap { entries: Vec::new() };
        proof {
            broadcast use vstd::seq_lib::group_to_multiset_ensures;
            assert(heap@ =~= Multiset::<(u64, u32)>::empty());
        }
        heap
    }

    /// Adds an entry.
    pub fn push(&mut self, entry: (u64, u32))
        requires
            old(self).wf(),
        ensures
            final(self).wf(),
            final(self)@ == old(self)@.insert(entry),
    {
        let ghost before = self.entries@;
        self.entries.push(entry);
        proof {
            broadcast use vstd::seq_lib::group_to_multiset_ensures;
            assert(self.entries@.to_multiset() =~= before.to_multiset().insert(entry));
            assert forall|j: int|
                0 < j < self.entries@.len() && j != self.entries@.len() - 1 implies #[trigger] above(
                self.entries@,
                j,
            ) by {
                assert(above(before, j));
            }
        }
        let mut at: usize = self.entries.len() - 1;
        while at > 0 && less(self.entries[at], self.entries[(at - 1) / 2])
            invariant
                at < self.entries@.len(),
                self.entries@.to_multiset() == before.to_multiset().insert(entry),
                forall|j: int|
                    0 < j < self.entries@.len() && j != at ==> #[trigger] above(self.entries@, j),
                forall|j: int|
                    0 < j < self.entries@.len() && (j - 1) / 2 == at && at > 0 ==> entry_le(
                        self.entries@[(at - 1) / 2],
                        #[trigger] self.entries@[j],
                    ),
            decreases at,
        {
            let parent: usize = (at - 1) / 2;
            let ghost old_entries = self.entries@;
            swap(&mut self.entries, at, parent);
            proof {
                let now = self.entries@;
                assert forall|j: int| 0 < j < now.len() && j != parent implies #[trigger] above(
                    now,
                    j,
                ) by {
                    if j != at {
                        assert(above(old_entries, j));
                        if (j - 1) / 2 == at {
                            assert(entry_le(old_entries[parent as int], old_entries[j]));
                        } else if (j - 1) / 2 == parent {
                            assert(entry_le(old_entries[parent as int], old_entries[j]));
                        }
                    }
                }
                assert forall|j: int|
                    0 < j < now.len() && (j - 1) / 2 == parent && parent > 0 implies entry_le(
                    now[(parent - 1) / 2],
                    #[trigger] now[j],
                ) by {
                    assert(above(old_entries, parent as int));
                    if j != at {
                        assert(above(old_entries, j));
                    }
                }
            }
            at = parent;
        }
        proof {
            assert forall|j: int| 0 < j < self.entries@.len() implies #[trigger] above(
                self.entries@,
                j,
            ) by {
                if j == at {
                    assert(!(!entry_le(self.entries@[(at - 1) / 2], self.entries@[at as int])));
                }
            }
        }
    }

    proof fn lemma_root_is_least(&self, at: int)
        requires
            self.wf(),
            0 <= at < self.entries@.len(),
        ensures
            entry_le(self.entries@[0], self.entries@[at]),
        decreases at,
    {
        if at > 0 {
            assert(above(self.entries@, at));
            self.lemma_root_is_least((at - 1) / 2);
        }
    }

    /// Takes out the least entry.
    pub fn pop(&mut self) -> (entry: Option<(u64, u32)>)
        requires
            old(self).wf(),
        ensures
            final(self).wf(),
            entry is None <==> old(self)@.len() == 0,
            entry is None ==> final(self)@ == old(self)@,
            entry matches Some(value) ==> is_least(old(self)@, value) && final(self)@ == old(
                self,
            )@.remove(value),
    {
        let ghost start = self.entries@;
        proof {
            broadcast use vstd::seq_lib::group_to_multiset_ensures;
            assert(self@.len() == start.len());
        }
        if self.entries.len() == 0 {
            return None;
        }
        let last: usize = self.entries.len() - 1;
        let entry: (u64, u32) = self.entries[0];
        proof {
            broadcast use vstd::seq_lib::group_to_multiset_ensures;
            assert forall|other: (u64, u32)| #[trigger] self@.contains(other) implies entry_le(
                entry,
                other,
            ) by {
                assert(start.contains(other));
                let i = choose|i: int| 0 <= i < start.len() && start[i] == other;
                self.lemma_root_is_least(i);
            }
            assert(start.contains(entry));
            assert(is_least(self@, entry));
        }
        swap(&mut self.entries, 0, last);
        let ghost moved = self.entries@;
        self.entries.pop();
        proof {
            broadcast use vstd::seq_lib::group_to_multiset_ensures;
            assert(moved =~= self.entries@.push(entry));
            assert(moved.to_multiset() =~= self.entries@.to_multiset().insert(entry));
            assert(self.entries@.to_multiset() =~= start.to_multiset().remove(entry));
            assert forall|j: int|
                0 < j < self.entries@.len() && (j - 1) / 2 != 0 implies #[trigger] above(
                self.entries@,
                j,
            ) by {
                assert(above(start, j));
            }
        }
        let length: usize = self.entries.len();
        let mut at: usize = 0;
        while at < length / 2
            invariant_except_break
                at <= length,
            invariant
                length == self.entries@.len(),
                self.entries@.to_multiset() == start.to_multiset().remove(entry),
                forall|j: int|
                    0 < j < self.entries@.len() && (j - 1) / 2 != at ==> #[trigger] above(
                        self.entries@,
                        j,
                    ),
                forall|j: int|
                    0 < j < self.entries@.len() && (j - 1) / 2 == at && at > 0 ==> entry_le(
                        self.entries@[(at - 1) / 2],
                        #[trigger] self.entries@[j],
                    ),
            ensures
                forall|j: int|
                    0 < j < self.entries@.len() ==> #[trigger] above(self.entries@, j),
            decreases length - at,
        {
            let left: usize = 2 * at + 1;
            let right: usize = left + 1;
            let child: usize = if right < length && less(self.entries[right], self.entries[left]) {
                right
            } else {
                left
            };
            if !less(self.entries[child], self.entries[at]) {
                proof {
                    assert forall|j: int| 0 < j < self.entries@.len() implies #[trigger] above(
                        self.entries@,
                        j,
                    ) by {
                        if (j - 1) / 2 == at {
                            assert(j == left || j == right);
                        }
                    }
                }
                break ;
            }
            let ghost old_entries = self.entries@;
            swap(&mut self.entries, at, child);
            proof {
                let now = self.entries@;
                assert forall|j: int|
                    0 < j < now.len() && (j - 1) / 2 != child implies #[trigger] above(now, j) by {
                    if (j - 1) / 2 == at {
                        assert(j == left || j == right);
                    } else if j == at {
                        assert(entry_le(old_entries[(at - 1) / 2], old_entries[child as int]));
                    } else {
                        assert(above(old_entries, j));
                    }
                }
                assert forall|j: int|
                    0 < j < now.len() && (j - 1) / 2 == child && child > 0 implies entry_le(
                    now[(child - 1) / 2],
                    #[trigger] now[j],
                ) by {
                    assert(above(old_entries, j));
                }
            }
            at = child;
        }
        Some(entry)
    }
}

} // verus!
