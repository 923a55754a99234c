//! A binary min-heap of flood entries `(cost, index, label)` ordered
//! lexicographically, as the priority flood of the watershed kernel needs.
use vstd::prelude::*;
use vstd::multiset::Multiset;

verus! {

broadcast use vstd::seq_lib::group_to_multiset_ensures, vstd::multiset::group_multiset_axioms;

/// One flood entry: path cost, pixel index and marker label.
pub type Entry = (u32, u32, u32);

/// Lexicographic order on flood entries.
pub open spec fn entry_le(a: Entry, b: Entry) -> bool {
    a.0 < b.0 || (a.0 == b.0 && (a.1 < b.1 || (a.1 == b.1 && a.2 <= b.2)))
}

fn entry_le_exec(a: Entry, b: Entry) -> (r: bool)
    ensures
        r == entry_le(a, b),
{
    a.0 < b.0 || (a.0 == b.0 && (a.1 < b.1 || (a.1 == b.1 && a.2 <= b.2)))
}

/// Parent position of a heap slot.
pub open spec fn parent(i: int) -> int {
    (i - 1) / 2
}

/// Every entry is no smaller than its parent.
pub open spec fn heap_ordered(s: Seq<Entry>) -> bool {
    forall|i: int| 0 < i < s.len() ==> entry_le(#[trigger] s[parent(i)], s[i])
}

proof fn lemma_root_is_minimum(s: Seq<Entry>, i: int)
    requires
        heap_ordered(s),
        0 <= i < s.len(),
    ensures
        entry_le(s[0], s[i]),
    decreases i,
{
    if i > 0 {
        lemma_root_is_minimum(s, parent(i));
        assert(entry_le(s[parent(i)], s[i]));
    }
}

pub struct FloodQueue {
    items: Vec<Entry>,
}

impl FloodQueue {
    #[verifier::type_invariant]
    spec fn ordered(self) -> bool {
        heap_ordered(self.items@)
    }

    /// The queued entries.
    pub closed spec fn view(&self) -> Multiset<Entry> {
        self.items@.to_multiset()
    }

    /// Number of queued entries.
    pub closed spec fn size(&self) -> nat {
        self.items@.len()
    }

    /// An empty queue.
    pub fn new() -> (r: Self)
        ensures
            r.view() == Multiset::<Entry>::empty(),
            r.size() == 0,
    {
        let r = FloodQueue { items: Vec::new() };
        proof {
            assert(r.items@.to_multiset() =~= Multiset::<Entry>::empty());
        }
        r
    }

    /// Number of queued entries.
    pub fn len(&self) -> (r: usize)
        ensures
            r == self.size(),
            r == self.view().len(),
    {
        self.items.len()
    }

    /// Queue one entry.
    pub fn push(&mut self, entry: Entry)
        ensures
            final(self).view() == old(self).view().insert(entry),
            final(self).size() == old(self).size() + 1,
    {
        proof {
            use_type_invariant(&*self);
        }
        let mut items: Vec<Entry> = Vec::new();
        std::mem::swap(&mut items, &mut self.items);
        let ghost original = items@;
        items.push(entry);
        let mut k: usize = items.len() - 1;
        while k > 0
            invariant
                0 <= k < items@.len(),
                items@.len() == original.len() + 1,
                items@.to_multiset() == original.to_multiset().insert(entry),
                forall|i: int| 0 < i < items@.len() && i != k ==> entry_le(#[trigger] items@[parent(i)], items@[i]),
                k > 0 ==> forall|c: int|
                    0 < c < items@.len() && parent(c) == k ==> entry_le(items@[parent(k as int)], #[trigger] items@[c]),
            ensures
                items@.len() == original.len() + 1,
                items@.to_multiset() == original.to_multiset().insert(entry),
                heap_ordered(items@),
            decreases k,
        {
            let p = (k - 1) / 2;
            if entry_le_exec(items[p], items[k]) {
                proof {
                    assert forall|i: int| 0 < i < items@.len() implies entry_le(#[trigger] items@[parent(i)], items@[i]) by {
                        if i == k as int {
                            assert(parent(i) == p as int);
                        }
                    }
                }
                break;
            }
            let ghost before = items@;
            let upper = items[p];
            let lower = items[k];
            items.set(p, lower);
            items.set(k, upper);
            proof {
                crate::raster::lemma_swap_preserves_multiset(before, p as int, k as int);
                assert(items@ == before.update(p as int, before[k as int]).update(k as int, before[p as int]));
                assert forall|i: int| 0 < i < items@.len() && i != p as int implies entry_le(#[trigger] items@[parent(i)], items@[i]) by {
                    if i == k as int {
                        assert(parent(i) == p as int);
                    } else if parent(i) == k as int {
                        assert(entry_le(before[p as int], before[i]));
                    } else if parent(i) == p as int {
                        assert(entry_le(before[p as int], before[i]));
                    } else if i != p as int {
                        assert(items@[i] == before[i]);
                    }
                }
                if p > 0 {
                    assert forall|c: int| 0 < c < items@.len() && parent(c) == p as int implies entry_le(
                        items@[parent(p as int)],
                        #[trigger] items@[c],
                    ) by {
                        assert(entry_le(before[parent(p as int)], before[p as int]));
                        if c != k as int {
                            assert(entry_le(before[p as int], before[c]));
                        }
                    }
                }
            }
            k = p;
        }
        self.items = items;
    }

    /// Remove and return a least entry, or `None` when empty.
    pub fn pop(&mut self) -> (r: Option<Entry>)
        ensures
            old(self).size() == 0 ==> r is None && final(self).view() == old(self).view(),
            old(self).size() > 0 ==> (r matches Some(e) && old(self).view().contains(e) && final(self).view()
                == old(self).view().remove(e) && forall|x: Entry| #[trigger] old(self).view().contains(x) ==> entry_le(e, x)),
            final(self).size() == (if old(self).size() == 0 { 0 } else { old(self).size() - 1 }),
    {
        proof {
            use_type_invariant(&*self);
        }
        if self.items.len() == 0 {
            return None;
        }
        let mut items: Vec<Entry> = Vec::new();
        std::mem::swap(&mut items, &mut self.items);
        let ghost original = items@;
        let top = items[0];
        proof {
            assert forall|x: Entry| #[trigger] original.to_multiset().contains(x) implies entry_le(top, x) by {
                assert(original.contains(x));
                let i = choose|i: int| 0 <= i < original.len() && original[i] == x;
                lemma_root_is_minimum(original, i);
            }
            assert(original.contains(top)) by {
                assert(original[0] == top);
            }
        }
        let last = items.pop().unwrap();
        let ghost rest = items@;
        proof {
            assert(original =~= rest.push(last));
            assert(original.to_multiset() == rest.to_multiset().insert(last));
        }
        if items.len() > 0 {
            let ghost shortened = items@;
            items.set(0, last);
            proof {
                assert(items@.to_multiset() == shortened.to_multiset().insert(last).remove(shortened[0]));
                assert(shortened[0] == top);
                assert(items@.to_multiset() =~= original.to_multiset().remove(top));
            }
            let mut k: usize = 0;
            while k < items.len() / 2
                invariant
                    0 <= k < items@.len(),
                    items@.len() == original.len() - 1,
                    items@.to_multiset() == original.to_multiset().remove(top),
                    forall|i: int| 0 < i < items@.len() && parent(i) != k ==> entry_le(#[trigger] items@[parent(i)], items@[i]),
                    k > 0 ==> forall|c: int|
                        0 < c < items@.len() && parent(c) == k ==> entry_le(items@[parent(k as int)], #[trigger] items@[c]),
                ensures
                    items@.len() == original.len() - 1,
                    items@.to_multiset() == original.to_multiset().remove(top),
                    heap_ordered(items@),
                decreases items@.len() - k,
            {
                let left = 2 * k + 1;
                let right = left + 1;
                let mut least = left;
                if right < items.len() && !entry_le_exec(items[left], items[right]) {
                    least = right;
                }
                if entry_le_exec(items[k], items[least]) {
                    proof {
                        assert forall|i: int| 0 < i < items@.len() implies entry_le(#[trigger] items@[parent(i)], items@[i]) by {
                            if parent(i) == k as int {
                                assert(i == left as int || i == right as int);
                            }
                        }
                    }
                    break;
                }
                let ghost before = items@;
                let upper = items[k];
                let lower = items[least];
                items.set(k, lower);
                items.set(least, upper);
                proof {
                    crate::raster::lemma_swap_preserves_multiset(before, k as int, least as int);
                    assert(items@ == before.update(k as int, before[least as int]).update(least as int, before[k as int]));
                    assert forall|i: int| 0 < i < items@.len() && parent(i) != least as int implies entry_le(
                        #[trigger] items@[parent(i)],
                        items@[i],
                    ) by {
                        if i == least as int {
                            assert(parent(i) == k as int);
                        } else if parent(i) == k as int {
                            assert(i == left as int || i == right as int);
                        } else if i == k as int {
                            assert(entry_le(before[parent(i)], before[least as int]));
                        } else {
                            assert(items@[i] == before[i]);
                        }
                    }
                    assert forall|c: int| 0 < c < items@.len() && parent(c) == least as int implies entry_le(
                        items@[parent(least as int)],
                        #[trigger] items@[c],
                    ) by {
                        assert(parent(least as int) == k as int);
                        assert(entry_le(before[least as int], before[c]));
                    }
                }
                k = least;
            }
        } else {
            proof {
                assert(rest =~= Seq::<Entry>::empty());
                assert(rest.to_multiset() =~= Multiset::<Entry>::empty());
                assert(original.to_multiset().remove(top) =~= Multiset::<Entry>::empty()) by {
                    assert(last == top);
                }
            }
        }
        self.items = items;
        Some(top)
    }
}

} // verus!
