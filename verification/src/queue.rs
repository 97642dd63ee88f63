//! The open list of the A* search: a binary min-heap of `(estimate, column, row)`
//! entries in a vector, handing out the entry that no other entry comes before.
use vstd::prelude::*;
use vstd::multiset::Multiset;

verus! {

broadcast use {vstd::seq_lib::group_to_multiset_ensures, vstd::multiset::group_multiset_axioms};

/// An open-list entry: the estimated route length through a cell, then the cell's
/// column and row.
pub type Entry = (u32, i32, i32);

/// Entry `a` leaves a min-ordered queue before entry `b`: a lower estimate, ties broken
/// by column and then by row.
pub open spec fn entry_before(a: Entry, b: Entry) -> bool {
    a.0 < b.0 || (a.0 == b.0 && (a.1 < b.1 || (a.1 == b.1 && a.2 < b.2)))
}

/// The parent position of position `c` of a heap.
pub open spec fn parent(c: int) -> int {
    (c - 1) / 2
}

/// No entry of `s` comes before the entry at its parent position.
pub open spec fn heap_ordered(s: Seq<Entry>) -> bool {
    forall|c: int| 0 < c < s.len() ==> !entry_before(#[trigger] s[c], s[parent(c)])
}

/// A min-heap of entries.
pub struct EntryHeap {
    items: Vec<Entry>,
}

impl View for EntryHeap {
    type V = Multiset<Entry>;

    /// The entries held, with their multiplicities.
    closed spec fn view(&self) -> Multiset<Entry> {
        self.items@.to_multiset()
    }
}

/// In a heap-ordered sequence no entry comes before the first one.
proof fn lemma_root_first(s: Seq<Entry>, k: int)
    requires
        heap_ordered(s),
        0 <= k < s.len(),
    ensures
        !entry_before(s[k], s[0]),
    decreases k,
{
    if k > 0 {
        assert(!entry_before(s[k], s[parent(k)]));
        lemma_root_first(s, parent(k));
    }
}

/// Exchanging two entries of a sequence keeps its multiset.
proof fn lemma_swap_multiset(s: Seq<Entry>, i: int, j: int)
    requires
        0 <= i < s.len(),
        0 <= j < s.len(),
    ensures
        s.update(i, s[j]).update(j, s[i]).to_multiset() =~= s.to_multiset(),
{
    let t = s.update(i, s[j]);
    assert(t.to_multiset() == s.to_multiset().insert(s[j]).remove(s[i]));
    assert(t.update(j, s[i]).to_multiset() == t.to_multiset().insert(s[i]).remove(t[j]));
}

impl EntryHeap {
    /// The heap order holds.
    pub closed spec fn wf(&self) -> bool {
        heap_ordered(self.items@)
    }

    /// An empty heap.
    pub fn new() -> (q: EntryHeap)
        ensures
            q.wf(),
            q@ =~= Multiset::empty(),
    {
        EntryHeap { items: Vec::new() }
    }

    /// The number of entries held.
    pub fn len(&self) -> (n: usize)
        ensures
            n == self@.len(),
    {
        self.items.len()
    }

    /// Add an entry.
    pub fn push(&mut self, e: Entry)
        requires
            old(self).wf(),
        ensures
            final(self).wf(),
            final(self)@ =~= old(self)@.insert(e),
    {
        let ghost m = self.items@.to_multiset().insert(e);
        self.items.push(e);
        let mut i: usize = self.items.len() - 1;
        let mut settled = false;
        while i > 0 && !settled
            invariant
                0 <= i < self.items@.len(),
                self.items@.to_multiset() =~= m,
                forall|c: int| 0 < c < self.items@.len() && c != i ==> !entry_before(#[trigger] self.items@[c], self.items@[parent(c)]),
                i > 0 ==> forall|c: int|
                    0 < c < self.items@.len() && parent(c) == i ==> !entry_before(#[trigger] self.items@[c], self.items@[parent(i as int)]),
                settled ==> heap_ordered(self.items@),
            decreases i, if settled { 0int } else { 1int },
        {
            let p = (i - 1) / 2;
            let a = self.items[i];
            let b = self.items[p];
            if !(a.0 < b.0 || (a.0 == b.0 && (a.1 < b.1 || (a.1 == b.1 && a.2 < b.2)))) {
                settled = true;
            } else {
                let ghost s = self.items@;
                self.items.set(i, b);
                self.items.set(p, a);
                proof {
                    lemma_swap_multiset(s, i as int, p as int);
                    assert(self.items@ == s.update(i as int, s[p as int]).update(p as int, s[i as int]));
                }
                i = p;
            }
        }
    }

    /// Take out an entry that no held entry comes before.
    pub fn pop(&mut self) -> (e: Entry)
        requires
            old(self).wf(),
            old(self)@.len() > 0,
        ensures
            final(self).wf(),
            old(self)@.count(e) > 0,
            forall|x: Entry| old(self)@.count(x) > 0 ==> !entry_before(x, e),
            final(self)@ =~= old(self)@.remove(e),
    {
        let ghost s0 = self.items@;
        proof {
            assert forall|x: Entry| s0.to_multiset().count(x) > 0 implies !entry_before(x, s0[0]) by {
                assert(s0.contains(x));
                let k = choose|k: int| 0 <= k < s0.len() && s0[k] == x;
                lemma_root_first(s0, k);
            }
            assert(s0.contains(s0[0]));
        }
        let e = self.items[0];
        let last = self.items.pop().unwrap();
        proof {
            assert(s0.remove(s0.len() - 1) =~= self.items@);
        }
        if self.items.len() == 0 {
            return e;
        }
        self.items.set(0, last);
        let ghost m = s0.to_multiset().remove(e);
        proof {
            assert(self.items@.to_multiset() =~= m);
        }
        let mut i: usize = 0;
        let n = self.items.len();
        let mut settled = false;
        while i < n / 2 && !settled
            invariant
                n == self.items@.len(),
                0 <= i < n,
                self.items@.to_multiset() =~= m,
                forall|c: int| 0 < c < n && parent(c) != i ==> !entry_before(#[trigger] self.items@[c], self.items@[parent(c)]),
                i > 0 ==> forall|c: int|
                    0 < c < n && parent(c) == i ==> !entry_before(#[trigger] self.items@[c], self.items@[parent(i as int)]),
                settled ==> heap_ordered(self.items@),
            decreases n - i, if settled { 0int } else { 1int },
        {
            let l = 2 * i + 1;
            let r = 2 * i + 2;
            let mut k = l;
            if r < n {
                let x = self.items[r];
                let y = self.items[l];
                if x.0 < y.0 || (x.0 == y.0 && (x.1 < y.1 || (x.1 == y.1 && x.2 < y.2))) {
                    k = r;
                }
            }
            let a = self.items[k];
            let b = self.items[i];
            if !(a.0 < b.0 || (a.0 == b.0 && (a.1 < b.1 || (a.1 == b.1 && a.2 < b.2)))) {
                proof {
                    assert forall|c: int| 0 < c < n implies !entry_before(#[trigger] self.items@[c], self.items@[parent(c)]) by {
                        if parent(c) == i {
                            assert(c == l || c == r);
                        }
                    }
                }
                settled = true;
            } else {
                let ghost s = self.items@;
                self.items.set(i, a);
                self.items.set(k, b);
                proof {
                    lemma_swap_multiset(s, k as int, i as int);
                    assert(self.items@ == s.update(k as int, s[i as int]).update(i as int, s[k as int]));
                    assert forall|c: int| 0 < c < n && parent(c) != k implies !entry_before(#[trigger] self.items@[c], self.items@[parent(c)]) by {
                        if parent(c) == i {
                            assert(c == l || c == r);
                        }
                    }
                }
                i = k;
            }
        }
        proof {
            if !settled {
                assert forall|c: int| 0 < c < n implies !entry_before(#[trigger] self.items@[c], self.items@[parent(c)]) by {
                    if parent(c) == i {
                        assert(c >= 2 * i + 1);
                    }
                }
            }
        }
        e
    }
}

} // verus!
