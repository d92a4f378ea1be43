//! The frontier of a shortest-path search: a binary heap that hands out a
//! cheapest entry first.

use vstd::prelude::*;
use vstd::multiset::Multiset;

verus! {

/// A node together with the cost at which the search reached it.
#[derive(Clone, Copy, Debug, PartialEq, Eq, Structural)]
pub struct State {
    pub node_id: i32,
    pub cost: i32,
}

/// The position above `j` in the heap.
spec fn parent(j: int) -> int {
    (j - 1) / 2
}

/// Every entry but the one at `skip` costs no less than the entry above it.
spec fn ordered_but_child(q: Seq<State>, skip: int) -> bool {
    forall|j: int| 1 <= j < q.len() && j != skip ==> q[parent(j)].cost <= (#[trigger] q[j]).cost
}

/// Every entry that is not directly below `skip` costs no less than the
/// entry above it.
spec fn ordered_but_parent(q: Seq<State>, skip: int) -> bool {
    forall|j: int|
        1 <= j < q.len() && parent(j) != skip ==> q[parent(j)].cost <= (#[trigger] q[j]).cost
}

/// The entries directly below `i` cost no less than the entry above `i`.
spec fn above_children(q: Seq<State>, i: int) -> bool {
    i > 0 ==> forall|j: int|
        1 <= j < q.len() && parent(j) == i ==> q[parent(i)].cost <= (#[trigger] q[j]).cost
}

/// Every entry costs no less than the entry above it.
spec fn heap_ordered(q: Seq<State>) -> bool {
    forall|j: int| 1 <= j < q.len() ==> q[parent(j)].cost <= (#[trigger] q[j]).cost
}

/// In an ordered heap no entry undercuts the first.
proof fn lemma_root_is_cheapest(q: Seq<State>, j: int)
    requires
        heap_ordered(q),
        0 <= j < q.len(),
    ensures
        q[0].cost <= q[j].cost,
    decreases j,
{
    if j > 0 {
        lemma_root_is_cheapest(q, parent(j));
        assert(q[parent(j)].cost <= q[j].cost);
    }
}

/// Replacing one entry takes that entry out of the contents and puts the
/// new one in.
proof fn lemma_update_contents(q: Seq<State>, i: int, s: State)
    requires
        0 <= i < q.len(),
    ensures
        q.update(i, s).to_multiset() =~= q.to_multiset().remove(q[i]).insert(s),
{
    broadcast use vstd::multiset::group_multiset_axioms;

    let u = q.update(i, s);
    assert(u.remove(i) =~= q.remove(i));
    vstd::seq_lib::to_multiset_remove(u, i);
    vstd::seq_lib::to_multiset_remove(q, i);
    u.to_multiset_ensures();
    assert(u[i] == s);
    assert(u.contains(s));
    assert(u.to_multiset() =~= u.to_multiset().remove(s).insert(s));
}

/// Exchanging two entries keeps the contents.
proof fn lemma_swap_contents(q: Seq<State>, i: int, j: int)
    requires
        0 <= i < q.len(),
        0 <= j < q.len(),
    ensures
        q.update(i, q[j]).update(j, q[i]).to_multiset() =~= q.to_multiset(),
{
    broadcast use vstd::multiset::group_multiset_axioms;

    let half = q.update(i, q[j]);
    lemma_update_contents(q, i, q[j]);
    lemma_update_contents(half, j, q[i]);
    q.to_multiset_ensures();
    assert(q.contains(q[i]));
    assert(q.contains(q[j]));
}

/// The entries directly below `i` cost no less than the entry at `m`.
spec fn cheapest_below(q: Seq<State>, i: int, m: int) -> bool {
    forall|j: int| 1 <= j < q.len() && parent(j) == i ==> q[m].cost <= (#[trigger] q[j]).cost
}

/// Exchanging the entry at `i` with the cheapest entry directly below it
/// moves the one place where the heap may be out of order down to there.
proof fn lemma_step_down(before: Seq<State>, i: int, m: int)
    requires
        0 <= i < before.len(),
        1 <= m < before.len(),
        parent(m) == i,
        ordered_but_parent(before, i),
        above_children(before, i),
        cheapest_below(before, i, m),
        before[m].cost < before[i].cost,
    ensures
        ordered_but_parent(before.update(i, before[m]).update(m, before[i]), m),
        above_children(before.update(i, before[m]).update(m, before[i]), m),
{
    let after = before.update(i, before[m]).update(m, before[i]);
    assert forall|j: int| 1 <= j < after.len() && parent(j) != m implies after[parent(j)].cost <= (
    #[trigger] after[j]).cost by {
        if j == m {
        } else if parent(j) == i {
            assert(before[m].cost <= before[j].cost);
        } else if j == i {
            assert(before[parent(i)].cost <= before[m].cost);
        } else {
            assert(before[parent(j)].cost <= before[j].cost);
        }
    }
    assert forall|j: int| 1 <= j < after.len() && parent(j) == m implies after[parent(m)].cost <= (
    #[trigger] after[j]).cost by {
        assert(before[parent(j)].cost <= before[j].cost);
    }
}

/// Where the entry at `i` costs no more than the entries directly below
/// it, a heap that was in order everywhere else is in order.
proof fn lemma_settled_down(q: Seq<State>, i: int)
    requires
        0 <= i < q.len(),
        ordered_but_parent(q, i),
        cheapest_below(q, i, i),
    ensures
        heap_ordered(q),
{
    assert forall|j: int| 1 <= j < q.len() implies q[parent(j)].cost <= (#[trigger] q[j]).cost by {
        if parent(j) == i {
            assert(q[i].cost <= q[j].cost);
        }
    }
}

/// A min-priority queue of search states, ordered by cost.
pub struct Frontier {
    entries: Vec<State>,
}

impl View for Frontier {
    type V = Multiset<State>;

    /// The queued entries, each as often as it was queued and not yet taken.
    closed spec fn view(&self) -> Multiset<State> {
        self.entries@.to_multiset()
    }
}

impl Frontier {
    /// The entries are laid out as a binary heap.
    pub closed spec fn wf(&self) -> bool {
        heap_ordered(self.entries@)
    }

    /// The empty queue.
    pub fn new() -> (f: Frontier)
        ensures
            f.wf(),
            f@ == Multiset::<State>::empty(),
    {
        let f = Frontier { entries: Vec::new() };
        proof {
            broadcast use vstd::multiset::group_multiset_axioms;

            f.entries@.to_multiset_ensures();
            assert(f@ =~= Multiset::<State>::empty());
        }
        f
    }

    /// Whether nothing is queued.
    pub fn is_empty(&self) -> (b: bool)
        ensures
            b == (self@.len() == 0),
    {
        proof {
            self.entries@.to_multiset_ensures();
        }
        self.entries.len() == 0
    }

    /// Exchanges the entries at `i` and `j`.
    fn exchange(&mut self, i: usize, j: usize)
        requires
            i < old(self).entries@.len(),
            j < old(self).entries@.len(),
        ensures
            final(self).entries@ == old(self).entries@.update(
                i as int,
                old(self).entries@[j as int],
            ).update(j as int, old(self).entries@[i as int]),
            final(self)@ == old(self)@,
    {
        let a = self.entries[i];
        let b = self.entries[j];
        proof {
            lemma_swap_contents(self.entries@, i as int, j as int);
        }
        self.entries.set(i, b);
        self.entries.set(j, a);
    }

    /// Moves the entry at `start` up until the entry above it costs no more.
    fn sift_up(&mut self, start: usize)
        requires
            start < old(self).entries@.len(),
            ordered_but_child(old(self).entries@, start as int),
            above_children(old(self).entries@, start as int),
        ensures
            final(self).wf(),
            final(self)@ == old(self)@,
    {
        let mut i: usize = start;
        while i > 0 && self.entries[(i - 1) / 2].cost > self.entries[i].cost
            invariant
                i < self.entries@.len(),
                self.entries@.len() == old(self).entries@.len(),
                ordered_but_child(self.entries@, i as int),
                above_children(self.entries@, i as int),
                self@ == old(self)@,
            decreases i,
        {
            let p: usize = (i - 1) / 2;
            let ghost before = self.entries@;
            self.exchange(p, i);
            proof {
                let after = self.entries@;
                assert(p == parent(i as int));
                assert forall|j: int| 1 <= j < after.len() && j != p implies after[parent(j)].cost
                    <= (#[trigger] after[j]).cost by {
                    if j == i {
                    } else if parent(j) == i {
                        assert(before[parent(i as int)].cost <= before[j].cost);
                    } else {
                        assert(before[parent(j)].cost <= before[j].cost);
                    }
                }
                if p > 0 {
                    assert(before[parent(p as int)].cost <= before[p as int].cost);
                    assert forall|j: int| 1 <= j < after.len() && parent(j) == p implies after[parent(
                        p as int,
                    )].cost <= (#[trigger] after[j]).cost by {
                        if j != i {
                            assert(before[parent(j)].cost <= before[j].cost);
                        }
                    }
                }
            }
            i = p;
        }
        proof {
            let q = self.entries@;
            assert forall|j: int| 1 <= j < q.len() implies q[parent(j)].cost <= (
            #[trigger] q[j]).cost by {
                if j == i {
                    assert(parent(i as int) == (i - 1) / 2);
                }
            }
        }
    }

    /// Moves the entry at the top down until the entries below it cost no less.
    fn sift_down(&mut self)
        requires
            old(self).entries@.len() > 0,
            ordered_but_parent(old(self).entries@, 0),
        ensures
            final(self).wf(),
            final(self)@ == old(self)@,
    {
        let n: usize = self.entries.len();
        let mut i: usize = 0;
        loop
            invariant
                n == self.entries@.len(),
                i < n,
                ordered_but_parent(self.entries@, i as int),
                above_children(self.entries@, i as int),
                self@ == old(self)@,
            ensures
                heap_ordered(self.entries@),
                self@ == old(self)@,
            decreases n - i,
        {
            let mut smallest: usize = i;
            if i < n / 2 {
                let left: usize = 2 * i + 1;
                if self.entries[left].cost < self.entries[smallest].cost {
                    smallest = left;
                }
                if left + 1 < n {
                    if self.entries[left + 1].cost < self.entries[smallest].cost {
                        smallest = left + 1;
                    }
                }
            }
            proof {
                let q = self.entries@;
                assert forall|j: int| 1 <= j < q.len() && parent(j) == i implies q[smallest as int].cost
                    <= (#[trigger] q[j]).cost by {
                    assert(j == 2 * i + 1 || j == 2 * i + 2);
                }
            }
            if smallest == i {
                proof {
                    lemma_settled_down(self.entries@, i as int);
                }
                break;
            }
            proof {
                assert(parent(smallest as int) == i);
                lemma_step_down(self.entries@, i as int, smallest as int);
            }
            self.exchange(i, smallest);
            i = smallest;
        }
    }

    /// Queues `state`.
    pub fn push(&mut self, state: State)
        requires
            old(self).wf(),
        ensures
            final(self).wf(),
            final(self)@ == old(self)@.insert(state),
    {
        let ghost before = self.entries@;
        self.entries.push(state);
        proof {
            before.to_multiset_ensures();
            let q = self.entries@;
            assert forall|j: int| 1 <= j < q.len() && j != q.len() - 1 implies q[parent(j)].cost
                <= (#[trigger] q[j]).cost by {
                assert(before[parent(j)].cost <= before[j].cost);
            }
            assert forall|j: int| 1 <= j < q.len() && parent(j) == q.len() - 1 implies false by {}
        }
        let last: usize = self.entries.len() - 1;
        self.sift_up(last);
    }

    /// Takes out an entry of least cost, if there is any entry. Which of
    /// several entries of the same least cost leaves is not fixed.
    pub fn pop(&mut self) -> (state: Option<State>)
        requires
            old(self).wf(),
        ensures
            final(self).wf(),
            match state {
                Some(s) => {
                    &&& old(self)@.count(s) > 0
                    &&& final(self)@ == old(self)@.remove(s)
                    &&& forall|x: State| old(self)@.count(x) > 0 ==> s.cost <= x.cost
                },
                None => old(self)@.len() == 0 && final(self)@ == old(self)@,
            },
    {
        let ghost before = self.entries@;
        proof {
            broadcast use vstd::multiset::group_multiset_axioms;

            before.to_multiset_ensures();
        }
        let n: usize = self.entries.len();
        if n == 0 {
            return None;
        }
        let top = self.entries[0];
        let last = self.entries.pop().unwrap();
        proof {
            assert(before.contains(before[0]));
            assert forall|x: State| before.to_multiset().count(x) > 0 implies top.cost
                <= x.cost by {
                let j = choose|j: int| 0 <= j < before.len() && before[j] == x;
                lemma_root_is_cheapest(before, j);
            }
            assert(self.entries@ =~= before.remove(n - 1));
            vstd::seq_lib::to_multiset_remove(before, n - 1);
            assert(before.contains(last));
        }
        if n > 1 {
            let ghost shorter = self.entries@;
            self.entries.set(0, last);
            proof {
                shorter.to_multiset_ensures();
                assert(shorter.contains(shorter[0]));
                lemma_update_contents(shorter, 0, last);
                assert(self@ =~= before.to_multiset().remove(top));
                let q = self.entries@;
                assert forall|j: int| 1 <= j < q.len() && parent(j) != 0 implies q[parent(j)].cost
                    <= (#[trigger] q[j]).cost by {
                    assert(before[parent(j)].cost <= before[j].cost);
                }
            }
            self.sift_down();
        }
        Some(top)
    }
}

} // verus!
