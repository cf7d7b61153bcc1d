//! The search frontier: a binary min-heap of tentative distances.

use vstd::multiset::Multiset;
use vstd::prelude::*;

verus! {

/// A frontier entry: a node together with the cost of some walk that reaches it.
#[derive(Clone, Copy, Debug)]
pub struct State {
    pub cost: i32,
    pub position: i32,
}

/// A min-priority queue of [`State`]s ordered by `cost`, laid out as an implicit
/// binary heap in a vector.
pub struct Frontier {
    items: Vec<State>,
}

/// The parent of slot `i` in the implicit binary tree.
spec fn parent(i: int) -> int {
    (i - 1) / 2
}

/// Every slot but the root costs at least as much as its parent, except that
/// the link from `hole`'s parent down to `hole` is not constrained.
spec fn ordered_except_above(s: Seq<State>, hole: int) -> bool {
    forall|j: int| 1 <= j < s.len() && j != hole ==> s[parent(j)].cost <= (#[trigger] s[j]).cost
}

/// Every slot but the root costs at least as much as its parent, except that
/// the links from `hole` down to its children are not constrained.
spec fn ordered_except_below(s: Seq<State>, hole: int) -> bool {
    forall|j: int|
        1 <= j < s.len() && parent(j) != hole ==> s[parent(j)].cost <= (#[trigger] s[j]).cost
}

/// The heap order: no slot is cheaper than its parent.
spec fn heap_ordered(s: Seq<State>) -> bool {
    forall|j: int| 1 <= j < s.len() ==> s[parent(j)].cost <= (#[trigger] s[j]).cost
}

/// In a heap-ordered sequence the root is a cheapest entry.
proof fn lemma_root_is_cheapest(s: Seq<State>, j: int)
    requires
        heap_ordered(s),
        0 <= j < s.len(),
    ensures
        s[0].cost <= s[j].cost,
    decreases j,
{
    if j > 0 {
        lemma_root_is_cheapest(s, parent(j));
    }
}

/// Exchanging two slots keeps the bag of entries.
proof fn lemma_swap_keeps_bag(s: Seq<State>, i: int, j: int)
    requires
        0 <= i < s.len(),
        0 <= j < s.len(),
    ensures
        s.update(i, s[j]).update(j, s[i]).to_multiset() == s.to_multiset(),
{
    broadcast use vstd::seq_lib::to_multiset_update, vstd::seq_lib::to_multiset_contains;

    let t = s.update(i, s[j]);
    assert(s.contains(s[i]));
    assert(s.contains(s[j]));
    assert(t.to_multiset() == s.to_multiset().insert(s[j]).remove(s[i]));
    assert(t.update(j, s[i]).to_multiset() == t.to_multiset().insert(s[i]).remove(t[j]));
    assert(t.update(j, s[i]).to_multiset() =~= s.to_multiset());
}

impl Frontier {
    /// The entries currently queued, as a bag.
    pub closed spec fn view(&self) -> Multiset<State> {
        self.items@.to_multiset()
    }

    /// The representation invariant: the vector is heap-ordered.
    pub closed spec fn wf(&self) -> bool {
        heap_ordered(self.items@)
    }

    /// An empty frontier.
    pub fn new() -> (f: Frontier)
        ensures
            f.wf(),
            f@ == Multiset::<State>::empty(),
    {
        let f = Frontier { items: Vec::new() };
        proof {
            assert(f.items@.to_multiset() =~= Multiset::<State>::empty()) by {
                broadcast use vstd::seq_lib::to_multiset_len;

                assert(f.items@.to_multiset().len() == 0);
            }
        }
        f
    }

    fn exchange(&mut self, i: usize, j: usize)
        requires
            i < old(self).items@.len(),
            j < old(self).items@.len(),
        ensures
            final(self).items@ == old(self).items@.update(i as int, old(self).items@[j as int]).update(
                j as int,
                old(self).items@[i as int],
            ),
            final(self).items@.to_multiset() == old(self).items@.to_multiset(),
    {
        let a = self.items[i];
        let b = self.items[j];
        self.items.set(i, b);
        self.items.set(j, a);
        proof {
            lemma_swap_keeps_bag(old(self).items@, i as int, j as int);
        }
    }

    /// Queues `entry`.
    pub fn push(&mut self, entry: State)
        requires
            old(self).wf(),
        ensures
            final(self).wf(),
            final(self)@ == old(self)@.insert(entry),
            final(self)@.len() == old(self)@.len() + 1,
    {
        self.items.push(entry);
        proof {
            broadcast use vstd::seq_lib::to_multiset_build, vstd::seq_lib::to_multiset_len;

            assert(self.items@ == old(self).items@.push(entry));
        }
        let mut i: usize = self.items.len() - 1;
        while i > 0
            invariant
                i < self.items@.len(),
                self.items@.to_multiset() == old(self)@.insert(entry),
                ordered_except_above(self.items@, i as int),
                forall|c: int|
                    1 <= c < self.items@.len() && parent(c) == i && i > 0 ==> self.items@[parent(
                        i as int,
                    )].cost <= (#[trigger] self.items@[c]).cost,
            ensures
                heap_ordered(self.items@),
                self.items@.to_multiset() == old(self)@.insert(entry),
            decreases i,
        {
            let p: usize = (i - 1) / 2;
            if self.items[p].cost <= self.items[i].cost {
                break ;
            }
            self.exchange(p, i);
            i = p;
        }
    }

    /// Takes out a cheapest entry, or reports that nothing is queued.
    pub fn pop(&mut self) -> (r: Option<State>)
        requires
            old(self).wf(),
        ensures
            final(self).wf(),
            match r {
                None => old(self)@.len() == 0 && final(self)@ == old(self)@,
                Some(e) => {
                    &&& old(self)@.count(e) > 0
                    &&& final(self)@ == old(self)@.remove(e)
                    &&& final(self)@.len() == old(self)@.len() - 1
                    &&& forall|x: State| old(self)@.count(x) > 0 ==> e.cost <= x.cost
                },
            },
    {
        proof {
            broadcast use vstd::seq_lib::to_multiset_len;

        }
        let n: usize = self.items.len();
        if n == 0 {
            return None;
        }
        let top = self.items[0];
        let ghost before = self.items@;
        proof {
            broadcast use vstd::seq_lib::to_multiset_contains;

            assert(before.contains(before[0]));
            assert forall|x: State| before.to_multiset().count(x) > 0 implies top.cost
                <= x.cost by {
                let k = choose|k: int| 0 <= k < before.len() && before[k] == x;
                lemma_root_is_cheapest(before, k);
            }
        }
        let last = self.items.pop().unwrap();
        proof {
            broadcast use vstd::seq_lib::to_multiset_remove;

            assert(self.items@ =~= before.remove(n - 1));
            assert(self.items@.to_multiset() == before.to_multiset().remove(last));
        }
        let m: usize = n - 1;
        if m == 0 {
            return Some(top);
        }
        self.items.set(0, last);
        proof {
            broadcast use vstd::seq_lib::to_multiset_update;

            assert(self.items@ == before.remove(n - 1).update(0, last));
            assert(self.items@.to_multiset() =~= before.to_multiset().remove(top));
        }
        let mut i: usize = 0;
        while i < m / 2
            invariant
                m == self.items@.len(),
                i < m,
                self.items@.to_multiset() == old(self)@.remove(top),
                ordered_except_below(self.items@, i as int),
                forall|c: int|
                    1 <= c < self.items@.len() && parent(c) == i && i > 0 ==> self.items@[parent(
                        i as int,
                    )].cost <= (#[trigger] self.items@[c]).cost,
            ensures
                heap_ordered(self.items@),
                self.items@.to_multiset() == old(self)@.remove(top),
            decreases m - i,
        {
            let l: usize = 2 * i + 1;
            let r: usize = l + 1;
            let c: usize = if r < m && self.items[r].cost < self.items[l].cost {
                r
            } else {
                l
            };
            if self.items[i].cost <= self.items[c].cost {
                break ;
            }
            self.exchange(i, c);
            i = c;
        }
        Some(top)
    }
}

} // verus!
