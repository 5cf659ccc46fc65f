//! A queue that gives out its least entry first: a binary heap of costed
//! nodes.

use vstd::multiset::Multiset;
use vstd::prelude::*;

verus! {

/// Cheaper first, and the lower node where two cost the same.
pub open spec fn no_dearer(a: (i128, usize), b: (i128, usize)) -> bool {
    a.0 < b.0 || (a.0 == b.0 && a.1 <= b.1)
}

fn is_no_dearer(a: (i128, usize), b: (i128, usize)) -> (yes: bool)
    ensures
        yes == no_dearer(a, b),
{
    a.0 < b.0 || (a.0 == b.0 && a.1 <= b.1)
}

pub open spec fn parent(i: int) -> int {
    (i - 1) / 2
}

/// No entry is dearer than those below it.
pub open spec fn heaped(items: Seq<(i128, usize)>) -> bool {
    forall|i: int| 1 <= i < items.len() ==> no_dearer(items[parent(i)], #[trigger] items[i])
}

pub struct Frontier {
    items: Vec<(i128, usize)>,
}

proof fn lemma_root_is_least(items: Seq<(i128, usize)>, i: int)
    requires
        heaped(items),
        0 <= i < items.len(),
    ensures
        no_dearer(items[0], items[i]),
    decreases i,
{
    if i > 0 {
        lemma_root_is_least(items, parent(i));
    }
}

proof fn lemma_update_multiset<A>(s: Seq<A>, i: int, a: A)
    requires
        0 <= i < s.len(),
    ensures
        s.update(i, a).to_multiset() == s.to_multiset().remove(s[i]).insert(a),
{
    assert(s.update(i, a) =~= s.remove(i).insert(i, a));
    vstd::seq_lib::to_multiset_remove(s, i);
    vstd::seq_lib::to_multiset_insert(s.remove(i), i, a);
}

proof fn lemma_swap_multiset<A>(s: Seq<A>, i: int, j: int)
    requires
        0 <= i < s.len(),
        0 <= j < s.len(),
        i != j,
    ensures
        s.update(i, s[j]).update(j, s[i]).to_multiset() == s.to_multiset(),
{
    let once = s.update(i, s[j]);
    lemma_update_multiset(s, i, s[j]);
    lemma_update_multiset(once, j, s[i]);
    vstd::seq_lib::to_multiset_contains(s, s[i]);
    assert(once.update(j, s[i]).to_multiset() =~= s.to_multiset());
}

impl Frontier {
    pub closed spec fn wf(self) -> bool {
        heaped(self.items@)
    }

    pub closed spec fn view(&self) -> Multiset<(i128, usize)> {
        self.items@.to_multiset()
    }

    pub fn new() -> (queue: Self)
        ensures
            queue.wf(),
            queue@ == Multiset::<(i128, usize)>::empty(),
    {
        let queue = Frontier { items: Vec::new() };
        proof {
            vstd::seq_lib::to_multiset_len(queue.items@);
            assert(queue@ =~= Multiset::<(i128, usize)>::empty());
        }
        queue
    }

    pub fn is_empty(&self) -> (yes: bool)
        ensures
            yes == (self@.len() == 0),
    {
        proof {
            vstd::seq_lib::to_multiset_len(self.items@);
        }
        self.items.len() == 0
    }

    fn swap(&mut self, i: usize, j: usize)
        requires
            i < old(self).items@.len(),
            j < old(self).items@.len(),
            i != j,
        ensures
            final(self).items@ == old(self).items@.update(i as int, old(self).items@[j as int]).update(
                j as int,
                old(self).items@[i as int],
            ),
            final(self)@ == old(self)@,
    {
        proof {
            lemma_swap_multiset(self.items@, i as int, j as int);
        }
        let a: (i128, usize) = self.items[i];
        let b: (i128, usize) = self.items[j];
        self.items.set(i, b);
        self.items.set(j, a);
    }

    pub fn push(&mut self, entry: (i128, usize))
        requires
            old(self).wf(),
        ensures
            final(self).wf(),
            final(self)@ == old(self)@.insert(entry),
    {
        let ghost goal = self@.insert(entry);
        proof {
            vstd::seq_lib::to_multiset_build(self.items@, entry);
        }
        self.items.push(entry);
        let mut i: usize = self.items.len() - 1;
        while i > 0 && !is_no_dearer(self.items[(i - 1) / 2], self.items[i])
            invariant
                i < self.items@.len(),
                self@ == goal,
                forall|j: int|
                    1 <= j < self.items@.len() && j != i ==> no_dearer(
                        self.items@[parent(j)],
                        #[trigger] self.items@[j],
                    ),
                forall|j: int|
                    1 <= j < self.items@.len() && parent(j) == i && i > 0 ==> no_dearer(
                        self.items@[parent(i as int)],
                        #[trigger] self.items@[j],
                    ),
            decreases i,
        {
            let up: usize = (i - 1) / 2;
            assert(up == parent(i as int));
            let ghost before = self.items@;
            self.swap(up, i);
            proof {
                let now = self.items@;
                assert forall|j: int| 1 <= j < now.len() && j != up implies no_dearer(
                    now[parent(j)],
                    #[trigger] now[j],
                ) by {
                    assert(no_dearer(before[parent(j)], before[j]) || j == i);
                }
                assert forall|j: int| 1 <= j < now.len() && parent(j) == up && up > 0 implies no_dearer(
                    now[parent(up as int)],
                    #[trigger] now[j],
                ) by {
                    assert(no_dearer(before[parent(up as int)], before[up as int]));
                    assert(j == i || no_dearer(before[parent(j)], before[j]));
                }
            }
            i = up;
        }
    }

    /// Takes out the least entry. Of two that are the same either may leave.
    pub fn pop(&mut self) -> (least: Option<(i128, usize)>)
        requires
            old(self).wf(),
        ensures
            final(self).wf(),
            least is None <==> old(self)@.len() == 0,
            least is None ==> final(self)@ == old(self)@,
            least matches Some(entry) ==> {
                &&& old(self)@.contains(entry)
                &&& final(self)@ == old(self)@.remove(entry)
                &&& forall|other: (i128, usize)|
                    old(self)@.contains(other) ==> no_dearer(entry, other)
            },
    {
        proof {
            vstd::seq_lib::to_multiset_len(self.items@);
        }
        let n: usize = self.items.len();
        if n == 0 {
            return None;
        }
        let least: (i128, usize) = self.items[0];
        let ghost all = self.items@;
        let last: (i128, usize) = self.items[n - 1];
        let gone: Option<(i128, usize)> = self.items.pop();
        let ghost goal = all.to_multiset().remove(least);
        proof {
            assert forall|other: (i128, usize)| all.to_multiset().contains(other) implies no_dearer(
                least,
                other,
            ) by {
                vstd::seq_lib::to_multiset_contains(all, other);
                let i = choose|i: int| 0 <= i < all.len() && all[i] == other;
                lemma_root_is_least(all, i);
            }
            vstd::seq_lib::to_multiset_contains(all, least);
            assert(all[0] == least);
            assert(all.contains(least));
            assert(self.items@ =~= all.remove(n - 1));
            vstd::seq_lib::to_multiset_remove(all, n - 1);
        }
        if n == 1 {
            return Some(least);
        }
        proof {
            lemma_update_multiset(self.items@, 0, last);
        }
        let ghost shorter = self.items@;
        self.items.set(0, last);
        proof {
            vstd::seq_lib::to_multiset_contains(all, last);
            assert(all[n - 1] == last);
            vstd::seq_lib::to_multiset_contains(shorter, least);
            assert(shorter[0] == least);
            assert(shorter.contains(least));
            assert(self.items@.to_multiset() =~= goal);
        }
        let len: usize = n - 1;
        let mut i: usize = 0;
        proof {
            assert forall|j: int| 1 <= j < self.items@.len() && parent(j) != 0 implies no_dearer(
                self.items@[parent(j)],
                #[trigger] self.items@[j],
            ) by {
                assert(no_dearer(all[parent(j)], all[j]));
            }
        }
        while 2 * (i as u128) + 1 < len as u128
            invariant
                i < len,
                len == self.items@.len(),
                self@ == goal,
                forall|j: int|
                    1 <= j < len && parent(j) != i ==> no_dearer(
                        self.items@[parent(j)],
                        #[trigger] self.items@[j],
                    ),
                forall|j: int|
                    1 <= j < len && parent(j) == i && i > 0 ==> no_dearer(
                        self.items@[parent(i as int)],
                        #[trigger] self.items@[j],
                    ),
            ensures
                len == self.items@.len(),
                self@ == goal,
                heaped(self.items@),
            decreases len - i,
        {
            let left: usize = 2 * i + 1;
            assert(parent(left as int) == i);
            let mut down: usize = left;
            if left + 1 < len && is_no_dearer(self.items[left + 1], self.items[left]) {
                down = left + 1;
            }
            assert(parent(down as int) == i);
            assert forall|j: int| 1 <= j < len && parent(j) == i implies no_dearer(
                self.items@[down as int],
                #[trigger] self.items@[j],
            ) by {
                assert(j == left || j == left + 1);
            }
            if is_no_dearer(self.items[i], self.items[down]) {
                proof {
                    assert forall|j: int| 1 <= j < len implies no_dearer(
                        self.items@[parent(j)],
                        #[trigger] self.items@[j],
                    ) by {
                        if parent(j) == i {
                            assert(no_dearer(self.items@[down as int], self.items@[j]));
                        }
                    }
                }
                break;
            }
            let ghost before = self.items@;
            self.swap(i, down);
            proof {
                let now = self.items@;
                assert forall|j: int| 1 <= j < len && parent(j) != down implies no_dearer(
                    now[parent(j)],
                    #[trigger] now[j],
                ) by {
                    if parent(j) == i {
                        assert(no_dearer(before[down as int], before[j]));
                        assert(now[i as int] == before[down as int]);
                    } else if j == i {
                        // What now stands at `i` was below it, so no cheaper than what is above.
                        assert(no_dearer(before[parent(i as int)], before[down as int]));
                    } else {
                        assert(no_dearer(before[parent(j)], before[j]));
                    }
                }
                assert forall|j: int| 1 <= j < len && parent(j) == down implies no_dearer(
                    now[parent(down as int)],
                    #[trigger] now[j],
                ) by {
                    assert(no_dearer(before[parent(j)], before[j]));
                }
            }
            i = down;
        }
        Some(least)
    }
}

} // verus!
