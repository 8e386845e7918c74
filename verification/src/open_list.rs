//! The open list of the path search: a binary min-heap ordered by `f`.

use crate::coords::OffsetCoord;
use vstd::prelude::*;

verus! {

/// An entry of the open list: a tile, the cost at which it was reached when
/// the entry was made, and that cost plus the estimate of what is left.
#[derive(Clone, Copy)]
pub struct Node {
    pub pos: OffsetCoord,
    pub g: u64,
    pub f: u128,
}

/// Entries waiting to be expanded, the one with the least `f` first.
pub struct OpenList {
    heap: Vec<Node>,
}

pub open spec fn parent_of(i: int) -> int {
    (i - 1) / 2
}

/// The entry at `j` is not ahead of its parent.
pub open spec fn ordered_at(s: Seq<Node>, j: int) -> bool {
    s[parent_of(j)].f <= s[j].f
}

/// Every entry but the first is not ahead of its parent.
pub open spec fn heap_ordered(s: Seq<Node>) -> bool {
    forall|j: int| 1 <= j < s.len() ==> #[trigger] ordered_at(s, j)
}

/// In a heap no entry is ahead of the first.
pub proof fn lemma_root_is_least(s: Seq<Node>, j: int)
    requires
        heap_ordered(s),
        0 <= j < s.len(),
    ensures
        s[0].f <= s[j].f,
    decreases j,
{
    if j > 0 {
        assert(ordered_at(s, j));
        lemma_root_is_least(s, parent_of(j));
    }
}

/// Exchanging two entries keeps what the list holds.
proof fn lemma_swap_members(s: Seq<Node>, i: int, j: int, x: Node)
    requires
        0 <= i < s.len(),
        0 <= j < s.len(),
    ensures
        s.update(i, s[j]).update(j, s[i]).contains(x) <==> s.contains(x),
{
    let t = s.update(i, s[j]).update(j, s[i]);
    if s.contains(x) {
        let k = choose|k: int| 0 <= k < s.len() && s[k] == x;
        if k == i {
            assert(t[j] == x);
        } else if k == j {
            assert(t[i] == x);
        } else {
            assert(t[k] == x);
        }
    }
    if t.contains(x) {
        let k = choose|k: int| 0 <= k < t.len() && t[k] == x;
        if k == i {
            assert(s[j] == x);
        } else if k == j {
            assert(s[i] == x);
        } else {
            assert(s[k] == x);
        }
    }
}

impl View for OpenList {
    type V = Seq<Node>;

    closed spec fn view(&self) -> Seq<Node> {
        self.heap@
    }
}

impl OpenList {
    /// The entries are in heap order.
    pub closed spec fn wf(&self) -> bool {
        heap_ordered(self.heap@)
    }

    pub fn new() -> (list: OpenList)
        ensures
            list.wf(),
            list@.len() == 0,
    {
        OpenList { heap: Vec::new() }
    }

    pub fn len(&self) -> (n: usize)
        ensures
            n == self@.len(),
    {
        self.heap.len()
    }

    fn swap(&mut self, i: usize, j: usize)
        requires
            i < old(self).heap.len(),
            j < old(self).heap.len(),
        ensures
            final(self).heap@ == old(self).heap@.update(i as int, old(self).heap@[j as int]).update(
                j as int,
                old(self).heap@[i as int],
            ),
            forall|x: Node| final(self).heap@.contains(x) <==> old(self).heap@.contains(x),
    {
        let a = self.heap[i];
        let b = self.heap[j];
        self.heap.set(i, b);
        self.heap.set(j, a);
        proof {
            assert forall|x: Node| self.heap@.contains(x) <==> old(self).heap@.contains(x) by {
                lemma_swap_members(old(self).heap@, i as int, j as int, x);
            }
        }
    }

    /// Adds an entry.
    pub fn push(&mut self, e: Node)
        requires
            old(self).wf(),
        ensures
            final(self).wf(),
            final(self)@.len() == old(self)@.len() + 1,
            forall|x: Node| final(self)@.contains(x) <==> (old(self)@.contains(x) || x == e),
    {
        self.heap.push(e);
        proof {
            let before = old(self).heap@;
            let after = self.heap@;
            assert forall|x: Node| after.contains(x) <==> (before.contains(x) || x == e) by {
                if before.contains(x) {
                    let k = choose|k: int| 0 <= k < before.len() && before[k] == x;
                    assert(after[k] == x);
                }
                if x == e {
                    assert(after[before.len() as int] == x);
                }
                if after.contains(x) {
                    let k = choose|k: int| 0 <= k < after.len() && after[k] == x;
                    if k < before.len() {
                        assert(before[k] == x);
                    }
                }
            }
            assert forall|j: int| 1 <= j < after.len() && j != after.len() - 1 implies #[trigger] ordered_at(
                after,
                j,
            ) by {
                assert(ordered_at(before, j));
            }
        }
        let mut i: usize = self.heap.len() - 1;
        let mut done = false;
        while i > 0 && !done
            invariant
                i < self.heap.len(),
                self.heap.len() == old(self).heap.len() + 1,
                forall|x: Node| self.heap@.contains(x) <==> (old(self).heap@.contains(x) || x == e),
                forall|j: int|
                    1 <= j < self.heap.len() && j != i ==> #[trigger] ordered_at(self.heap@, j),
                forall|c: int|
                    1 <= c < self.heap.len() && parent_of(c) == i && i > 0 ==> self.heap@[parent_of(
                        i as int,
                    )].f <= (#[trigger] self.heap@[c]).f,
                done && i > 0 ==> ordered_at(self.heap@, i as int),
            decreases i, (if done { 0int } else { 1int }),
        {
            let p: usize = (i - 1) / 2;
            if self.heap[p].f <= self.heap[i].f {
                done = true;
            } else {
                let ghost prev = self.heap@;
                self.swap(p, i);
                proof {
                    let cur = self.heap@;
                    assert forall|j: int| 1 <= j < cur.len() && j != p implies #[trigger] ordered_at(
                        cur,
                        j,
                    ) by {
                        if j == i {
                        } else if parent_of(j) == p {
                            assert(ordered_at(prev, j));
                        } else if parent_of(j) == i {
                            assert(prev[parent_of(i as int)].f <= prev[j].f);
                        } else {
                            assert(ordered_at(prev, j));
                        }
                    }
                    assert forall|c: int|
                        1 <= c < cur.len() && parent_of(c) == p && p > 0 implies cur[parent_of(
                        p as int,
                    )].f <= (#[trigger] cur[c]).f by {
                        assert(ordered_at(prev, p as int));
                        if c != i {
                            assert(ordered_at(prev, c));
                        }
                    }
                }
                i = p;
            }
        }
    }

    /// Takes out an entry with the least `f`.
    pub fn pop_min(&mut self) -> (e: Node)
        requires
            old(self).wf(),
            old(self)@.len() > 0,
        ensures
            final(self).wf(),
            final(self)@.len() == old(self)@.len() - 1,
            old(self)@.contains(e),
            forall|x: Node| old(self)@.contains(x) ==> e.f <= x.f,
            forall|x: Node| final(self)@.contains(x) ==> old(self)@.contains(x),
            forall|x: Node| old(self)@.contains(x) && x != e ==> final(self)@.contains(x),
    {
        let n = self.heap.len();
        let e = self.heap[0];
        let last = self.heap[n - 1];
        let ghost before = self.heap@;
        self.heap.set(0, last);
        self.heap.pop();
        proof {
            let after = self.heap@;
            assert(before[0] == e);
            assert forall|x: Node| before.contains(x) implies e.f <= x.f by {
                let k = choose|k: int| 0 <= k < before.len() && before[k] == x;
                lemma_root_is_least(before, k);
            }
            assert forall|x: Node| after.contains(x) implies before.contains(x) by {
                let k = choose|k: int| 0 <= k < after.len() && after[k] == x;
                if k == 0 {
                    assert(before[n - 1] == x);
                } else {
                    assert(before[k] == x);
                }
            }
            assert forall|x: Node| before.contains(x) && x != e implies after.contains(x) by {
                let k = choose|k: int| 0 <= k < before.len() && before[k] == x;
                if k == n - 1 {
                    assert(after[0] == x);
                } else {
                    assert(after[k] == x);
                }
            }
            assert forall|j: int| 1 <= j < after.len() && parent_of(j) != 0 implies #[trigger] ordered_at(
                after,
                j,
            ) by {
                assert(ordered_at(before, j));
            }
        }
        let len = self.heap.len();
        let mut i: usize = 0;
        let mut done = false;
        while i < len / 2 && !done
            invariant
                len == self.heap.len(),
                len == before.len() - 1,
                i <= len,
                forall|x: Node| self.heap@.contains(x) ==> before.contains(x),
                forall|x: Node| before.contains(x) && x != e ==> self.heap@.contains(x),
                forall|j: int|
                    1 <= j < len && parent_of(j) != i ==> #[trigger] ordered_at(self.heap@, j),
                forall|c: int|
                    1 <= c < len && parent_of(c) == i && i > 0 ==> self.heap@[parent_of(i as int)].f
                        <= (#[trigger] self.heap@[c]).f,
                done ==> forall|c: int|
                    1 <= c < len && parent_of(c) == i ==> #[trigger] ordered_at(self.heap@, c),
            decreases len - i, (if done { 0int } else { 1int }),
        {
            let l: usize = 2 * i + 1;
            let r: usize = l + 1;
            let m: usize = if r < len && self.heap[r].f < self.heap[l].f {
                r
            } else {
                l
            };
            if self.heap[i].f <= self.heap[m].f {
                done = true;
                proof {
                    assert forall|c: int| 1 <= c < len && parent_of(c) == i implies #[trigger] ordered_at(
                        self.heap@,
                        c,
                    ) by {
                        assert(c == l || c == r);
                    }
                }
            } else {
                let ghost prev = self.heap@;
                self.swap(i, m);
                proof {
                    let cur = self.heap@;
                    assert forall|j: int| 1 <= j < len && parent_of(j) != m implies #[trigger] ordered_at(
                        cur,
                        j,
                    ) by {
                        if j == m {
                        } else if parent_of(j) == i {
                            assert(j == l || j == r);
                        } else if j == i {
                            assert(prev[parent_of(i as int)].f <= prev[m as int].f);
                        } else {
                            assert(ordered_at(prev, j));
                        }
                    }
                    assert forall|c: int|
                        1 <= c < len && parent_of(c) == m && m > 0 implies cur[parent_of(m as int)].f
                        <= (#[trigger] cur[c]).f by {
                        assert(ordered_at(prev, c));
                    }
                }
                i = m;
            }
        }
        proof {
            assert forall|j: int| 1 <= j < len implies #[trigger] ordered_at(self.heap@, j) by {
                if parent_of(j) == i {
                    if !done {
                        assert(i >= len / 2);
                    }
                }
            }
        }
        e
    }
}

} // verus!
