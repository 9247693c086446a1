//! Removable index sets: the unresolved-cell tracker.
//!
//! A `SpaceSet` is an unordered collection of cell indices with O(1)
//! append and O(1) removal by position: removal overwrites the removed
//! slot with the current last element and shrinks the length. Order is
//! insignificant and unstable across removals.

use crate::numset::{empty_ns, NumSet};
use vstd::prelude::*;

verus! {

/// A collection of cell indices supporting O(1) insert and
/// O(1) removal by position.
#[derive(Clone, Debug)]
pub struct SpaceSet {
    pub data: Vec<usize>,
}

/// What removal by position leaves behind: the last element is swapped
/// into the removed slot and the length shrinks by one.
pub open spec fn remove_model(q: Seq<usize>, p: int) -> Seq<usize> {
    q.update(p, q.last()).drop_last()
}

impl SpaceSet {
    /// The indices currently held, in their current order.
    pub open spec fn view(&self) -> Seq<usize> {
        self.data@
    }

    /// A set with no indices.
    pub fn empty() -> (r: SpaceSet)
        ensures
            r@ == Seq::<usize>::empty(),
    {
        SpaceSet { data: Vec::new() }
    }

    /// How many indices are held.
    pub fn len(&self) -> (r: usize)
        ensures
            r == self@.len(),
    {
        self.data.len()
    }

    /// The index stored at position `k` of the current order.
    pub fn get(&self, k: usize) -> (r: usize)
        requires
            k < self@.len(),
        ensures
            r == self@[k as int],
    {
        self.data[k]
    }

    /// Appends `item`. The set is sized for one index per board cell,
    /// so more than 81 live entries must never be asked of it.
    pub fn insert(&mut self, item: usize)
        requires
            old(self)@.len() < 81,
        ensures
            final(self)@ == old(self)@.push(item),
    {
        self.data.push(item);
    }

    /// Removes the element at position `index` of the current order by
    /// overwriting it with the current last element.
    pub fn remove(&mut self, index: usize)
        requires
            index < old(self)@.len(),
        ensures
            final(self)@ == remove_model(old(self)@, index as int),
    {
        let _ = self.data.swap_remove(index);
    }

    /// All currently held indices, in their current order.
    pub fn iter(&self) -> (r: Vec<usize>)
        ensures
            r@ == self@,
    {
        let mut r: Vec<usize> = Vec::new();
        let mut k: usize = 0;
        while k < self.data.len()
            invariant
                k <= self.data.len(),
                r@ == self.data@.subrange(0, k as int),
            decreases self.data.len() - k,
        {
            r.push(self.data[k]);
            k = k + 1;
        }
        proof {
            assert(r@ =~= self.data@);
        }
        r
    }

    /// Scans 81 cells and collects, in ascending order, every index
    /// whose cell is the empty digit set.
    pub fn find_all(data: &Vec<NumSet>) -> (r: SpaceSet)
        requires
            data@.len() == 81,
        ensures
            r@.no_duplicates(),
            r@.len() <= 81,
            forall|k: int| 0 <= k < r@.len() ==> r@[k] < 81,
            forall|k: int, l: int| 0 <= k < l < r@.len() ==> r@[k] < r@[l],
            forall|i: int| 0 <= i < 81 ==> (r@.contains(i as usize) <==> data@[i] == empty_ns()),
    {
        let mut out = SpaceSet::empty();
        let mut i: usize = 0;
        while i < 81
            invariant
                i <= 81,
                data@.len() == 81,
                out@.len() <= i,
                forall|k: int| 0 <= k < out@.len() ==> out@[k] < i,
                forall|k: int, l: int| 0 <= k < l < out@.len() ==> out@[k] < out@[l],
                forall|j: int| 0 <= j < i ==> (out@.contains(j as usize) <==> data@[j]
                    == empty_ns()),
            decreases 81 - i,
        {
            if data[i].is_empty() {
                let ghost prev = out@;
                out.insert(i);
                proof {
                    assert forall|j: int| 0 <= j < i + 1 implies (out@.contains(j as usize)
                        <==> data@[j] == empty_ns()) by {
                        if j < i {
                            assert(out@.contains(j as usize) <==> prev.contains(j as usize)
                                || j == i) by {
                                if prev.contains(j as usize) {
                                    let k = choose|k: int|
                                        0 <= k < prev.len() && prev[k] == j as usize;
                                    assert(out@[k] == j as usize);
                                }
                                if out@.contains(j as usize) {
                                    let k = choose|k: int|
                                        0 <= k < out@.len() && out@[k] == j as usize;
                                    if k < prev.len() {
                                        assert(prev[k] == j as usize);
                                    }
                                }
                            }
                        } else {
                            assert(out@[out@.len() - 1] == i as usize);
                        }
                    }
                }
            } else {
                proof {
                    assert forall|j: int| 0 <= j < i + 1 implies (out@.contains(j as usize)
                        <==> data@[j] == empty_ns()) by {
                        if j == i && out@.contains(j as usize) {
                            let k = choose|k: int| 0 <= k < out@.len() && out@[k] == j as usize;
                            assert(out@[k] < i);
                        }
                    }
                }
            }
            i = i + 1;
        }
        proof {
            assert forall|k: int, l: int|
                0 <= k < out@.len() && 0 <= l < out@.len() && k != l implies out@[k] != out@[l] by {
                if k < l {
                    assert(out@[k] < out@[l]);
                } else {
                    assert(out@[l] < out@[k]);
                }
            }
        }
        out
    }
}

/// What removal by position does to membership: under no duplicates,
/// exactly the element at the removed position leaves.
pub proof fn lemma_remove_membership(q: Seq<usize>, p: int)
    requires
        q.no_duplicates(),
        0 <= p < q.len(),
    ensures
        remove_model(q, p).no_duplicates(),
        remove_model(q, p).len() == q.len() - 1,
        forall|x: usize| remove_model(q, p).contains(x) <==> (q.contains(x) && x != q[p]),
{
    let r = remove_model(q, p);
    assert forall|x: usize| r.contains(x) implies (q.contains(x) && x != q[p]) by {
        let k = choose|k: int| 0 <= k < r.len() && r[k] == x;
        if k == p {
            assert(q[q.len() - 1] == x);
        } else {
            assert(q[k] == x);
        }
        assert(q.contains(x));
        if x == q[p] {
            if k == p {
                assert(q[q.len() - 1] == q[p]);
                assert(p == q.len() - 1);
            } else {
                assert(q[k] == q[p]);
            }
        }
    }
    assert forall|x: usize| q.contains(x) && x != q[p] implies r.contains(x) by {
        let k = choose|k: int| 0 <= k < q.len() && q[k] == x;
        if k == q.len() - 1 {
            assert(k != p);
            assert(r[p] == x);
        } else if k == p {
            assert(false);
        } else {
            assert(r[k] == x);
        }
    }
    assert forall|i: int, j: int|
        0 <= i < r.len() && 0 <= j < r.len() && i != j implies r[i] != r[j] by {
        let qi: int = if i == p { q.len() - 1 } else { i };
        let qj: int = if j == p { q.len() - 1 } else { j };
        assert(r[i] == q[qi]);
        assert(r[j] == q[qj]);
    }
}

/// Removable index set semantics: inserting `i` into a set that does not
/// hold it and then removing the position where `i` landed restores the
/// set exactly, so in particular `i` is gone; and in general, insertion
/// adds exactly its argument to the membership while removal by position
/// subtracts exactly the element that stood there.
pub proof fn law_removable_index_set(s: Seq<usize>, i: usize, p: int)
    requires
        s.no_duplicates(),
        !s.contains(i),
        0 <= p < s.push(i).len(),
        s.push(i)[p] == i,
    ensures
        remove_model(s.push(i), p) == s,
        !remove_model(s.push(i), p).contains(i),
        forall|x: usize| s.push(i).contains(x) <==> (s.contains(x) || x == i),
        forall|x: usize| remove_model(s.push(i), p).contains(x) <==> (s.push(i).contains(x) && x
            != i),
{
    let q = s.push(i);
    assert(q.no_duplicates()) by {
        assert forall|a: int, b: int|
            0 <= a < q.len() && 0 <= b < q.len() && a != b implies q[a] != q[b] by {
            if a < s.len() && b < s.len() {
            } else if a < s.len() {
                assert(q[b] == i);
                if q[a] == i {
                    assert(s.contains(i));
                }
            } else {
                assert(q[a] == i);
                if q[b] == i && b < s.len() {
                    assert(s.contains(i));
                }
            }
        }
    }
    assert(p == q.len() - 1) by {
        if p < s.len() {
            assert(s[p] == i);
            assert(s.contains(i));
        }
    }
    assert(remove_model(q, p) =~= s);
    lemma_remove_membership(q, p);
    assert forall|x: usize| s.push(i).contains(x) implies (s.contains(x) || x == i) by {
        let k = choose|k: int| 0 <= k < q.len() && q[k] == x;
        if k < s.len() {
            assert(s[k] == x);
        }
    }
    assert forall|x: usize| s.contains(x) implies s.push(i).contains(x) by {
        let k = choose|k: int| 0 <= k < s.len() && s[k] == x;
        assert(q[k] == x);
    }
    assert(q.contains(i)) by {
        assert(q[q.len() - 1] == i);
    }
}

} // verus!
