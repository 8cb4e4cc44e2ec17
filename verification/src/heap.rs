//! A binary min-heap of `u128` keys: the priority queue of the maze search.

use vstd::prelude::*;
use vstd::multiset::Multiset;

verus! {

broadcast use vstd::seq_lib::group_to_multiset_ensures;

pub open spec fn parent(i: int) -> int {
    (i - 1) / 2
}

/// Every key is no smaller than its parent's.
pub open spec fn heap_ordered(s: Seq<u128>) -> bool {
    forall|i: int| 0 < i < s.len() ==> #[trigger] s[parent(i)] <= s[i]
}

pub struct MinHeap {
    data: Vec<u128>,
}

proof fn lemma_root_least(s: Seq<u128>, i: int)
    requires
        heap_ordered(s),
        0 <= i < s.len(),
    ensures
        s[0] <= s[i],
    decreases i,
{
    if i > 0 {
        assert(s[parent(i)] <= s[i]);
        lemma_root_least(s, parent(i));
    }
}

proof fn lemma_swap_multiset(s: Seq<u128>, i: int, j: int)
    requires
        0 <= i < s.len(),
        0 <= j < s.len(),
    ensures
        s.update(i, s[j]).update(j, s[i]).to_multiset() =~= s.to_multiset(),
{
    let u = s.update(i, s[j]);
    assert(u[j] == if i == j { s[j] } else { s[j] });
    assert(u.to_multiset() == s.to_multiset().insert(s[j]).remove(s[i]));
    assert(u.update(j, s[i]).to_multiset() == u.to_multiset().insert(s[i]).remove(u[j]));
    assert forall|x: u128| #[trigger]
        u.update(j, s[i]).to_multiset().count(x) == s.to_multiset().count(x) by {
        assert(s.to_multiset().count(s[i]) > 0);
        assert(s.to_multiset().count(s[j]) > 0);
    }
}

impl MinHeap {
    /// The keys in the heap.
    pub closed spec fn keys(&self) -> Multiset<u128> {
        self.data@.to_multiset()
    }

    pub closed spec fn wf(&self) -> bool {
        heap_ordered(self.data@)
    }

    pub fn new() -> (h: MinHeap)
        ensures
            h.wf(),
            h.keys() =~= Multiset::empty(),
    {
        let h = MinHeap { data: Vec::new() };
        assert(h.data@.to_multiset().len() == 0);
        h
    }

    pub fn clear(&mut self)
        ensures
            final(self).wf(),
            final(self).keys() =~= Multiset::empty(),
    {
        self.data.clear();
        assert(self.data@.to_multiset().len() == 0);
    }

    pub fn push(&mut self, key: u128)
        requires
            old(self).wf(),
        ensures
            final(self).wf(),
            final(self).keys() == old(self).keys().insert(key),
    {
        let ghost s0 = self.data@;
        self.data.push(key);
        let mut pos = self.data.len() - 1;
        // Sift up: the only pair that may be out of order is (parent(pos), pos).
        while pos > 0
            invariant
                0 <= pos < self.data@.len(),
                self.data@.to_multiset() == s0.to_multiset().insert(key),
                forall|i: int|
                    0 < i < self.data@.len() && i != pos ==> #[trigger] self.data@[parent(i)]
                        <= self.data@[i],
                forall|c: int|
                    0 < c < self.data@.len() && parent(c) == pos && pos > 0 ==> self.data@[parent(
                        pos as int,
                    )] <= #[trigger] self.data@[c],
            ensures
                heap_ordered(self.data@),
                self.data@.to_multiset() == s0.to_multiset().insert(key),
            decreases pos,
        {
            let p = (pos - 1) / 2;
            if self.data[p] <= self.data[pos] {
                break;
            }
            let ghost s = self.data@;
            let a = self.data[p];
            let b = self.data[pos];
            self.data.set(p, b);
            self.data.set(pos, a);
            proof {
                lemma_swap_multiset(s, p as int, pos as int);
                assert(self.data@ == s.update(p as int, s[pos as int]).update(pos as int, s[p as int]));
            }
            pos = p;
        }
    }

    pub fn is_empty(&self) -> (r: bool)
        ensures
            r == (self.keys().len() == 0),
    {
        self.data.len() == 0
    }

    /// Takes out a least key.
    pub fn pop(&mut self) -> (r: Option<u128>)
        requires
            old(self).wf(),
        ensures
            final(self).wf(),
            match r {
                None => old(self).keys().len() == 0 && final(self).keys() == old(self).keys(),
                Some(k) => old(self).keys().count(k) > 0 && (forall|x: u128|
                    old(self).keys().count(x) > 0 ==> k <= x) && final(self).keys()
                    == old(self).keys().remove(k),
            },
    {
        if self.data.len() == 0 {
            return None;
        }
        let ghost s0 = self.data@;
        let top = self.data[0];
        proof {
            assert forall|x: u128| s0.to_multiset().count(x) > 0 implies top <= x by {
                let i = s0.index_of(x);
                lemma_root_least(s0, i);
            }
        }
        let last = self.data.pop().unwrap();
        let ghost s1 = self.data@;
        proof {
            assert(s0 == s1.push(last));
            assert(s0.remove(s0.len() - 1) =~= s1);
        }
        if self.data.len() == 0 {
            proof {
                assert(s1.to_multiset() == s0.to_multiset().remove(s0[s0.len() - 1]));
            }
            return Some(top);
        }
        self.data.set(0, last);
        proof {
            assert(self.data@.to_multiset() == s1.to_multiset().insert(last).remove(s1[0]));
        }
        let n = self.data.len();
        let mut pos: usize = 0;
        // Sift down: the only pairs that may be out of order are (pos, child).
        loop
            invariant
                n == self.data@.len(),
                n > 0,
                pos < n,
                self.data@.to_multiset() == s0.to_multiset().remove(top),
                forall|i: int|
                    0 < i < n && parent(i) != pos ==> #[trigger] self.data@[parent(i)]
                        <= self.data@[i],
                forall|c: int|
                    0 < c < n && parent(c) == pos && pos > 0 ==> self.data@[parent(pos as int)]
                        <= #[trigger] self.data@[c],
            ensures
                heap_ordered(self.data@),
                self.data@.to_multiset() == s0.to_multiset().remove(top),
            decreases n - pos,
        {
            let (l, r) = if pos <= (usize::MAX - 2) / 2 {
                (2 * pos + 1, 2 * pos + 2)
            } else {
                (n, n)
            };
            let mut m = pos;
            if l < n && self.data[l] < self.data[m] {
                m = l;
            }
            if r < n && self.data[r] < self.data[m] {
                m = r;
            }
            if m == pos {
                break;
            }
            let ghost s = self.data@;
            let a = self.data[pos];
            let b = self.data[m];
            self.data.set(pos, b);
            self.data.set(m, a);
            proof {
                lemma_swap_multiset(s, m as int, pos as int);
                assert(self.data@ == s.update(m as int, s[pos as int]).update(pos as int, s[m as int])) by {
                    assert(self.data@ =~= s.update(m as int, s[pos as int]).update(pos as int, s[m as int]));
                }
                assert(parent(l as int) == pos);
                assert(parent(r as int) == pos);
            }
            pos = m;
        }
        Some(top)
    }
}

} // verus!
