//! A binary min-heap of `(cost, node id)` entries.
use vstd::multiset::Multiset;
use vstd::prelude::*;

verus! {

broadcast use vstd::seq_lib::group_to_multiset_ensures, vstd::multiset::group_multiset_properties;

/// An entry of the queue: a tentative cost and a node id.
pub type Entry = (u64, usize);

/// Entries are ordered by cost, then by node id.
pub open spec fn entry_le(a: Entry, b: Entry) -> bool {
    a.0 < b.0 || (a.0 == b.0 && a.1 <= b.1)
}

spec fn parent(i: int) -> int {
    (i - 1) / 2
}

/// Every entry comes no earlier than its parent.
spec fn heap_ok(s: Seq<Entry>) -> bool {
    forall|i: int| #![trigger s[i]] 1 <= i < s.len() ==> entry_le(s[parent(i)], s[i])
}

/// The root of a heap comes no later than any entry.
proof fn lemma_root_least(s: Seq<Entry>, i: int)
    requires
        heap_ok(s),
        0 <= i < s.len(),
    ensures
        entry_le(s[0], s[i]),
    decreases i,
{
    if i > 0 {
        lemma_root_least(s, parent(i));
        assert(entry_le(s[parent(i)], s[i]));
    }
}

/// Exchanging two entries keeps the multiset of entries.
proof fn lemma_swap_multiset(s: Seq<Entry>, i: int, j: int)
    requires
        0 <= i < s.len(),
        0 <= j < s.len(),
    ensures
        s.update(i, s[j]).update(j, s[i]).to_multiset() =~= s.to_multiset(),
{
    let s1 = s.update(i, s[j]);
    assert(s1.to_multiset() == s.to_multiset().insert(s[j]).remove(s[i]));
    assert(s1.update(j, s[i]).to_multiset() == s1.to_multiset().insert(s[i]).remove(s1[j]));
    if i == j {
        assert(s1 =~= s);
    }
}

/// A min-priority queue of entries (a binary heap), least entry first.
pub struct MinQueue {
    items: Vec<Entry>,
}

impl View for MinQueue {
    type V = Multiset<Entry>;

    closed spec fn view(&self) -> Multiset<Entry> {
        self.items@.to_multiset()
    }
}

impl MinQueue {
    pub closed spec fn wf(&self) -> bool {
        heap_ok(self.items@)
    }

    pub fn new() -> (r: MinQueue)
        ensures
            r.wf(),
            r@ =~= Multiset::<Entry>::empty(),
    {
        let r = MinQueue { items: Vec::new() };
        assert(r.items@ =~= Seq::<Entry>::empty());
        r
    }

    pub fn len(&self) -> (r: usize)
        ensures
            r == self@.len(),
    {
        self.items.len()
    }

    fn less(a: Entry, b: Entry) -> (r: bool)
        ensures
            r == !entry_le(b, a),
    {
        a.0 < b.0 || (a.0 == b.0 && a.1 < b.1)
    }

    fn swap(&mut self, i: usize, j: usize)
        requires
            i < old(self).items@.len(),
            j < old(self).items@.len(),
        ensures
            final(self).items@ == old(self).items@.update(i as int, old(self).items@[j as int]).update(
                j as int,
                old(self).items@[i as int],
            ),
            final(self)@ == old(self)@,
    {
        let a = self.items[i];
        let b = self.items[j];
        self.items.set(i, b);
        self.items.set(j, a);
        proof {
            lemma_swap_multiset(old(self).items@, i as int, j as int);
        }
    }

    /// Adds an entry.
    pub fn push(&mut self, e: Entry)
        requires
            old(self).wf(),
        ensures
            final(self).wf(),
            final(self)@ =~= old(self)@.insert(e),
    {
        self.items.push(e);
        let ghost target = self@;
        let mut k: usize = self.items.len() - 1;
        while k > 0
            invariant
                0 <= k < self.items@.len(),
                self@ == target,
                forall|i: int|
                    #![trigger self.items@[i]]
                    1 <= i < self.items@.len() && i != k ==> entry_le(
                        self.items@[parent(i)],
                        self.items@[i],
                    ),
                forall|i: int|
                    #![trigger self.items@[i]]
                    1 <= i < self.items@.len() && parent(i) == k && k > 0 ==> entry_le(
                        self.items@[parent(k as int)],
                        self.items@[i],
                    ),
            ensures
                heap_ok(self.items@),
                self@ == target,
            decreases k,
        {
            let p = (k - 1) / 2;
            if !Self::less(self.items[k], self.items[p]) {
                assert(heap_ok(self.items@));
                break ;
            }
            let ghost s = self.items@;
            self.swap(k, p);
            proof {
                let t = self.items@;
                assert forall|i: int|
                    #![trigger t[i]]
                    1 <= i < t.len() && i != p ==> entry_le(t[parent(i)], t[i]) by {
                    if 1 <= i < t.len() && i != p {
                        if i == k {
                        } else if parent(i) == k {
                            assert(entry_le(s[parent(k as int)], s[i]));
                        } else if parent(i) == p {
                            assert(entry_le(s[p as int], s[i]));
                        } else {
                            assert(t[i] == s[i]);
                        }
                    }
                }
                assert forall|i: int|
                    #![trigger t[i]]
                    1 <= i < t.len() && parent(i) == p && p > 0 ==> entry_le(
                        t[parent(p as int)],
                        t[i],
                    ) by {
                    if 1 <= i < t.len() && parent(i) == p && p > 0 {
                        assert(entry_le(s[parent(p as int)], s[p as int]));
                        if i != k {
                            assert(entry_le(s[p as int], s[i]));
                        }
                    }
                }
            }
            k = p;
        }
    }

    /// Takes out a least entry, or `None` when the queue is empty.
    pub fn pop(&mut self) -> (r: Option<Entry>)
        requires
            old(self).wf(),
        ensures
            final(self).wf(),
            match r {
                Some(m) => old(self)@.contains(m) && final(self)@ =~= old(self)@.remove(m) && forall|y: Entry|
                    old(self)@.contains(y) ==> entry_le(m, y),
                None => old(self)@.len() == 0 && final(self)@ == old(self)@,
            },
    {
        if self.items.len() == 0 {
            return None;
        }
        let m = self.items[0];
        let ghost s0 = self.items@;
        proof {
            assert forall|y: Entry| old(self)@.contains(y) implies entry_le(m, y) by {
                assert(s0.contains(y));
                let i = choose|i: int| 0 <= i < s0.len() && s0[i] == y;
                lemma_root_least(s0, i);
            }
            assert(s0.contains(m));
        }
        let last = self.items.pop().unwrap();
        proof {
            assert(s0 =~= self.items@.push(last));
        }
        if self.items.len() == 0 {
            return Some(m);
        }
        let ghost s1 = self.items@;
        self.items.set(0, last);
        proof {
            assert(self.items@.to_multiset() == s1.to_multiset().insert(last).remove(s1[0]));
            assert(s1[0] == m);
        }
        let ghost target = self@;
        let n = self.items.len();
        let mut k: usize = 0;
        loop
            invariant
                n == self.items@.len(),
                0 <= k < n,
                self@ == target,
                forall|i: int|
                    #![trigger self.items@[i]]
                    1 <= i < n && parent(i) != k ==> entry_le(self.items@[parent(i)], self.items@[i]),
                forall|i: int|
                    #![trigger self.items@[i]]
                    1 <= i < n && parent(i) == k && k > 0 ==> entry_le(
                        self.items@[parent(k as int)],
                        self.items@[i],
                    ),
            ensures
                heap_ok(self.items@),
                self@ == target,
            decreases n - k,
        {
            let ghost s = self.items@;
            if k >= n / 2 {
                assert forall|i: int| #![trigger s[i]] 1 <= i < n implies entry_le(s[parent(i)], s[i]) by {
                    if parent(i) == k {
                        assert(i >= 2 * k + 1);
                    }
                }
                break ;
            }
            let l = 2 * k + 1;
            let r = 2 * k + 2;
            let c = if r < n && Self::less(self.items[r], self.items[l]) {
                r
            } else {
                l
            };
            if !Self::less(self.items[c], self.items[k]) {
                assert forall|i: int| #![trigger s[i]] 1 <= i < n implies entry_le(s[parent(i)], s[i]) by {
                    if parent(i) == k {
                        assert(i == l || i == r);
                    }
                }
                break ;
            }
            self.swap(k, c);
            proof {
                let t = self.items@;
                assert forall|i: int|
                    #![trigger t[i]]
                    1 <= i < n && parent(i) != c ==> entry_le(t[parent(i)], t[i]) by {
                    if 1 <= i < n && parent(i) != c {
                        if i == c {
                        } else if parent(i) == k {
                            assert(i == l || i == r);
                        } else if i == k {
                            assert(entry_le(s[parent(k as int)], s[c as int]));
                        } else {
                            assert(t[i] == s[i]);
                        }
                    }
                }
                assert forall|i: int|
                    #![trigger t[i]]
                    1 <= i < n && parent(i) == c && c > 0 ==> entry_le(t[parent(c as int)], t[i]) by {
                    if 1 <= i < n && parent(i) == c {
                        assert(entry_le(s[c as int], s[i]));
                    }
                }
            }
            k = c;
        }
        Some(m)
    }
}

} // verus!
