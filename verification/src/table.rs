//! A map from integers that is walked in ascending order of key.

use vstd::prelude::*;

verus! {

/// A map from integers, held as its keys in ascending order and the value of each.
pub struct Table<V: View> {
    keys: Vec<i128>,
    vals: Vec<V>,
}

impl<V: View> View for Table<V> {
    type V = Map<int, V::V>;

    closed spec fn view(&self) -> Map<int, V::V> {
        Map::new(|k: int| self.order().contains(k), |k: int| self.vals@[self.order().index_of(k)]@)
    }
}

impl<V: View> Table<V> {
    /// The keys in the order in which the table is walked.
    pub closed spec fn order(&self) -> Seq<int> {
        Seq::new(self.keys@.len(), |i: int| self.keys@[i] as int)
    }

    /// Every key has one value, and the keys ascend.
    pub closed spec fn wf(&self) -> bool {
        &&& self.keys@.len() == self.vals@.len()
        &&& forall|i: int, j: int| 0 <= i < j < self.keys@.len() ==> self.keys@[i] < self.keys@[j]
    }

    proof fn lemma_at(&self, i: int)
        requires
            self.wf(),
            0 <= i < self.keys@.len(),
        ensures
            self@.contains_key(self.keys@[i] as int),
            self@[self.keys@[i] as int] == self.vals@[i]@,
    {
        let k = self.keys@[i] as int;
        assert(self.order()[i] == k);
        let j = self.order().index_of(k);
        assert(self.order()[j] == k);
        if i < j {
            assert(self.keys@[i] < self.keys@[j]);
        } else if j < i {
            assert(self.keys@[j] < self.keys@[i]);
        }
    }

    /// A table is walked over exactly its keys, each once, from the lowest to the highest.
    pub proof fn law_order(&self)
        requires
            self.wf(),
        ensures
            forall|i: int, j: int| 0 <= i < j < self.order().len() ==> self.order()[i] < self.order()[j],
            forall|k: int| self@.contains_key(k) <==> self.order().contains(k),
            forall|i: int| 0 <= i < self.order().len() ==> self@.contains_key(#[trigger] self.order()[i]),
    {
        assert forall|i: int| 0 <= i < self.order().len() implies self@.contains_key(#[trigger] self.order()[i]) by {
            assert(self.order().contains(self.order()[i]));
        }
    }

    pub fn new() -> (r: Self)
        ensures
            r.wf(),
            r@ == Map::<int, V::V>::empty(),
    {
        let r = Table { keys: Vec::new(), vals: Vec::new() };
        assert(r@ =~= Map::<int, V::V>::empty());
        r
    }

    pub fn len(&self) -> (r: usize)
        requires
            self.wf(),
        ensures
            r == self.order().len(),
    {
        self.keys.len()
    }

    pub fn is_empty(&self) -> (r: bool)
        requires
            self.wf(),
        ensures
            r <==> self@ == Map::<int, V::V>::empty(),
    {
        if self.keys.len() == 0 {
            assert(self@ =~= Map::<int, V::V>::empty());
            true
        } else {
            proof {
                self.lemma_at(0);
            }
            false
        }
    }

    /// The key at place `i` of the walk.
    pub fn key_at(&self, i: usize) -> (r: i128)
        requires
            self.wf(),
            i < self.order().len(),
        ensures
            r == self.order()[i as int],
    {
        self.keys[i]
    }

    /// The value at place `i` of the walk.
    pub fn value_at(&self, i: usize) -> (r: &V)
        requires
            self.wf(),
            i < self.order().len(),
        ensures
            self@.contains_key(self.order()[i as int]),
            r@ == self@[self.order()[i as int]],
    {
        proof {
            self.lemma_at(i as int);
        }
        &self.vals[i]
    }

    /// Where `k` stands among the keys, or where it would stand.
    fn seek(&self, k: i128) -> (r: usize)
        requires
            self.wf(),
        ensures
            r <= self.keys@.len(),
            forall|i: int| 0 <= i < r ==> self.keys@[i] < k,
            forall|i: int| r <= i < self.keys@.len() ==> self.keys@[i] >= k,
    {
        let (mut low, mut high): (usize, usize) = (0, self.keys.len());
        while low < high
            invariant
                low <= high <= self.keys@.len(),
                self.wf(),
                forall|i: int| 0 <= i < low ==> self.keys@[i] < k,
                forall|i: int| high <= i < self.keys@.len() ==> self.keys@[i] >= k,
            decreases high - low,
        {
            let mid: usize = low + (high - low) / 2;
            if self.keys[mid] < k {
                low = mid + 1;
            } else {
                high = mid;
            }
        }
        low
    }

    /// The value of `k`.
    pub fn get(&self, k: i128) -> (r: Option<&V>)
        requires
            self.wf(),
        ensures
            r is Some == self@.contains_key(k as int),
            r matches Some(v) ==> v@ == self@[k as int],
    {
        let i: usize = self.seek(k);
        if i < self.keys.len() && self.keys[i] == k {
            proof {
                self.lemma_at(i as int);
            }
            Some(&self.vals[i])
        } else {
            assert(!self.order().contains(k as int)) by {
                if self.order().contains(k as int) {
                    let j = self.order().index_of(k as int);
                    assert(self.order()[j] == k);
                    assert(self.keys@[j] == k);
                    if j > i {
                        assert(self.keys@[i as int] < self.keys@[j]);
                    }
                }
            }
            None
        }
    }

    /// Gives `k` the value `v`.
    pub fn set(&mut self, k: i128, v: V)
        requires
            old(self).wf(),
        ensures
            final(self).wf(),
            final(self)@ == old(self)@.insert(k as int, v@),
    {
        let i: usize = self.seek(k);
        let ghost before = *self;
        if i < self.keys.len() && self.keys[i] == k {
            self.vals.set(i, v);
            proof {
                assert(self.order() =~= before.order());
                before.lemma_at(i as int);
                self.lemma_at(i as int);
                self.lemma_same_but(&before, k as int, i as int, i as int);
            }
        } else {
            self.keys.insert(i, k);
            self.vals.insert(i, v);
            proof {
                assert forall|a: int, b: int| 0 <= a < b < self.keys@.len() implies self.keys@[a]
                    < self.keys@[b] by {
                    if a == i {
                        assert(before.keys@[b - 1] >= k);
                        assert(before.keys@[i as int] >= k && before.keys@[i as int] != k);
                        if b - 1 > i {
                            assert(before.keys@[i as int] < before.keys@[b - 1]);
                        }
                    } else if b == i {
                        assert(before.keys@[a] < k);
                    } else {
                        let x = if a < i { a } else { a - 1 };
                        let y = if b < i { b } else { b - 1 };
                        assert(before.keys@[x] < before.keys@[y]);
                    }
                }
                self.lemma_at(i as int);
                self.lemma_same_but(&before, k as int, i as int, i + 1);
            }
        }
        assert(self@ =~= before@.insert(k as int, v@));
    }

    /// Two tables that differ in the value of `k` alone, where the one has the entry of `k` at
    /// `at` and the other goes on at `from` with what the first has behind it.
    proof fn lemma_same_but(&self, before: &Self, k: int, at: int, behind: int)
        requires
            self.wf(),
            before.wf(),
            0 <= at < self.keys@.len(),
            self.keys@[at] == k,
            behind == at || behind == at + 1,
            self.keys@.len() == before.keys@.len() + (behind - at),
            forall|i: int| 0 <= i < at ==> self.keys@[i] == before.keys@[i] && self.vals@[i] == before.vals@[i],
            forall|i: int| at < i < self.keys@.len() ==> self.keys@[i] == before.keys@[i - (behind - at)]
                && self.vals@[i] == before.vals@[i - (behind - at)],
            behind == at ==> before.keys@[at] == k,
        ensures
            forall|q: int| q != k ==> self@.contains_key(q) == before@.contains_key(q),
            forall|q: int| q != k && before@.contains_key(q) ==> self@[q] == before@[q],
    {
        let shift = behind - at;
        assert forall|q: int| q != k && #[trigger] before@.contains_key(q) implies self@.contains_key(q) && self@[q]
            == before@[q] by {
            let j = before.order().index_of(q);
            assert(before.order()[j] == q);
            before.lemma_at(j);
            let i = if j < at { j } else { j + shift };
            self.lemma_at(i);
        }
        assert forall|q: int| q != k && #[trigger] self@.contains_key(q) implies before@.contains_key(q) by {
            let i = self.order().index_of(q);
            assert(self.order()[i] == q);
            self.lemma_at(i);
            let j = if i < at { i } else { i - shift };
            before.lemma_at(j);
        }
    }
}

/// Two tables that hold the same values under the same keys are walked alike.
pub proof fn law_same_table_same_walk<V: View>(a: Table<V>, b: Table<V>)
    requires
        a.wf(),
        b.wf(),
        a@ == b@,
    ensures
        a.order() == b.order(),
{
    a.law_order();
    b.law_order();
    lemma_same_ascent(a.order(), b.order());
}

/// One set of integers has one ascending order.
pub proof fn lemma_same_ascent(a: Seq<int>, b: Seq<int>)
    requires
        forall|i: int, j: int| 0 <= i < j < a.len() ==> a[i] < a[j],
        forall|i: int, j: int| 0 <= i < j < b.len() ==> b[i] < b[j],
        forall|k: int| a.contains(k) <==> b.contains(k),
    ensures
        a == b,
    decreases a.len(),
{
    if a.len() == 0 {
        if b.len() > 0 {
            assert(b.contains(b[0]));
        }
        assert(a =~= b);
    } else {
        assert(a.contains(a.last()));
        assert(b.len() > 0);
        assert(b.contains(b.last()));
        let j = b.index_of(a.last());
        let i = a.index_of(b.last());
        assert(b[j] == a.last() && a[i] == b.last());
        assert(a.last() == b.last()) by {
            if j < b.len() - 1 {
                assert(b[j] < b[b.len() - 1]);
                if i < a.len() - 1 {
                    assert(a[i] < a[a.len() - 1]);
                }
            }
        }
        let (c, d) = (a.drop_last(), b.drop_last());
        assert forall|k: int| c.contains(k) <==> d.contains(k) by {
            if c.contains(k) {
                let p = c.index_of(k);
                assert(a[p] == k && a[p] < a[a.len() - 1]);
                assert(a.contains(k));
                let q = b.index_of(k);
                assert(b[q] == k);
                assert(d[q] == k);
            }
            if d.contains(k) {
                let p = d.index_of(k);
                assert(b[p] == k && b[p] < b[b.len() - 1]);
                assert(b.contains(k));
                let q = a.index_of(k);
                assert(a[q] == k);
                assert(c[q] == k);
            }
        }
        lemma_same_ascent(c, d);
        assert(a =~= c.push(a.last()));
        assert(b =~= d.push(b.last()));
    }
}

} // verus!
