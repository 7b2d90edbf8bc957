//! Stable sorting by an integer key.

use vstd::prelude::*;

verus! {

/// A value that is ordered by an integer.
pub trait Keyed: Sized {
    /// The integer by which the value is ordered.
    spec fn key(&self) -> int;

    fn sort_key(&self) -> (r: i128)
        ensures
            r == self.key(),
    ;

    fn duplicate(&self) -> (r: Self)
        ensures
            r == *self,
    ;
}

impl Keyed for i32 {
    open spec fn key(&self) -> int {
        *self as int
    }

    fn sort_key(&self) -> (r: i128) {
        *self as i128
    }

    fn duplicate(&self) -> (r: i32) {
        *self
    }
}

/// `x` put into `s` behind everything whose key is not above its own.
pub open spec fn put<T: Keyed>(s: Seq<T>, x: T) -> Seq<T>
    decreases s.len(),
{
    if s.len() == 0 || s.last().key() <= x.key() {
        s.push(x)
    } else {
        put(s.drop_last(), x).push(s.last())
    }
}

/// `s` in ascending order of key, values of one key in the order they had.
pub open spec fn sorted<T: Keyed>(s: Seq<T>) -> Seq<T>
    decreases s.len(),
{
    if s.len() == 0 {
        Seq::empty()
    } else {
        put(sorted(s.drop_last()), s.last())
    }
}

/// No key stands before a lower one.
pub open spec fn ascending<T: Keyed>(s: Seq<T>) -> bool {
    forall|i: int, j: int| 0 <= i <= j < s.len() ==> (#[trigger] s[i]).key() <= (#[trigger] s[j]).key()
}

proof fn lemma_put<T: Keyed>(s: Seq<T>, x: T, pos: int)
    requires
        ascending(s),
        0 <= pos <= s.len(),
        forall|k: int| 0 <= k < pos ==> (#[trigger] s[k]).key() <= x.key(),
        forall|k: int| pos <= k < s.len() ==> (#[trigger] s[k]).key() > x.key(),
    ensures
        put(s, x) == s.insert(pos, x),
        ascending(put(s, x)),
    decreases s.len(),
{
    if s.len() == 0 || s.last().key() <= x.key() {
        assert(pos == s.len());
        assert(s.insert(pos, x) =~= s.push(x));
    } else {
        assert(pos < s.len());
        lemma_put(s.drop_last(), x, pos);
        assert(s.drop_last().insert(pos, x).push(s.last()) =~= s.insert(pos, x));
    }
}

/// The place behind everything in `s` whose key is not above `key`.
fn place_for<T: Keyed>(s: &Vec<T>, key: i128) -> (pos: usize)
    requires
        ascending(s@),
    ensures
        pos <= s@.len(),
        forall|k: int| 0 <= k < pos ==> (#[trigger] s@[k]).key() <= key,
        forall|k: int| pos <= k < s@.len() ==> (#[trigger] s@[k]).key() > key,
{
    let (mut low, mut high): (usize, usize) = (0, s.len());
    while low < high
        invariant
            low <= high <= s@.len(),
            ascending(s@),
            forall|k: int| 0 <= k < low ==> (#[trigger] s@[k]).key() <= key,
            forall|k: int| high <= k < s@.len() ==> (#[trigger] s@[k]).key() > key,
        decreases high - low,
    {
        let mid: usize = low + (high - low) / 2;
        let there: i128 = s[mid].sort_key();
        if there <= key {
            low = mid + 1;
        } else {
            high = mid;
        }
    }
    low
}

/// `v` in ascending order of key, values of one key in the order they had.
pub fn sort_keyed<T: Keyed>(v: &Vec<T>) -> (r: Vec<T>)
    ensures
        r@ == sorted(v@),
{
    let n: usize = v.len();
    let mut out: Vec<T> = Vec::new();
    let mut i: usize = 0;
    while i < n
        invariant
            n == v@.len(),
            i <= n,
            out@ == sorted(v@.take(i as int)),
            ascending(out@),
        decreases n - i,
    {
        let key: i128 = v[i].sort_key();
        let pos: usize = place_for(&out, key);
        proof {
            lemma_put(out@, v@[i as int], pos as int);
            assert(v@.take(i + 1).drop_last() =~= v@.take(i as int));
        }
        out.insert(pos, v[i].duplicate());
        i = i + 1;
    }
    assert(v@.take(n as int) =~= v@);
    out
}

proof fn lemma_place_exists<T: Keyed>(s: Seq<T>, key: int) -> (pos: int)
    requires
        ascending(s),
    ensures
        0 <= pos <= s.len(),
        forall|k: int| 0 <= k < pos ==> (#[trigger] s[k]).key() <= key,
        forall|k: int| pos <= k < s.len() ==> (#[trigger] s[k]).key() > key,
    decreases s.len(),
{
    if s.len() == 0 || s.last().key() <= key {
        s.len() as int
    } else {
        let pos = lemma_place_exists(s.drop_last(), key);
        assert forall|k: int| 0 <= k < pos implies (#[trigger] s[k]).key() <= key by {
            assert(s.drop_last()[k] == s[k]);
        }
        assert forall|k: int| pos <= k < s.len() implies (#[trigger] s[k]).key() > key by {
            if k < s.len() - 1 {
                assert(s.drop_last()[k] == s[k]);
            }
        }
        pos
    }
}

/// Sorting leaves no key before a lower one.
pub proof fn law_sorted_ascends<T: Keyed>(s: Seq<T>)
    ensures
        ascending(sorted(s)),
        sorted(s).len() == s.len(),
    decreases s.len(),
{
    if s.len() > 0 {
        law_sorted_ascends(s.drop_last());
        let pos = lemma_place_exists(sorted(s.drop_last()), s.last().key());
        lemma_put(sorted(s.drop_last()), s.last(), pos);
    }
}

/// The values of `s` with that key, in the order they have.
pub open spec fn of_key<T: Keyed>(s: Seq<T>, key: int) -> Seq<T>
    decreases s.len(),
{
    if s.len() == 0 {
        Seq::empty()
    } else if s.last().key() == key {
        of_key(s.drop_last(), key).push(s.last())
    } else {
        of_key(s.drop_last(), key)
    }
}

proof fn lemma_put_keeps<T: Keyed>(s: Seq<T>, x: T, key: int)
    requires
        ascending(s),
    ensures
        of_key(put(s, x), key) == if x.key() == key {
            of_key(s, key).push(x)
        } else {
            of_key(s, key)
        },
    decreases s.len(),
{
    if s.len() == 0 || s.last().key() <= x.key() {
        assert(s.push(x).drop_last() =~= s);
    } else {
        lemma_put_keeps(s.drop_last(), x, key);
        let shorter = put(s.drop_last(), x);
        assert(shorter.push(s.last()).drop_last() =~= shorter);
    }
}

/// Sorting keeps, for every key, the values of that key and the order they had among themselves:
/// it is a stable rearrangement.
pub proof fn law_sorted_is_stable<T: Keyed>(s: Seq<T>, key: int)
    ensures
        of_key(sorted(s), key) == of_key(s, key),
    decreases s.len(),
{
    if s.len() > 0 {
        law_sorted_is_stable(s.drop_last(), key);
        law_sorted_ascends(s.drop_last());
        lemma_put_keeps(sorted(s.drop_last()), s.last(), key);
    }
}

/// What is in order already stays as it is.
pub proof fn law_sorted_keeps_order<T: Keyed>(s: Seq<T>)
    requires
        ascending(s),
    ensures
        sorted(s) == s,
    decreases s.len(),
{
    if s.len() > 0 {
        assert(ascending(s.drop_last())) by {
            assert forall|i: int, j: int| 0 <= i <= j < s.drop_last().len() implies (
            #[trigger] s.drop_last()[i]).key() <= (#[trigger] s.drop_last()[j]).key() by {
                assert(s[i].key() <= s[j].key());
            }
        }
        law_sorted_keeps_order(s.drop_last());
        let t = s.drop_last();
        if t.len() > 0 {
            assert(s[t.len() - 1].key() <= s[s.len() - 1].key());
        }
        assert(t.push(s.last()) =~= s);
    }
}

proof fn lemma_put_multiset<T: Keyed>(s: Seq<T>, x: T)
    ensures
        put(s, x).to_multiset() == s.to_multiset().insert(x),
    decreases s.len(),
{
    if s.len() == 0 || s.last().key() <= x.key() {
        s.to_multiset_ensures();
    } else {
        lemma_put_multiset(s.drop_last(), x);
        let shorter = put(s.drop_last(), x);
        shorter.to_multiset_ensures();
        s.drop_last().to_multiset_ensures();
        assert(s =~= s.drop_last().push(s.last()));
        assert(s.to_multiset().insert(x) =~= s.drop_last().to_multiset().insert(x).insert(s.last()));
    }
}

/// Sorting loses no value and doubles none.
pub proof fn law_sorted_keeps_values<T: Keyed>(s: Seq<T>)
    ensures
        sorted(s).to_multiset() == s.to_multiset(),
    decreases s.len(),
{
    if s.len() > 0 {
        law_sorted_keeps_values(s.drop_last());
        lemma_put_multiset(sorted(s.drop_last()), s.last());
        s.drop_last().to_multiset_ensures();
        assert(s =~= s.drop_last().push(s.last()));
    } else {
        assert(s =~= Seq::empty());
    }
}

} // verus!
