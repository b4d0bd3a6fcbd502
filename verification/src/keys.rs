//! Ascending key arrays: the ordered search and the edits that a node's key
//! array goes through.

use crate::order::{less, lt, total_order};
use vstd::prelude::*;

verus! {

/// `s` is strictly ascending, so it holds no key twice.
pub open spec fn ascending<T: Ord>(s: Seq<T>) -> bool {
    forall|i: int, j: int| #![trigger s[i], s[j]] 0 <= i < j < s.len() ==> lt(s[i], s[j])
}

/// The number of leading keys of `s` that sort strictly before `key`: in an
/// ascending array, the place where `key` stands or would be put.
pub open spec fn rank<T: Ord>(s: Seq<T>, key: T) -> int
    decreases s.len(),
{
    if s.len() == 0 {
        0
    } else if lt(s[0], key) {
        1 + rank(s.subrange(1, s.len() as int), key)
    } else {
        0
    }
}

/// The number of leading keys of `s` that do not sort after `key`: in the
/// separator array of an internal node, the child that `key` is routed to.
pub open spec fn slot<T: Ord>(s: Seq<T>, key: T) -> int {
    let r = rank(s, key);
    if r < s.len() && s[r] == key {
        r + 1
    } else {
        r
    }
}

/// `rank` splits an ascending array into the keys before `key` and the rest.
pub proof fn lemma_rank<T: Ord>(s: Seq<T>, key: T)
    requires
        total_order::<T>(),
        ascending(s),
    ensures
        0 <= rank(s, key) <= s.len(),
        forall|i: int| 0 <= i < rank(s, key) ==> lt(#[trigger] s[i], key),
        forall|i: int| rank(s, key) <= i < s.len() ==> !lt(#[trigger] s[i], key),
        s.contains(key) <==> (rank(s, key) < s.len() && s[rank(s, key)] == key),
    decreases s.len(),
{
    if s.len() > 0 {
        let t = s.subrange(1, s.len() as int);
        assert forall|i: int, j: int| 0 <= i < j < t.len() implies lt(t[i], t[j]) by {
            assert(t[i] == s[i + 1] && t[j] == s[j + 1]);
        }
        lemma_rank(t, key);
        if lt(s[0], key) {
            assert forall|i: int| 0 <= i < rank(s, key) implies lt(#[trigger] s[i], key) by {
                if i > 0 {
                    assert(s[i] == t[i - 1]);
                }
            }
            assert forall|i: int| rank(s, key) <= i < s.len() implies !lt(#[trigger] s[i], key) by {
                assert(s[i] == t[i - 1]);
            }
            if s.contains(key) {
                let i = choose|i: int| 0 <= i < s.len() && s[i] == key;
                assert(i >= rank(s, key));
            }
        } else {
            assert forall|i: int| 0 <= i < s.len() implies !lt(#[trigger] s[i], key) by {
                if i > 0 {
                    assert(lt(s[0], s[i]));
                }
            }
            if s.contains(key) {
                let i = choose|i: int| 0 <= i < s.len() && s[i] == key;
                if i > 0 {
                    assert(lt(s[0], s[i]));
                }
            }
        }
    }
    if rank(s, key) < s.len() && s[rank(s, key)] == key {
        assert(s.contains(key));
    } else if s.contains(key) {
        let i = choose|i: int| 0 <= i < s.len() && s[i] == key;
        assert(i >= rank(s, key));
        assert(lt(s[rank(s, key)], s[i]));
    }
}

/// `slot` splits an ascending array into the keys that do not sort after `key`
/// and the keys that do.
pub proof fn lemma_slot<T: Ord>(s: Seq<T>, key: T)
    requires
        total_order::<T>(),
        ascending(s),
    ensures
        0 <= slot(s, key) <= s.len(),
        forall|i: int| 0 <= i < slot(s, key) ==> !lt(key, #[trigger] s[i]),
        forall|i: int| slot(s, key) <= i < s.len() ==> lt(key, #[trigger] s[i]),
{
    lemma_rank(s, key);
    let r = rank(s, key);
    assert forall|i: int| 0 <= i < slot(s, key) implies !lt(key, #[trigger] s[i]) by {
        if i < r {
            assert(lt(s[i], key));
        } else {
            assert(s[i] == key);
            if lt(key, key) {
                assert(!lt(key, key));
            }
        }
    }
    assert forall|i: int| slot(s, key) <= i < s.len() implies lt(key, #[trigger] s[i]) by {
        assert(!lt(s[i], key));
        if s[i] == key {
            assert(r < s.len() && s[r] != key);
            assert(i > r);
            assert(lt(s[r], s[i]));
        }
    }
}

/// Any place that splits an ascending array as `rank` does is `rank`.
pub proof fn lemma_rank_is<T: Ord>(s: Seq<T>, key: T, p: int)
    requires
        total_order::<T>(),
        ascending(s),
        0 <= p <= s.len(),
        forall|i: int| 0 <= i < p ==> lt(#[trigger] s[i], key),
        forall|i: int| p <= i < s.len() ==> !lt(#[trigger] s[i], key),
    ensures
        rank(s, key) == p,
{
    lemma_rank(s, key);
    let r = rank(s, key);
    if r < p {
        assert(lt(s[r], key));
    } else if p < r {
        assert(lt(s[p], key));
    }
}

/// Two ascending arrays that hold the same keys are the same array.
pub proof fn lemma_ascending_same<T: Ord>(a: Seq<T>, b: Seq<T>)
    requires
        total_order::<T>(),
        ascending(a),
        ascending(b),
        forall|k: T| a.contains(k) <==> b.contains(k),
    ensures
        a == b,
    decreases a.len(),
{
    if a.len() == 0 {
        if b.len() > 0 {
            assert(b.contains(b[0]));
        }
        assert(a =~= b);
    } else if b.len() == 0 {
        assert(a.contains(a[0]));
    } else {
        // the last key of each is its greatest, so they agree on it
        let x = a.last();
        let y = b.last();
        assert(a.contains(x));
        assert(b.contains(y));
        let i = choose|i: int| 0 <= i < b.len() && b[i] == x;
        let j = choose|j: int| 0 <= j < a.len() && a[j] == y;
        if i < b.len() - 1 {
            assert(lt(b[i], b[b.len() - 1]));
        }
        if j < a.len() - 1 {
            assert(lt(a[j], a[a.len() - 1]));
        }
        assert(x == y);
        let a1 = a.drop_last();
        let b1 = b.drop_last();
        assert forall|k: T| a1.contains(k) <==> b1.contains(k) by {
            if a1.contains(k) {
                let p = choose|p: int| 0 <= p < a1.len() && a1[p] == k;
                assert(a[p] == k);
                assert(lt(a[p], a[a.len() - 1]));
                assert(a.contains(k));
                let q = choose|q: int| 0 <= q < b.len() && b[q] == k;
                assert(q < b.len() - 1);
                assert(b1[q] == k);
            }
            if b1.contains(k) {
                let p = choose|p: int| 0 <= p < b1.len() && b1[p] == k;
                assert(b[p] == k);
                assert(lt(b[p], b[b.len() - 1]));
                assert(b.contains(k));
                let q = choose|q: int| 0 <= q < a.len() && a[q] == k;
                assert(q < a.len() - 1);
                assert(a1[q] == k);
            }
        }
        assert forall|p: int, q: int| 0 <= p < q < a1.len() implies lt(a1[p], a1[q]) by {
            assert(a1[p] == a[p] && a1[q] == a[q]);
        }
        assert forall|p: int, q: int| 0 <= p < q < b1.len() implies lt(b1[p], b1[q]) by {
            assert(b1[p] == b[p] && b1[q] == b[q]);
        }
        lemma_ascending_same(a1, b1);
        assert(a =~= a1.push(x));
        assert(b =~= b1.push(y));
    }
}

/// Putting a new key at its place into an ascending array gives an ascending
/// array that holds that key beside the others.
pub proof fn lemma_insert_ascending<T: Ord>(s: Seq<T>, key: T)
    requires
        total_order::<T>(),
        ascending(s),
        !s.contains(key),
    ensures
        ascending(s.insert(rank(s, key), key)),
        forall|k: T| s.insert(rank(s, key), key).contains(k) <==> (s.contains(k) || k == key),
{
    lemma_rank(s, key);
    let r = rank(s, key);
    let t = s.insert(r, key);
    assert forall|a: int, b: int| 0 <= a < b < t.len() implies lt(t[a], t[b]) by {
        let a1 = if a < r { a } else { a - 1 };
        let b1 = if b < r { b } else { b - 1 };
        if a != r && b != r {
            assert(t[a] == s[a1] && t[b] == s[b1]);
        } else if a == r {
            assert(t[b] == s[b1]);
            assert(!lt(s[b1], key));
            assert(s.contains(s[b1]));
        } else {
            assert(t[a] == s[a1]);
        }
    }
    assert forall|k: T| t.contains(k) <==> (s.contains(k) || k == key) by {
        if t.contains(k) {
            let x = choose|x: int| 0 <= x < t.len() && t[x] == k;
            if x < r {
                assert(s[x] == k);
            } else if x > r {
                assert(s[x - 1] == k);
            }
        }
        if s.contains(k) {
            let x = choose|x: int| 0 <= x < s.len() && s[x] == k;
            let x2 = if x < r { x } else { x + 1 };
            assert(t[x2] == k);
        }
        if k == key {
            assert(t[r] == k);
        }
    }
}

/// Taking a key from its place in an ascending array gives an ascending
/// array that holds the other keys.
pub proof fn lemma_remove_ascending<T: Ord>(s: Seq<T>, key: T)
    requires
        total_order::<T>(),
        ascending(s),
        s.contains(key),
    ensures
        0 <= rank(s, key) < s.len(),
        ascending(s.remove(rank(s, key))),
        forall|k: T| s.remove(rank(s, key)).contains(k) <==> (s.contains(k) && k != key),
{
    lemma_rank(s, key);
    let r = rank(s, key);
    let t = s.remove(r);
    assert forall|a: int, b: int| 0 <= a < b < t.len() implies lt(t[a], t[b]) by {
        let a1 = if a < r { a } else { a + 1 };
        let b1 = if b < r { b } else { b + 1 };
        assert(t[a] == s[a1] && t[b] == s[b1]);
    }
    assert forall|k: T| t.contains(k) <==> (s.contains(k) && k != key) by {
        if t.contains(k) {
            let x = choose|x: int| 0 <= x < t.len() && t[x] == k;
            let x1 = if x < r { x } else { x + 1 };
            assert(s[x1] == k);
            if x1 < r {
                assert(lt(s[x1], s[r]));
            } else {
                assert(lt(s[r], s[x1]));
            }
        }
        if s.contains(k) && k != key {
            let x = choose|x: int| 0 <= x < s.len() && s[x] == k;
            let x2 = if x < r { x } else { x - 1 };
            assert(t[x2] == k);
        }
    }
}

/// The ascending array `s` with `key` put in at its place, unless it is there
/// already.
pub open spec fn with_key<T: Ord>(s: Seq<T>, key: T) -> Seq<T> {
    if s.contains(key) {
        s
    } else {
        s.insert(rank(s, key), key)
    }
}

/// The ascending array `s` with `key` taken out, if it is there.
pub open spec fn without_key<T: Ord>(s: Seq<T>, key: T) -> Seq<T> {
    if s.contains(key) {
        s.remove(rank(s, key))
    } else {
        s
    }
}

/// `with_key` gives an ascending array that holds `key` beside the keys of
/// `s`.
pub proof fn lemma_with_key<T: Ord>(s: Seq<T>, key: T)
    requires
        total_order::<T>(),
        ascending(s),
    ensures
        ascending(with_key(s, key)),
        forall|k: T| #[trigger] with_key(s, key).contains(k) <==> (s.contains(k) || k == key),
        with_key(s, key).len() == s.len() + (if s.contains(key) { 0int } else { 1int }),
{
    if !s.contains(key) {
        lemma_insert_ascending(s, key);
        lemma_rank(s, key);
    }
}

/// `without_key` gives an ascending array that holds the keys of `s` but
/// `key`.
pub proof fn lemma_without_key<T: Ord>(s: Seq<T>, key: T)
    requires
        total_order::<T>(),
        ascending(s),
    ensures
        ascending(without_key(s, key)),
        forall|k: T| #[trigger] without_key(s, key).contains(k) <==> (s.contains(k) && k != key),
        without_key(s, key).len() == s.len() - (if s.contains(key) { 1int } else { 0int }),
{
    if s.contains(key) {
        lemma_remove_ascending(s, key);
    }
}

/// Binary search: the place of `key` in the ascending array `v`.
pub fn lower_bound<T: Ord>(v: &Vec<T>, key: &T) -> (r: usize)
    requires
        total_order::<T>(),
        ascending(v@),
    ensures
        r == rank(v@, *key),
        r <= v.len(),
{
    let mut lo: usize = 0;
    let mut hi: usize = v.len();
    while lo < hi
        invariant
            total_order::<T>(),
            ascending(v@),
            0 <= lo <= hi <= v.len(),
            forall|i: int| 0 <= i < lo ==> lt(#[trigger] v@[i], *key),
            forall|i: int| hi <= i < v.len() ==> !lt(#[trigger] v@[i], *key),
        decreases hi - lo,
    {
        let mid: usize = lo + (hi - lo) / 2;
        if less(&v[mid], key) {
            assert forall|i: int| 0 <= i < mid + 1 implies lt(#[trigger] v@[i], *key) by {
                if i < mid {
                    assert(lt(v@[i], v@[mid as int]));
                }
            }
            lo = mid + 1;
        } else {
            assert forall|i: int| mid <= i < v.len() implies !lt(#[trigger] v@[i], *key) by {
                if i > mid {
                    assert(lt(v@[mid as int], v@[i]));
                }
            }
            hi = mid;
        }
    }
    proof {
        lemma_rank_is(v@, *key, lo as int);
    }
    lo
}

} // verus!
