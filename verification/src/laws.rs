//! What follows from the contracts of insertion and deletion, whatever the
//! tree: the order in which keys are put in or taken out does not matter to
//! the keys that are left, a deletion need not be repeated, and no inserted
//! key is lost.

use crate::keys::{
    ascending, lemma_ascending_same, lemma_with_key, lemma_without_key, with_key, without_key,
};
use crate::order::total_order;
use vstd::prelude::*;

verus! {

/// Two insertions leave the same keys in either order.
pub proof fn law_inserts_commute<T: Ord>(s: Seq<T>, a: T, b: T)
    requires
        total_order::<T>(),
        ascending(s),
    ensures
        with_key(with_key(s, a), b) == with_key(with_key(s, b), a),
{
    let sa = with_key(s, a);
    let sb = with_key(s, b);
    let sab = with_key(sa, b);
    let sba = with_key(sb, a);
    lemma_with_key(s, a);
    lemma_with_key(s, b);
    lemma_with_key(sa, b);
    lemma_with_key(sb, a);
    assert forall|k: T| sab.contains(k) <==> sba.contains(k) by {
        assert(sab.contains(k) <==> (sa.contains(k) || k == b));
        assert(sa.contains(k) <==> (s.contains(k) || k == a));
        assert(sba.contains(k) <==> (sb.contains(k) || k == a));
        assert(sb.contains(k) <==> (s.contains(k) || k == b));
    }
    lemma_ascending_same(sab, sba);
}

/// Two deletions leave the same keys in either order.
pub proof fn law_deletes_commute<T: Ord>(s: Seq<T>, a: T, b: T)
    requires
        total_order::<T>(),
        ascending(s),
    ensures
        without_key(without_key(s, a), b) == without_key(without_key(s, b), a),
{
    let sa = without_key(s, a);
    let sb = without_key(s, b);
    let sab = without_key(sa, b);
    let sba = without_key(sb, a);
    lemma_without_key(s, a);
    lemma_without_key(s, b);
    lemma_without_key(sa, b);
    lemma_without_key(sb, a);
    assert forall|k: T| sab.contains(k) <==> sba.contains(k) by {
        assert(sab.contains(k) <==> (sa.contains(k) && k != b));
        assert(sa.contains(k) <==> (s.contains(k) && k != a));
        assert(sba.contains(k) <==> (sb.contains(k) && k != a));
        assert(sb.contains(k) <==> (s.contains(k) && k != b));
    }
    lemma_ascending_same(sab, sba);
}

/// An insertion and a deletion of two different keys leave the same keys in
/// either order.
pub proof fn law_insert_delete_commute<T: Ord>(s: Seq<T>, a: T, b: T)
    requires
        total_order::<T>(),
        ascending(s),
        a != b,
    ensures
        without_key(with_key(s, a), b) == with_key(without_key(s, b), a),
{
    let sa = with_key(s, a);
    let sb = without_key(s, b);
    let sab = without_key(sa, b);
    let sba = with_key(sb, a);
    lemma_with_key(s, a);
    lemma_without_key(s, b);
    lemma_without_key(sa, b);
    lemma_with_key(sb, a);
    assert forall|k: T| sab.contains(k) <==> sba.contains(k) by {
        assert(sab.contains(k) <==> (sa.contains(k) && k != b));
        assert(sa.contains(k) <==> (s.contains(k) || k == a));
        assert(sba.contains(k) <==> (sb.contains(k) || k == a));
        assert(sb.contains(k) <==> (s.contains(k) && k != b));
    }
    lemma_ascending_same(sab, sba);
}

/// Deleting a key again changes nothing, and deleting a key that is not
/// there changes nothing.
pub proof fn law_delete_idempotent<T: Ord>(s: Seq<T>, key: T)
    requires
        total_order::<T>(),
        ascending(s),
    ensures
        without_key(without_key(s, key), key) == without_key(s, key),
        !s.contains(key) ==> without_key(s, key) == s,
        !without_key(s, key).contains(key),
{
    lemma_without_key(s, key);
}

/// A deletion undoes the insertion of a new key.
pub proof fn law_delete_undoes_insert<T: Ord>(s: Seq<T>, key: T)
    requires
        total_order::<T>(),
        ascending(s),
        !s.contains(key),
    ensures
        without_key(with_key(s, key), key) == s,
{
    let t = with_key(s, key);
    let u = without_key(t, key);
    lemma_with_key(s, key);
    lemma_without_key(t, key);
    assert forall|k: T| u.contains(k) <==> s.contains(k) by {
        assert(u.contains(k) <==> (t.contains(k) && k != key));
        assert(t.contains(k) <==> (s.contains(k) || k == key));
    }
    lemma_ascending_same(u, s);
}

/// The keys of `s` after the keys of `batch` have been inserted one after
/// the other.
pub open spec fn with_keys<T: Ord>(s: Seq<T>, batch: Seq<T>) -> Seq<T>
    decreases batch.len(),
{
    if batch.len() == 0 {
        s
    } else {
        with_key(with_keys(s, batch.drop_last()), batch.last())
    }
}

/// No inserted key is lost: after a batch of distinct new keys has been
/// inserted, the tree holds as many keys more as the batch has, and holds
/// each key of the batch.
pub proof fn law_no_lost_keys<T: Ord>(s: Seq<T>, batch: Seq<T>)
    requires
        total_order::<T>(),
        ascending(s),
        batch.no_duplicates(),
        forall|i: int| 0 <= i < batch.len() ==> !s.contains(#[trigger] batch[i]),
    ensures
        ascending(with_keys(s, batch)),
        with_keys(s, batch).len() == s.len() + batch.len(),
        forall|k: T| with_keys(s, batch).contains(k) <==> (s.contains(k) || batch.contains(k)),
    decreases batch.len(),
{
    if batch.len() > 0 {
        let front = batch.drop_last();
        let last = batch.last();
        assert forall|i: int| 0 <= i < front.len() implies !s.contains(#[trigger] front[i]) by {
            assert(front[i] == batch[i]);
        }
        assert(front.no_duplicates()) by {
            assert forall|i: int, j: int|
                0 <= i < front.len() && 0 <= j < front.len() && i != j implies front[i]
                != front[j] by {
                assert(front[i] == batch[i] && front[j] == batch[j]);
            }
        }
        law_no_lost_keys(s, front);
        let t = with_keys(s, front);
        lemma_with_key(t, last);
        assert(!t.contains(last)) by {
            if front.contains(last) {
                let i = choose|i: int| 0 <= i < front.len() && front[i] == last;
                assert(batch[i] == batch[batch.len() - 1]);
            }
            assert(batch[batch.len() - 1] == last);
        }
        assert forall|k: T| with_keys(s, batch).contains(k) <==> (s.contains(k) || batch.contains(
            k,
        )) by {
            if front.contains(k) {
                let i = choose|i: int| 0 <= i < front.len() && front[i] == k;
                assert(batch[i] == k);
            }
            if batch.contains(k) {
                let i = choose|i: int| 0 <= i < batch.len() && batch[i] == k;
                if i < front.len() {
                    assert(front[i] == k);
                }
            }
            assert(batch[batch.len() - 1] == last);
        }
    }
}

} // verus!
