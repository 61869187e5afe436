//! Sorting by insertion, stated once for every kind of item and every order.
//!
//! The order is given as a relation `lt` that says which of two items comes
//! first. Items of which neither comes first stay in the order in which they
//! stood.

use vstd::prelude::*;

verus! {

/// `s` with `x` put in behind the last item that `x` does not come before.
pub open spec fn insert_sorted<T>(s: Seq<T>, x: T, lt: spec_fn(T, T) -> bool) -> Seq<T>
    decreases s.len(),
{
    if s.len() == 0 {
        seq![x]
    } else if lt(x, s.last()) {
        insert_sorted(s.drop_last(), x, lt).push(s.last())
    } else {
        s.push(x)
    }
}

/// The items of `s` in the order of `lt`.
pub open spec fn sorted<T>(s: Seq<T>, lt: spec_fn(T, T) -> bool) -> Seq<T>
    decreases s.len(),
{
    if s.len() == 0 {
        Seq::empty()
    } else {
        insert_sorted(sorted(s.drop_last(), lt), s.last(), lt)
    }
}

/// No item comes before one that stands before it.
pub open spec fn in_order<T>(s: Seq<T>, lt: spec_fn(T, T) -> bool) -> bool {
    forall|i: int, j: int| 0 <= i <= j < s.len() ==> !lt(#[trigger] s[j], #[trigger] s[i])
}

/// The relation orders: of two items at most one comes before the other,
/// and where `a` does not come before `b`, nor `b` before `c`, `a` does not
/// come before `c`.
pub open spec fn orders<T>(lt: spec_fn(T, T) -> bool) -> bool {
    &&& forall|a: T, b: T| #[trigger] lt(a, b) ==> !lt(b, a)
    &&& forall|a: T, b: T, c: T| !#[trigger] lt(a, b) && !#[trigger] lt(b, c) ==> !lt(a, c)
}

/// Putting `x` in at `at` is putting it in its place, where every later item
/// comes after `x` and the item before does not.
pub proof fn lemma_insert_at<T>(s: Seq<T>, x: T, lt: spec_fn(T, T) -> bool, at: int)
    requires
        0 <= at <= s.len(),
        forall|k: int| at <= k < s.len() ==> lt(x, #[trigger] s[k]),
        at > 0 ==> !lt(x, s[at - 1]),
    ensures
        insert_sorted(s, x, lt) == s.insert(at, x),
    decreases s.len() - at,
{
    if at == s.len() {
        assert(s.insert(at, x) =~= s.push(x));
    } else {
        assert(lt(x, s.last()));
        let init = s.drop_last();
        assert forall|k: int| at <= k < init.len() implies lt(x, #[trigger] init[k]) by {
            assert(init[k] == s[k]);
        }
        lemma_insert_at(init, x, lt, at);
        assert(init.insert(at, x).push(s.last()) =~= s.insert(at, x));
    }
}

/// Putting an item in its place keeps the others, and keeps the order.
pub proof fn lemma_insert_sorted<T>(s: Seq<T>, x: T, lt: spec_fn(T, T) -> bool)
    ensures
        insert_sorted(s, x, lt).to_multiset() == s.to_multiset().insert(x),
        insert_sorted(s, x, lt).len() == s.len() + 1,
        orders(lt) && in_order(s, lt) ==> in_order(insert_sorted(s, x, lt), lt),
    decreases s.len(),
{
    broadcast use vstd::seq_lib::group_to_multiset_ensures;

    let r = insert_sorted(s, x, lt);
    if s.len() == 0 {
    } else if lt(x, s.last()) {
        let init = s.drop_last();
        lemma_insert_sorted(init, x, lt);
        let mid = insert_sorted(init, x, lt);
        assert(s =~= init.push(s.last()));
        if orders(lt) && in_order(s, lt) {
            assert forall|i: int, j: int| 0 <= i <= j < init.len() implies !lt(
                #[trigger] init[j],
                #[trigger] init[i],
            ) by {
                assert(init[i] == s[i] && init[j] == s[j]);
            }
            assert forall|i: int, j: int| 0 <= i <= j < r.len() implies !lt(
                #[trigger] r[j],
                #[trigger] r[i],
            ) by {
                if j == r.len() - 1 {
                    if i < j {
                        assert(mid.to_multiset().count(mid[i]) > 0);
                        if mid[i] != x {
                            assert(init.to_multiset().count(mid[i]) > 0);
                            assert(init.contains(mid[i]));
                            let k = choose|k: int| 0 <= k < init.len() && init[k] == mid[i];
                            assert(!lt(s[s.len() - 1], s[k]));
                        }
                    } else {
                        assert(!lt(s[s.len() - 1], s[s.len() - 1]));
                    }
                } else {
                    assert(!lt(mid[j], mid[i]));
                }
            }
        }
    } else {
        if orders(lt) && in_order(s, lt) {
            assert forall|i: int, j: int| 0 <= i <= j < r.len() implies !lt(
                #[trigger] r[j],
                #[trigger] r[i],
            ) by {
                if j == r.len() - 1 {
                    if i < j {
                        assert(!lt(s[s.len() - 1], s[i]));
                    }
                } else {
                    assert(!lt(s[j], s[i]));
                }
            }
        }
    }
}

/// Sorting neither adds nor loses an item, and under a relation that orders
/// it leaves no item behind one that it comes before.
pub proof fn lemma_sorted<T>(s: Seq<T>, lt: spec_fn(T, T) -> bool)
    ensures
        sorted(s, lt).to_multiset() == s.to_multiset(),
        sorted(s, lt).len() == s.len(),
        orders(lt) ==> in_order(sorted(s, lt), lt),
    decreases s.len(),
{
    broadcast use vstd::seq_lib::group_to_multiset_ensures;

    if s.len() > 0 {
        lemma_sorted(s.drop_last(), lt);
        lemma_insert_sorted(sorted(s.drop_last(), lt), s.last(), lt);
        assert(s =~= s.drop_last().push(s.last()));
    }
}

/// The relation tells any two different items apart: one of them comes
/// before the other.
pub open spec fn decides<T>(lt: spec_fn(T, T) -> bool) -> bool {
    forall|a: T, b: T| a != b ==> #[trigger] lt(a, b) || #[trigger] lt(b, a)
}

/// Under a relation that orders and decides, sorting gives the same for the
/// same items, in whatever order they came.
pub proof fn lemma_sorted_same_items<T>(s: Seq<T>, t: Seq<T>, lt: spec_fn(T, T) -> bool)
    requires
        orders(lt),
        decides(lt),
        s.to_multiset() == t.to_multiset(),
    ensures
        sorted(s, lt) == sorted(t, lt),
{
    let leq = |a: T, b: T| !lt(b, a);
    let x = sorted(s, lt);
    let y = sorted(t, lt);
    lemma_sorted(s, lt);
    lemma_sorted(t, lt);
    assert(vstd::relations::reflexive(leq)) by {
        assert forall|a: T| #[trigger] leq(a, a) by {
            if lt(a, a) {
                assert(!lt(a, a));
            }
        }
    }
    assert(vstd::relations::antisymmetric(leq)) by {
        assert forall|a: T, b: T| #[trigger] leq(a, b) && #[trigger] leq(b, a) implies a == b by {
            if a != b {
                assert(lt(a, b) || lt(b, a));
            }
        }
    }
    assert(vstd::relations::transitive(leq)) by {
        assert forall|a: T, b: T, c: T| #[trigger] leq(a, b) && #[trigger] leq(b, c) implies leq(
            a,
            c,
        ) by {
            assert(!lt(c, b) && !lt(b, a) ==> !lt(c, a));
        }
    }
    assert(vstd::relations::strongly_connected(leq)) by {
        assert forall|a: T, b: T| #[trigger] leq(a, b) || #[trigger] leq(b, a) by {
            if lt(b, a) {
                assert(!lt(a, b));
            }
        }
    }
    assert(vstd::relations::sorted_by(x, leq)) by {
        assert forall|i: int, j: int| 0 <= i < j < x.len() implies #[trigger] leq(x[i], x[j]) by {
            assert(!lt(x[j], x[i]));
        }
    }
    assert(vstd::relations::sorted_by(y, leq)) by {
        assert forall|i: int, j: int| 0 <= i < j < y.len() implies #[trigger] leq(y[i], y[j]) by {
            assert(!lt(y[j], y[i]));
        }
    }
    vstd::seq_lib::lemma_sorted_unique(x, y, leq);
}

} // verus!
