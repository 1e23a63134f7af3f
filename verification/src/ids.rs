//! Ordered lists of identifiers.
use vstd::prelude::*;

use crate::ordmap::{sorted_keys, OrdMap};
use crate::types::TupId;

verus! {

/// Whether the identifiers of a list increase strictly.
pub open spec fn increasing(r: Seq<TupId>) -> bool {
    forall|i: int, j: int| 0 <= i < j < r.len() ==> (#[trigger] r[i]).0 < (#[trigger] r[j]).0
}

/// Whether a list holds the identifiers of a set, in increasing order.
pub open spec fn lists(r: Seq<TupId>, s: Set<TupId>) -> bool {
    increasing(r) && forall|id: TupId| r.contains(id) <==> s.contains(id)
}

/// The identifiers of a set in increasing order.
pub open spec fn ascending(s: Set<TupId>) -> Seq<TupId> {
    choose|r: Seq<TupId>| lists(r, s)
}

/// Only one list holds the identifiers of a set in increasing order.
pub proof fn ascending_is_unique(r: Seq<TupId>, s: Set<TupId>)
    requires
        lists(r, s),
    ensures
        r == ascending(s),
{
    let q = ascending(s);
    assert(lists(q, s));
    lemma_same_list(r, q);
}

proof fn lemma_same_list(a: Seq<TupId>, b: Seq<TupId>)
    requires
        increasing(a),
        increasing(b),
        forall|id: TupId| a.contains(id) <==> b.contains(id),
    ensures
        a == b,
    decreases a.len() + b.len(),
{
    if a.len() == 0 {
        if b.len() > 0 {
            assert(b.contains(b[0]));
        }
        assert(a =~= b);
    } else if b.len() == 0 {
        assert(a.contains(a[0]));
    } else {
        let x = a.last();
        let y = b.last();
        assert(a.contains(x) && b.contains(y));
        let i = choose|i: int| 0 <= i < b.len() && b[i] == x;
        let j = choose|j: int| 0 <= j < a.len() && a[j] == y;
        assert(x == y) by {
            if i < b.len() - 1 {
                assert(x.0 < y.0);
                if j < a.len() - 1 {
                    assert(y.0 < x.0);
                }
            }
        }
        let p = a.drop_last();
        let q = b.drop_last();
        assert forall|id: TupId| p.contains(id) <==> q.contains(id) by {
            if p.contains(id) {
                let k = choose|k: int| 0 <= k < p.len() && p[k] == id;
                assert(a[k] == id);
                assert(id.0 < x.0);
                assert(b.contains(id));
                let m = choose|m: int| 0 <= m < b.len() && b[m] == id;
                assert(q[m] == id);
            }
            if q.contains(id) {
                let k = choose|k: int| 0 <= k < q.len() && q[k] == id;
                assert(b[k] == id);
                assert(id.0 < y.0);
                assert(a.contains(id));
                let m = choose|m: int| 0 <= m < a.len() && a[m] == id;
                assert(p[m] == id);
            }
        }
        lemma_same_list(p, q);
        assert(a =~= p.push(x));
        assert(b =~= q.push(y));
    }
}

/// A set that is not empty has a greatest identifier.
pub proof fn lemma_greatest(s: Set<TupId>) -> (g: TupId)
    requires
        s != Set::<TupId>::empty(),
    ensures
        s.contains(g),
        forall|x: TupId| #[trigger] s.contains(x) ==> x.0 <= g.0,
    decreases s.len(),
{
    crate::types::ids_are_finite(s);
    assert(exists|x: TupId| s.contains(x)) by {
        if forall|x: TupId| !s.contains(x) {
            assert(s =~= Set::empty());
        }
    }
    let a = choose|x: TupId| s.contains(x);
    let rest = s.remove(a);
    if rest == Set::<TupId>::empty() {
        assert forall|x: TupId| #[trigger] s.contains(x) implies x.0 <= a.0 by {
            if x != a {
                assert(rest.contains(x));
            }
        }
        a
    } else {
        let b = lemma_greatest(rest);
        let g = if a.0 >= b.0 {
            a
        } else {
            b
        };
        assert forall|x: TupId| #[trigger] s.contains(x) implies x.0 <= g.0 by {
            if x != a {
                assert(rest.contains(x));
            }
        }
        g
    }
}

/// Every set has a list of its identifiers in increasing order.
pub proof fn ascending_lists(s: Set<TupId>)
    ensures
        lists(ascending(s), s),
    decreases s.len(),
{
    crate::types::ids_are_finite(s);
    if s == Set::<TupId>::empty() {
        assert(lists(Seq::empty(), s));
    } else {
        let g = lemma_greatest(s);
        let before = ascending(s.remove(g));
        ascending_lists(s.remove(g));
        let r = before.push(g);
        assert forall|i: int, j: int| 0 <= i < j < r.len() implies (#[trigger] r[i]).0 < (
        #[trigger] r[j]).0 by {
            if j == before.len() {
                assert(before.contains(before[i]));
                assert(s.contains(r[i]));
                if r[i].0 == g.0 {
                    assert(r[i] == g);
                }
            }
        }
        assert forall|id: TupId| r.contains(id) <==> s.contains(id) by {
            if s.contains(id) && id != g {
                assert(before.contains(id));
                let k = choose|k: int| 0 <= k < before.len() && before[k] == id;
                assert(r[k] == id);
            }
            assert(r[before.len() as int] == g);
            if r.contains(id) {
                let k = choose|k: int| 0 <= k < r.len() && r[k] == id;
                if k < before.len() {
                    assert(before.contains(before[k]));
                }
            }
        }
        assert(lists(r, s));
    }
}

/// An increasing list holds each identifier once.
pub proof fn lemma_increasing_no_duplicates(r: Seq<TupId>)
    requires
        increasing(r),
    ensures
        r.no_duplicates(),
{
    assert forall|i: int, j: int| 0 <= i < r.len() && 0 <= j < r.len() && i != j implies r[i]
        != r[j] by {
        if i < j {
            assert(r[i].0 < r[j].0);
        } else {
            assert(r[j].0 < r[i].0);
        }
    }
}

/// The keys of a map in increasing order.
pub fn ids_of<V>(m: &OrdMap<TupId, V>) -> (r: Vec<TupId>)
    ensures
        r@ == ascending(m@.dom()),
        lists(r@, m@.dom()),
        r@.len() == m@.dom().len(),
{
    let n = m.len();
    let mut out: Vec<TupId> = Vec::new();
    let mut i: usize = 0;
    while i < n
        invariant
            i <= n,
            n == m.pairs().len(),
            out@.len() == i,
            forall|j: int| 0 <= j < i ==> #[trigger] out@[j] == m.pairs()[j].0,
        decreases n - i,
    {
        let (k, _) = m.at(i);
        out.push(*k);
        i += 1;
    }
    proof {
        let p = m.pairs();
        assert(sorted_keys(p));
        assert forall|a: int, b: int| 0 <= a < b < out@.len() implies (#[trigger] out@[a]).0 < (
        #[trigger] out@[b]).0 by {
            assert(<TupId as crate::ordmap::Key>::lt(p[a].0@, p[b].0@));
        }
        assert forall|id: TupId| out@.contains(id) <==> m@.dom().contains(id) by {
            if out@.contains(id) {
                let j = choose|j: int| 0 <= j < out@.len() && out@[j] == id;
                assert(m@.dom().contains(p[j].0@));
            }
            if m@.dom().contains(id) {
                let j = choose|j: int| 0 <= j < p.len() && #[trigger] p[j].0@ == id;
                assert(out@[j] == id);
            }
        }
        ascending_is_unique(out@, m@.dom());
    }
    out
}

/// The identifiers of a list without those of a set.
pub open spec fn ids_without(s: Seq<TupId>, removed: Set<TupId>) -> Seq<TupId>
    decreases s.len(),
{
    if s.len() == 0 {
        Seq::empty()
    } else {
        let before = ids_without(s.drop_last(), removed);
        if removed.contains(s.last()) {
            before
        } else {
            before.push(s.last())
        }
    }
}

pub proof fn lemma_ids_without_twice(s: Seq<TupId>, a: Set<TupId>, b: Set<TupId>)
    ensures
        ids_without(ids_without(s, a), b) == ids_without(s, a.union(b)),
    decreases s.len(),
{
    if s.len() > 0 {
        lemma_ids_without_twice(s.drop_last(), a, b);
        let before = ids_without(s.drop_last(), a);
        if !a.contains(s.last()) {
            assert(before.push(s.last()).drop_last() =~= before);
        }
    }
}

pub proof fn lemma_ids_without_none(s: Seq<TupId>, a: Set<TupId>)
    requires
        forall|i: int| 0 <= i < s.len() ==> !a.contains(#[trigger] s[i]),
    ensures
        ids_without(s, a) == s,
    decreases s.len(),
{
    if s.len() > 0 {
        let t = s.drop_last();
        assert forall|i: int| 0 <= i < t.len() implies !a.contains(#[trigger] t[i]) by {
            assert(t[i] == s[i]);
        }
        lemma_ids_without_none(t, a);
        assert(!a.contains(s[s.len() - 1]));
        assert(s =~= t.push(s.last()));
    } else {
        assert(s =~= Seq::empty());
    }
}

/// Takes an identifier out of a list.
pub fn drop_id(v: &Vec<TupId>, id: TupId) -> (r: Vec<TupId>)
    ensures
        r@ == ids_without(v@, set![id]),
{
    let mut out: Vec<TupId> = Vec::new();
    let mut i: usize = 0;
    assert(out@ =~= Seq::empty());
    while i < v.len()
        invariant
            i <= v@.len(),
            out@ == ids_without(v@.take(i as int), set![id]),
        decreases v.len() - i,
    {
        proof {
            assert(v@.take(i + 1).drop_last() =~= v@.take(i as int));
        }
        if v[i] != id {
            out.push(v[i]);
        }
        i += 1;
    }
    assert(v@.take(v@.len() as int) =~= v@);
    out
}

/// Whether a list holds an identifier.
pub fn has_id(v: &Vec<TupId>, id: TupId) -> (r: bool)
    ensures
        r == v@.contains(id),
{
    let mut i: usize = 0;
    while i < v.len()
        invariant
            i <= v@.len(),
            forall|j: int| 0 <= j < i ==> v@[j] != id,
        decreases v.len() - i,
    {
        if v[i] == id {
            return true;
        }
        i += 1;
    }
    false
}

} // verus!
