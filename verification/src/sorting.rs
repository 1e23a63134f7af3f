//! Sorting texts in dictionary order.
use vstd::prelude::*;

use crate::ordmap::{
    lemma_text_lt_irreflexive, lemma_text_lt_total, lemma_text_lt_transitive, text_lt, text_order,
    Order,
};
use crate::text::texts;

verus! {

/// A sequence of texts in which none is followed by a smaller one.
pub open spec fn is_sorted(s: Seq<Seq<char>>) -> bool {
    forall|i: int, j: int| 0 <= i < j < s.len() ==> !text_lt(#[trigger] s[j], #[trigger] s[i])
}

/// The place of `x` in a sorted sequence: after all elements that are not
/// greater than it.
pub open spec fn sorted_place(s: Seq<Seq<char>>, x: Seq<char>) -> nat
    decreases s.len(),
{
    if s.len() == 0 {
        0
    } else if text_lt(x, s.last()) {
        sorted_place(s.drop_last(), x)
    } else {
        s.len()
    }
}

/// A sorted sequence with one more element.
pub open spec fn insert_sorted(s: Seq<Seq<char>>, x: Seq<char>) -> Seq<Seq<char>> {
    s.insert(sorted_place(s, x) as int, x)
}

/// The texts in dictionary order.
pub open spec fn sort(s: Seq<Seq<char>>) -> Seq<Seq<char>>
    decreases s.len(),
{
    if s.len() == 0 {
        Seq::empty()
    } else {
        insert_sorted(sort(s.drop_last()), s.last())
    }
}

proof fn lemma_sorted_place(s: Seq<Seq<char>>, x: Seq<char>)
    requires
        is_sorted(s),
    ensures
        sorted_place(s, x) <= s.len(),
        forall|i: int| sorted_place(s, x) <= i < s.len() ==> text_lt(x, #[trigger] s[i]),
        forall|i: int| 0 <= i < sorted_place(s, x) ==> !text_lt(x, #[trigger] s[i]),
    decreases s.len(),
{
    if s.len() > 0 {
        let t = s.drop_last();
        assert(is_sorted(t)) by {
            assert forall|i: int, j: int| 0 <= i < j < t.len() implies !text_lt(
                #[trigger] t[j],
                #[trigger] t[i],
            ) by {
                assert(t[i] == s[i] && t[j] == s[j]);
            }
        }
        lemma_sorted_place(t, x);
        if text_lt(x, s.last()) {
            assert forall|i: int| sorted_place(s, x) <= i < s.len() implies text_lt(
                x,
                #[trigger] s[i],
            ) by {
                if i < t.len() {
                    assert(t[i] == s[i]);
                }
            }
            assert forall|i: int| 0 <= i < sorted_place(s, x) implies !text_lt(
                x,
                #[trigger] s[i],
            ) by {
                assert(t[i] == s[i]);
            }
        } else {
            assert forall|i: int| 0 <= i < s.len() implies !text_lt(x, #[trigger] s[i]) by {
                if i < s.len() - 1 {
                    // s[i] <= s.last() <= x
                    if text_lt(x, s[i]) {
                        lemma_text_lt_total(s[i], s.last());
                        if text_lt(s[i], s.last()) {
                            lemma_text_lt_transitive(x, s[i], s.last());
                        }
                    }
                }
            }
        }
    }
}

/// `sort` gives a sorted sequence with the elements of its argument, each as
/// often as it stood there.
pub proof fn sort_is_sorted(s: Seq<Seq<char>>)
    ensures
        is_sorted(sort(s)),
        sort(s).to_multiset() == s.to_multiset(),
        sort(s).len() == s.len(),
    decreases s.len(),
{
    if s.len() > 0 {
        let t = sort(s.drop_last());
        let x = s.last();
        sort_is_sorted(s.drop_last());
        lemma_sorted_place(t, x);
        let k = sorted_place(t, x) as int;
        let r = t.insert(k, x);
        assert(is_sorted(r)) by {
            assert forall|i: int, j: int| 0 <= i < j < r.len() implies !text_lt(
                #[trigger] r[j],
                #[trigger] r[i],
            ) by {
                let pi = if i < k { i } else { i - 1 };
                let pj = if j < k { j } else { j - 1 };
                if i != k {
                    assert(r[i] == t[pi]);
                }
                if j != k {
                    assert(r[j] == t[pj]);
                }
                if i == k {
                    assert(text_lt(x, t[pj]));
                    if text_lt(t[pj], x) {
                        lemma_text_lt_transitive(x, t[pj], x);
                        lemma_text_lt_irreflexive(x);
                    }
                }
            }
        }
        vstd::seq_lib::lemma_multiset_commutative(t.take(k).push(x), t.skip(k));
        t.to_multiset_ensures();
        assert(t =~= t.take(k) + t.skip(k));
        vstd::seq_lib::lemma_multiset_commutative(t.take(k), t.skip(k));
        assert(r =~= t.take(k).push(x) + t.skip(k));
        t.take(k).to_multiset_ensures();
        s.drop_last().to_multiset_ensures();
        assert(s =~= s.drop_last().push(x));
        assert(r.to_multiset() =~= s.to_multiset());
    } else {
        assert(s =~= Seq::empty());
    }
}

/// Inserts a string at its place in a sorted list.
fn insert_string(v: &mut Vec<String>, x: String)
    ensures
        texts(final(v)@) == insert_sorted(texts(old(v)@), x@),
{
    let mut n: usize = v.len();
    let ghost all = texts(v@);
    assert(all.take(n as int) =~= all);
    loop
        invariant
            n <= v@.len(),
            all == texts(v@),
            v@ == old(v)@,
            sorted_place(all, x@) == sorted_place(all.take(n as int), x@),
        ensures
            n == sorted_place(all, x@),
            n <= v@.len(),
            v@ == old(v)@,
        decreases n,
    {
        if n == 0 {
            break;
        }
        assert(all.take(n as int).last() == v@[n - 1]@);
        match text_order(x.as_str(), v[n - 1].as_str()) {
            Order::Less => {
                assert(all.take(n as int).drop_last() =~= all.take(n - 1));
                n -= 1;
            },
            Order::Equal => {
                proof {
                    lemma_text_lt_irreflexive(x@);
                }
                break;
            },
            Order::Greater => {
                proof {
                    if text_lt(x@, v@[n - 1]@) {
                        lemma_text_lt_transitive(x@, v@[n - 1]@, x@);
                        lemma_text_lt_irreflexive(x@);
                    }
                }
                break;
            },
        }
    }
    v.insert(n, x);
    assert(texts(v@) =~= all.insert(n as int, x@));
}

/// Sorts a list of strings.
pub fn sort_strings(v: Vec<String>) -> (r: Vec<String>)
    ensures
        texts(r@) == sort(texts(v@)),
{
    let mut out: Vec<String> = Vec::new();
    let ghost all = texts(v@);
    let mut i: usize = 0;
    assert(texts(out@) =~= Seq::empty());
    while i < v.len()
        invariant
            i <= v@.len(),
            all == texts(v@),
            texts(out@) == sort(all.take(i as int)),
        decreases v.len() - i,
    {
        proof {
            assert(all.take(i + 1).drop_last() =~= all.take(i as int));
            assert(all.take(i + 1).last() == v@[i as int]@);
        }
        insert_string(&mut out, v[i].clone());
        i += 1;
    }
    assert(all.take(all.len() as int) =~= all);
    out
}

} // verus!
