//! A map kept sorted by its keys, so that walking it gives the entries in key
//! order.
use vstd::prelude::*;

use crate::text::to_chars;

verus! {

/// How two keys compare.
#[derive(Clone, Copy, PartialEq, Eq, Structural)]
pub enum Order {
    Less,
    Equal,
    Greater,
}

/// A type whose values can be keys: their views are totally ordered.
pub trait Key: View + Sized {
    spec fn lt(a: Self::V, b: Self::V) -> bool;

    proof fn lt_irreflexive(a: Self::V)
        ensures
            !Self::lt(a, a),
    ;

    proof fn lt_transitive(a: Self::V, b: Self::V, c: Self::V)
        requires
            Self::lt(a, b),
            Self::lt(b, c),
        ensures
            Self::lt(a, c),
    ;

    proof fn lt_total(a: Self::V, b: Self::V)
        ensures
            Self::lt(a, b) || a == b || Self::lt(b, a),
    ;

    fn order(&self, other: &Self) -> (r: Order)
        ensures
            match r {
                Order::Less => Self::lt(self@, other@),
                Order::Equal => self@ == other@,
                Order::Greater => Self::lt(other@, self@),
            },
    ;

    fn copy_key(&self) -> (r: Self)
        ensures
            r@ == self@,
    ;
}

/// Dictionary order of texts, character by character.
pub open spec fn text_lt(a: Seq<char>, b: Seq<char>) -> bool
    decreases a.len(),
{
    if b.len() == 0 {
        false
    } else if a.len() == 0 {
        true
    } else if a[0] == b[0] {
        text_lt(a.drop_first(), b.drop_first())
    } else {
        a[0] < b[0]
    }
}

pub proof fn lemma_text_lt_irreflexive(a: Seq<char>)
    ensures
        !text_lt(a, a),
    decreases a.len(),
{
    if a.len() > 0 {
        lemma_text_lt_irreflexive(a.drop_first());
    }
}

pub proof fn lemma_text_lt_transitive(a: Seq<char>, b: Seq<char>, c: Seq<char>)
    requires
        text_lt(a, b),
        text_lt(b, c),
    ensures
        text_lt(a, c),
    decreases a.len(),
{
    if a.len() > 0 && a[0] == b[0] && b[0] == c[0] {
        lemma_text_lt_transitive(a.drop_first(), b.drop_first(), c.drop_first());
    }
}

pub proof fn lemma_text_lt_total(a: Seq<char>, b: Seq<char>)
    ensures
        text_lt(a, b) || a == b || text_lt(b, a),
    decreases a.len(),
{
    if a.len() == 0 && b.len() == 0 {
        assert(a =~= b);
    } else if a.len() > 0 && b.len() > 0 && a[0] == b[0] {
        lemma_text_lt_total(a.drop_first(), b.drop_first());
        if a.drop_first() == b.drop_first() {
            assert(a =~= seq![a[0]] + a.drop_first());
            assert(b =~= seq![b[0]] + b.drop_first());
        }
    }
}

/// Compares two texts in dictionary order.
pub fn text_order(a: &str, b: &str) -> (r: Order)
    ensures
        match r {
            Order::Less => text_lt(a@, b@),
            Order::Equal => a@ == b@,
            Order::Greater => text_lt(b@, a@),
        },
{
    let x = to_chars(a);
    let y = to_chars(b);
    let mut i: usize = 0;
    proof {
        assert(a@.skip(0) =~= a@);
        assert(b@.skip(0) =~= b@);
    }
    while i < x.len() && i < y.len()
        invariant
            i <= x.len(),
            i <= y.len(),
            x@ == a@,
            y@ == b@,
            a@.take(i as int) == b@.take(i as int),
            text_lt(a@, b@) == text_lt(a@.skip(i as int), b@.skip(i as int)),
            text_lt(b@, a@) == text_lt(b@.skip(i as int), a@.skip(i as int)),
        decreases x.len() - i,
    {
        if x[i] != y[i] {
            if x[i] < y[i] {
                return Order::Less;
            } else {
                return Order::Greater;
            }
        }
        proof {
            assert(a@.skip(i as int).drop_first() =~= a@.skip(i + 1));
            assert(b@.skip(i as int).drop_first() =~= b@.skip(i + 1));
            assert(a@.take(i + 1) =~= a@.take(i as int).push(a@[i as int]));
            assert(b@.take(i + 1) =~= b@.take(i as int).push(b@[i as int]));
        }
        i += 1;
    }
    if i == x.len() && i == y.len() {
        assert(a@ =~= a@.take(i as int));
        assert(b@ =~= b@.take(i as int));
        Order::Equal
    } else if i == x.len() {
        Order::Less
    } else {
        Order::Greater
    }
}

impl Key for String {
    open spec fn lt(a: Seq<char>, b: Seq<char>) -> bool {
        text_lt(a, b)
    }

    proof fn lt_irreflexive(a: Seq<char>) {
        lemma_text_lt_irreflexive(a);
    }

    proof fn lt_transitive(a: Seq<char>, b: Seq<char>, c: Seq<char>) {
        lemma_text_lt_transitive(a, b, c);
    }

    proof fn lt_total(a: Seq<char>, b: Seq<char>) {
        lemma_text_lt_total(a, b);
    }

    fn order(&self, other: &Self) -> (r: Order) {
        text_order(self.as_str(), other.as_str())
    }

    fn copy_key(&self) -> (r: Self) {
        self.clone()
    }
}

/// Whether the keys of `s` are in strictly increasing order.
pub open spec fn sorted_keys<K: Key, V>(s: Seq<(K, V)>) -> bool {
    forall|i: int, j: int| 0 <= i < j < s.len() ==> K::lt(#[trigger] s[i].0@, #[trigger] s[j].0@)
}

/// The map that a list of entries stands for.
pub open spec fn entries_map<K: Key, V>(s: Seq<(K, V)>) -> Map<K::V, V>
    decreases s.len(),
{
    if s.len() == 0 {
        Map::empty()
    } else {
        entries_map(s.drop_last()).insert(s.last().0@, s.last().1)
    }
}

/// A map whose entries are kept in increasing order of their keys.
#[derive(Debug)]
pub struct OrdMap<K: Key, V> {
    entries: Vec<(K, V)>,
}

pub proof fn lemma_entries_map<K: Key, V>(s: Seq<(K, V)>)
    requires
        sorted_keys(s),
    ensures
        forall|i: int|
            0 <= i < s.len() ==> entries_map(s).dom().contains(#[trigger] s[i].0@) && entries_map(
                s,
            )[s[i].0@] == s[i].1,
        forall|k: K::V| #[trigger]
            entries_map(s).dom().contains(k) ==> exists|i: int|
                0 <= i < s.len() && #[trigger] s[i].0@ == k,
        entries_map(s).dom().finite(),
        entries_map(s).dom().len() == s.len(),
    decreases s.len(),
{
    if s.len() > 0 {
        let t = s.drop_last();
        assert forall|i: int, j: int| 0 <= i < j < t.len() implies K::lt(
            #[trigger] t[i].0@,
            #[trigger] t[j].0@,
        ) by {
            assert(t[i] == s[i] && t[j] == s[j]);
        }
        lemma_entries_map(t);
        let last = s.len() - 1;
        assert forall|i: int| 0 <= i < s.len() implies entries_map(s).dom().contains(
            #[trigger] s[i].0@,
        ) && entries_map(s)[s[i].0@] == s[i].1 by {
            if i < last {
                assert(t[i] == s[i]);
                assert(K::lt(s[i].0@, s[last].0@));
                K::lt_irreflexive(s[i].0@);
            }
        }
        assert forall|k: K::V| #[trigger] entries_map(s).dom().contains(k) implies exists|i: int|
            0 <= i < s.len() && #[trigger] s[i].0@ == k by {
            if k == s[last].0@ {
            } else {
                assert(entries_map(t).dom().contains(k));
                let i = choose|i: int| 0 <= i < t.len() && #[trigger] t[i].0@ == k;
                assert(s[i].0@ == k);
            }
        }
        assert(!entries_map(t).dom().contains(s[last].0@)) by {
            if entries_map(t).dom().contains(s[last].0@) {
                let i = choose|i: int| 0 <= i < t.len() && #[trigger] t[i].0@ == s[last].0@;
                assert(K::lt(s[i].0@, s[last].0@));
                K::lt_irreflexive(s[i].0@);
            }
        }
    }
}

impl<K: Key, V> View for OrdMap<K, V> {
    type V = Map<K::V, V>;

    closed spec fn view(&self) -> Map<K::V, V> {
        entries_map(self.entries@)
    }
}

impl<K: Key, V> OrdMap<K, V> {
    /// The entries are in increasing order of their keys.
    #[verifier::type_invariant]
    spec fn wf(&self) -> bool {
        sorted_keys(self.entries@)
    }

    /// The entries in key order.
    pub closed spec fn pairs(&self) -> Seq<(K, V)> {
        self.entries@
    }

    pub fn new() -> (r: Self)
        ensures
            r@ == Map::<K::V, V>::empty(),
            r.pairs().len() == 0,
    {
        OrdMap { entries: Vec::new() }
    }

    /// The number of entries. The keys of the entries increase strictly, and
    /// the entries together are the map.
    pub fn len(&self) -> (r: usize)
        ensures
            r == self@.dom().len(),
            r == self.pairs().len(),
            sorted_keys(self.pairs()),
            self@ == entries_map(self.pairs()),
            self@.dom().finite(),
            forall|i: int|
                0 <= i < self.pairs().len() ==> self@.dom().contains(#[trigger] self.pairs()[i].0@)
                    && self@[self.pairs()[i].0@] == self.pairs()[i].1,
            forall|k: K::V| #[trigger]
                self@.dom().contains(k) ==> exists|i: int|
                    0 <= i < self.pairs().len() && #[trigger] self.pairs()[i].0@ == k,
    {
        proof {
            use_type_invariant(self);
            lemma_entries_map(self.entries@);
            assert forall|k: K::V| #[trigger] self@.dom().contains(k) implies exists|i: int|
                0 <= i < self.pairs().len() && #[trigger] self.pairs()[i].0@ == k by {
                let i = choose|i: int| 0 <= i < self.entries@.len() && #[trigger] self.entries@[i].0@
                    == k;
                assert(self.pairs()[i].0@ == k);
            }
        }
        self.entries.len()
    }

    pub fn is_empty(&self) -> (r: bool)
        ensures
            r == (self@.dom().len() == 0),
    {
        self.len() == 0
    }

    /// The entry at a place in the order.
    pub fn at(&self, i: usize) -> (r: (&K, &V))
        requires
            i < self.pairs().len(),
        ensures
            *r.0 == self.pairs()[i as int].0,
            *r.1 == self.pairs()[i as int].1,
            self@.dom().contains(r.0@),
            self@[r.0@] == *r.1,
    {
        proof {
            use_type_invariant(self);
            lemma_entries_map(self.entries@);
        }
        let e = &self.entries[i];
        (&e.0, &e.1)
    }

    /// The first place whose key is not below `key`, and whether `key` is there.
    fn seek(&self, key: &K) -> (r: (usize, bool))
        ensures
            r.0 <= self.entries@.len(),
            forall|j: int| 0 <= j < r.0 ==> K::lt(#[trigger] self.entries@[j].0@, key@),
            r.1 ==> r.0 < self.entries@.len() && self.entries@[r.0 as int].0@ == key@,
            !r.1 ==> forall|j: int|
                r.0 <= j < self.entries@.len() ==> K::lt(key@, #[trigger] self.entries@[j].0@),
            r.1 == self@.dom().contains(key@),
            r.1 ==> self@[key@] == self.entries@[r.0 as int].1,
    {
        proof {
            use_type_invariant(self);
            lemma_entries_map(self.entries@);
        }
        let mut i: usize = 0;
        while i < self.entries.len()
            invariant
                i <= self.entries@.len(),
                sorted_keys(self.entries@),
                forall|j: int| 0 <= j < i ==> K::lt(#[trigger] self.entries@[j].0@, key@),
                forall|j: int|
                    0 <= j < self.entries@.len() ==> self@.dom().contains(
                        #[trigger] self.entries@[j].0@,
                    ) && self@[self.entries@[j].0@] == self.entries@[j].1,
                forall|k: K::V| #[trigger]
                    self@.dom().contains(k) ==> exists|i: int|
                        0 <= i < self.entries@.len() && #[trigger] self.entries@[i].0@ == k,
            decreases self.entries.len() - i,
        {
            match self.entries[i].0.order(key) {
                Order::Less => {},
                Order::Equal => {
                    return (i, true);
                },
                Order::Greater => {
                    proof {
                        assert forall|j: int| i <= j < self.entries@.len() implies K::lt(
                            key@,
                            #[trigger] self.entries@[j].0@,
                        ) by {
                            if j > i {
                                K::lt_transitive(
                                    key@,
                                    self.entries@[i as int].0@,
                                    self.entries@[j].0@,
                                );
                            }
                        }
                        self.absent(key@, i as int);
                    }
                    return (i, false);
                },
            }
            i += 1;
        }
        proof {
            self.absent(key@, i as int);
        }
        (i, false)
    }

    proof fn absent(&self, key: K::V, i: int)
        requires
            0 <= i <= self.entries@.len(),
            forall|j: int| 0 <= j < i ==> K::lt(#[trigger] self.entries@[j].0@, key),
            forall|j: int|
                i <= j < self.entries@.len() ==> K::lt(key, #[trigger] self.entries@[j].0@),
            forall|k: K::V| #[trigger]
                self@.dom().contains(k) ==> exists|i: int|
                    0 <= i < self.entries@.len() && #[trigger] self.entries@[i].0@ == k,
        ensures
            !self@.dom().contains(key),
    {
        if self@.dom().contains(key) {
            let j = choose|j: int| 0 <= j < self.entries@.len() && #[trigger] self.entries@[j].0@
                == key;
            K::lt_irreflexive(key);
            assert(j < i || i <= j);
            assert(false);
        }
    }

    pub fn contains(&self, key: &K) -> (r: bool)
        ensures
            r == self@.dom().contains(key@),
    {
        self.seek(key).1
    }

    pub fn get(&self, key: &K) -> (r: Option<&V>)
        ensures
            match r {
                Some(v) => self@.dom().contains(key@) && self@[key@] == *v,
                None => !self@.dom().contains(key@),
            },
    {
        let (i, found) = self.seek(key);
        if found {
            Some(&self.entries[i].1)
        } else {
            None
        }
    }

    /// Sets the value of a key, replacing the one that it had.
    pub fn insert(&mut self, key: K, value: V)
        ensures
            final(self)@ == old(self)@.insert(key@, value),
    {
        let (i, found) = self.seek(&key);
        proof {
            use_type_invariant(&*self);
        }
        let ghost before = self.entries@;
        let ghost m = self@;
        let mut entries: Vec<(K, V)> = Vec::new();
        std::mem::swap(&mut entries, &mut self.entries);
        if found {
            entries.set(i, (key, value));
        } else {
            entries.insert(i, (key, value));
        }
        proof {
            let after = entries@;
            assert(sorted_keys(after)) by {
                assert forall|a: int, b: int| 0 <= a < b < after.len() implies K::lt(
                    #[trigger] after[a].0@,
                    #[trigger] after[b].0@,
                ) by {
                    if found {
                        assert(after[a].0@ == before[a].0@);
                        assert(after[b].0@ == before[b].0@);
                    } else {
                        let pa = if a < i { a } else { a - 1 };
                        let pb = if b < i { b } else { b - 1 };
                        if a != i {
                            assert(after[a] == before[pa]);
                        }
                        if b != i {
                            assert(after[b] == before[pb]);
                        }
                    }
                }
            }
            lemma_entries_map(before);
            lemma_entries_map(after);
            assert(entries_map(after) =~= m.insert(key@, value)) by {
                assert forall|k: K::V| entries_map(after).dom().contains(k) <==> m.insert(
                    key@,
                    value,
                ).dom().contains(k) by {
                    if entries_map(after).dom().contains(k) {
                        let a = choose|a: int| 0 <= a < after.len() && #[trigger] after[a].0@ == k;
                        if a != i {
                            let pa = if found || a < i { a } else { a - 1 };
                            assert(before[pa] == after[a]);
                        }
                    }
                    if m.dom().contains(k) && k != key@ {
                        let a = choose|a: int| 0 <= a < before.len() && #[trigger] before[a].0@
                            == k;
                        let pa = if found || a < i { a } else { a + 1 };
                        assert(before[a] == after[pa]);
                    }
                    assert(after[i as int].0@ == key@);
                }
                assert forall|k: K::V| entries_map(after).dom().contains(k) implies entries_map(
                    after,
                )[k] == m.insert(key@, value)[k] by {
                    let a = choose|a: int| 0 <= a < after.len() && #[trigger] after[a].0@ == k;
                    assert(after[i as int].0@ == key@);
                    if a != i {
                        let pa = if found || a < i { a } else { a - 1 };
                        assert(before[pa] == after[a]);
                        if k == key@ {
                            K::lt_irreflexive(k);
                        }
                    }
                }
            }
        }
        self.entries = entries;
    }

    /// Removes a key and gives back its value.
    pub fn remove(&mut self, key: &K) -> (r: Option<V>)
        ensures
            final(self)@ == old(self)@.remove(key@),
            match r {
                Some(v) => old(self)@.dom().contains(key@) && old(self)@[key@] == v,
                None => !old(self)@.dom().contains(key@),
            },
    {
        let (i, found) = self.seek(key);
        proof {
            use_type_invariant(&*self);
        }
        let ghost m = self@;
        if !found {
            assert(m =~= m.remove(key@));
            return None;
        }
        let ghost before = self.entries@;
        let mut entries: Vec<(K, V)> = Vec::new();
        std::mem::swap(&mut entries, &mut self.entries);
        let e = entries.remove(i);
        proof {
            let after = entries@;
            assert(sorted_keys(after)) by {
                assert forall|a: int, b: int| 0 <= a < b < after.len() implies K::lt(
                    #[trigger] after[a].0@,
                    #[trigger] after[b].0@,
                ) by {
                    let pa = if a < i { a } else { a + 1 };
                    let pb = if b < i { b } else { b + 1 };
                    assert(after[a] == before[pa]);
                    assert(after[b] == before[pb]);
                }
            }
            lemma_entries_map(before);
            lemma_entries_map(after);
            assert(entries_map(after) =~= m.remove(key@)) by {
                assert forall|k: K::V| entries_map(after).dom().contains(k) <==> m.remove(
                    key@,
                ).dom().contains(k) by {
                    if entries_map(after).dom().contains(k) {
                        let a = choose|a: int| 0 <= a < after.len() && #[trigger] after[a].0@ == k;
                        let pa = if a < i { a } else { a + 1 };
                        assert(before[pa] == after[a]);
                        K::lt_irreflexive(k);
                        assert(pa < i || i < pa);
                        assert(before[i as int].0@ == key@);
                    }
                    if m.dom().contains(k) && k != key@ {
                        let a = choose|a: int| 0 <= a < before.len() && #[trigger] before[a].0@
                            == k;
                        let pa = if a < i { a } else { a - 1 };
                        assert(before[a] == after[pa]);
                    }
                }
                assert forall|k: K::V| entries_map(after).dom().contains(k) implies entries_map(
                    after,
                )[k] == m.remove(key@)[k] by {
                    let a = choose|a: int| 0 <= a < after.len() && #[trigger] after[a].0@ == k;
                    let pa = if a < i { a } else { a + 1 };
                    assert(before[pa] == after[a]);
                }
            }
        }
        self.entries = entries;
        Some(e.1)
    }
}

/// A type whose values can be copied, the copy having the same view.
pub trait Dup: View + Sized {
    fn dup(&self) -> (r: Self)
        ensures
            r@ == self@,
    ;
}

impl Dup for String {
    fn dup(&self) -> (r: Self) {
        self.clone()
    }
}

/// The views of the values of a map.
pub open spec fn deep<A, V: View>(m: Map<A, V>) -> Map<A, V::V> {
    Map::new(|k: A| m.dom().contains(k), |k: A| m[k]@)
}

pub proof fn lemma_deep_insert<A, V: View>(m: Map<A, V>, k: A, v: V)
    ensures
        deep(m.insert(k, v)) == deep(m).insert(k, v@),
{
    assert(deep(m.insert(k, v)) =~= deep(m).insert(k, v@));
}

pub proof fn lemma_deep_remove<A, V: View>(m: Map<A, V>, k: A)
    ensures
        deep(m.remove(k)) == deep(m).remove(k),
{
    assert(deep(m.remove(k)) =~= deep(m).remove(k));
}

impl<K: Key, V: Dup> OrdMap<K, V> {
    /// A copy of the map.
    pub fn copy(&self) -> (r: Self)
        ensures
            deep(r@) == deep(self@),
            r.pairs().len() == self.pairs().len(),
    {
        proof {
            use_type_invariant(self);
        }
        let mut entries: Vec<(K, V)> = Vec::new();
        let mut i: usize = 0;
        while i < self.entries.len()
            invariant
                i <= self.entries@.len(),
                entries@.len() == i,
                forall|j: int|
                    0 <= j < i ==> (#[trigger] entries@[j]).0@ == self.entries@[j].0@
                        && entries@[j].1@ == self.entries@[j].1@,
            decreases self.entries.len() - i,
        {
            entries.push((self.entries[i].0.copy_key(), self.entries[i].1.dup()));
            i += 1;
        }
        proof {
            let a = self.entries@;
            let b = entries@;
            assert(sorted_keys(b));
            lemma_entries_map(a);
            lemma_entries_map(b);
            assert forall|k: K::V| entries_map(a).dom().contains(k) <==> entries_map(
                b,
            ).dom().contains(k) by {
                if entries_map(a).dom().contains(k) {
                    let j = choose|j: int| 0 <= j < a.len() && #[trigger] a[j].0@ == k;
                    assert(b[j].0@ == k);
                }
                if entries_map(b).dom().contains(k) {
                    let j = choose|j: int| 0 <= j < b.len() && #[trigger] b[j].0@ == k;
                    assert(a[j].0@ == k);
                }
            }
            assert forall|k: K::V| entries_map(a).dom().contains(k) implies entries_map(a)[k]@
                == entries_map(b)[k]@ by {
                let j = choose|j: int| 0 <= j < a.len() && #[trigger] a[j].0@ == k;
                assert(b[j].0@ == k);
            }
            assert(deep(entries_map(a)) =~= deep(entries_map(b)));
        }
        OrdMap { entries }
    }
}

/// Pairs by the views of their parts.
pub open spec fn pair_views<K: Key, V: View>(s: Seq<(K, V)>) -> Seq<(K::V, V::V)> {
    Seq::new(s.len(), |i: int| (s[i].0@, s[i].1@))
}

/// The map that pairs make, the later over the earlier.
pub open spec fn map_of<A, B>(s: Seq<(A, B)>) -> Map<A, B>
    decreases s.len(),
{
    if s.len() == 0 {
        Map::empty()
    } else {
        map_of(s.drop_last()).insert(s.last().0, s.last().1)
    }
}

pub proof fn lemma_map_of_views<K: Key, V: View>(s: Seq<(K, V)>)
    ensures
        map_of(pair_views(s)) == deep(entries_map(s)),
    decreases s.len(),
{
    if s.len() == 0 {
        assert(deep(entries_map(s)) =~= Map::<K::V, V::V>::empty());
    } else {
        lemma_map_of_views(s.drop_last());
        assert(pair_views(s).drop_last() =~= pair_views(s.drop_last()));
        lemma_deep_insert(entries_map(s.drop_last()), s.last().0@, s.last().1);
    }
}

} // verus!
