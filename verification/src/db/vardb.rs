//! Variables of configurations and of the environment.
use vstd::prelude::*;

use crate::ordmap::{deep, lemma_deep_insert, lemma_deep_remove, text_lt, Dup, Key, OrdMap};
use crate::text::{concat2, concat3, copy_str};
use crate::types::TupId;

verus! {

/// A variable.
#[derive(Debug)]
pub struct VarEntry {
    pub name: String,
    pub value: String,
    /// The node of the variable in the database.
    pub tent_id: Option<TupId>,
}

/// A variable as texts.
#[verifier::ext_equal]
pub struct VarText {
    pub name: Seq<char>,
    pub value: Seq<char>,
    pub tent_id: Option<TupId>,
}

impl View for VarEntry {
    type V = VarText;

    open spec fn view(&self) -> VarText {
        VarText { name: self.name@, value: self.value@, tent_id: self.tent_id }
    }
}

impl Clone for VarEntry {
    fn clone(&self) -> (r: Self)
        ensures
            r@ == self@,
    {
        VarEntry { name: self.name.clone(), value: self.value.clone(), tent_id: self.tent_id }
    }
}

impl Dup for VarEntry {
    fn dup(&self) -> (r: Self) {
        self.clone()
    }
}

pub open spec fn var_texts(v: Seq<VarEntry>) -> Seq<VarText> {
    Seq::new(v.len(), |i: int| v[i]@)
}

/// Whether the names of a list increase.
pub open spec fn by_name(s: Seq<VarText>) -> bool {
    forall|i: int, j: int|
        0 <= i < j < s.len() ==> text_lt((#[trigger] s[i]).name, (#[trigger] s[j]).name)
}

/// What two sets of variables have in common and what not, in the order of the
/// names.
#[derive(Debug)]
pub struct VarDiff {
    pub only_in_a: Vec<VarEntry>,
    pub only_in_b: Vec<VarEntry>,
    /// The variables of both, as each of them has it.
    pub in_both: Vec<(VarEntry, VarEntry)>,
}

/// A set of variables, each under its name.
#[derive(Debug)]
pub struct VarDb {
    vars: OrdMap<String, VarEntry>,
}

impl View for VarDb {
    type V = Map<Seq<char>, VarText>;

    closed spec fn view(&self) -> Map<Seq<char>, VarText> {
        deep(self.vars@)
    }
}

/// The variables after one was added to.
pub open spec fn appended(
    vars: Map<Seq<char>, VarText>,
    name: Seq<char>,
    value: Seq<char>,
) -> Map<Seq<char>, VarText> {
    if vars.dom().contains(name) {
        let old_value = vars[name].value;
        vars.insert(
            name,
            VarText {
                value: if old_value.len() == 0 {
                    value
                } else {
                    old_value + " "@ + value
                },
                ..vars[name]
            },
        )
    } else {
        vars.insert(name, VarText { name, value, tent_id: None })
    }
}

impl VarDb {
    /// Every variable stands under its own name.
    #[verifier::type_invariant]
    spec fn wf(&self) -> bool {
        forall|k: Seq<char>| #[trigger] self.vars@.dom().contains(k) ==> self.vars@[k]@.name == k
    }

    /// No variables.
    pub fn new() -> (r: Self)
        ensures
            r@ == Map::<Seq<char>, VarText>::empty(),
    {
        let r = VarDb { vars: OrdMap::new() };
        assert(r@ =~= Map::<Seq<char>, VarText>::empty());
        r
    }

    fn put(&mut self, entry: VarEntry)
        ensures
            final(self)@ == old(self)@.insert(entry@.name, entry@),
    {
        proof {
            use_type_invariant(&*self);
            lemma_deep_insert(self.vars@, entry@.name, entry);
        }
        let mut vars: OrdMap<String, VarEntry> = OrdMap::new();
        std::mem::swap(&mut vars, &mut self.vars);
        vars.insert(entry.name.clone(), entry);
        self.vars = vars;
    }

    /// Sets a variable.
    pub fn set(&mut self, name: &str, value: &str, tent_id: Option<TupId>)
        ensures
            final(self)@ == old(self)@.insert(
                name@,
                (VarText { name: name@, value: value@, tent_id }),
            ),
    {
        self.put(VarEntry { name: copy_str(name), value: copy_str(value), tent_id });
    }

    /// Adds to the value of a variable, after a space where it has one.
    pub fn append(&mut self, name: &str, value: &str)
        ensures
            final(self)@ == appended(old(self)@, name@, value@),
    {
        let found = match self.get(name) {
            Some(e) => Some(e.clone()),
            None => None,
        };
        match found {
            Some(e) => {
                let ghost before = e@;
                let joined = if e.value.as_str().unicode_len() == 0 {
                    copy_str(value)
                } else {
                    concat3(e.value.as_str(), " ", value)
                };
                let entry = VarEntry { name: e.name, value: joined, tent_id: e.tent_id };
                self.put(entry);
            },
            None => {
                self.set(name, value, None);
            },
        }
    }

    /// The variable with a name.
    pub fn get(&self, name: &str) -> (r: Option<&VarEntry>)
        ensures
            match r {
                Some(e) => self@.dom().contains(name@) && self@[name@] == e@ && e@.name == name@,
                None => !self@.dom().contains(name@),
            },
    {
        proof {
            use_type_invariant(self);
        }
        match self.vars.get(&copy_str(name)) {
            Some(e) => {
                assert(self@.dom().contains(name@));
                Some(e)
            },
            None => None,
        }
    }

    /// The value of a variable, empty where there is none.
    pub fn get_value(&self, name: &str) -> (r: &str)
        ensures
            r@ == if self@.dom().contains(name@) {
                self@[name@].value
            } else {
                ""@
            },
    {
        match self.get(name) {
            Some(e) => e.value.as_str(),
            None => "",
        }
    }

    /// Adds the value of a variable to a string, and says whether there is one.
    pub fn copy_value(&self, name: &str, dest: &mut String) -> (r: bool)
        ensures
            r == self@.dom().contains(name@),
            r ==> final(dest)@ == old(dest)@ + self@[name@].value,
            !r ==> final(dest)@ == old(dest)@,
    {
        match self.get(name) {
            Some(e) => {
                let longer = concat2(dest.as_str(), e.value.as_str());
                *dest = longer;
                true
            },
            None => false,
        }
    }

    /// Removes a variable, and says whether there was one.
    pub fn remove(&mut self, name: &str) -> (r: bool)
        ensures
            r == old(self)@.dom().contains(name@),
            final(self)@ == old(self)@.remove(name@),
    {
        proof {
            use_type_invariant(&*self);
            lemma_deep_remove(self.vars@, name@);
        }
        let mut vars: OrdMap<String, VarEntry> = OrdMap::new();
        std::mem::swap(&mut vars, &mut self.vars);
        let found = vars.remove(&copy_str(name)).is_some();
        self.vars = vars;
        found
    }

    /// The number of variables.
    pub fn len(&self) -> (r: usize)
        ensures
            r == self@.dom().len(),
    {
        assert(self@.dom() =~= self.vars@.dom());
        self.vars.len()
    }

    /// Whether there are no variables.
    pub fn is_empty(&self) -> (r: bool)
        ensures
            r == (self@.dom().len() == 0),
    {
        self.len() == 0
    }

    /// Removes all variables.
    pub fn clear(&mut self)
        ensures
            final(self)@ == Map::<Seq<char>, VarText>::empty(),
    {
        self.vars = OrdMap::new();
        assert(self@ =~= Map::<Seq<char>, VarText>::empty());
    }

    /// All variables in the order of their names.
    pub fn iter(&self) -> (r: Vec<(&str, &VarEntry)>)
        ensures
            forall|i: int, j: int|
                0 <= i < j < r@.len() ==> text_lt((#[trigger] r@[i]).0@, (#[trigger] r@[j]).0@),
            forall|i: int|
                0 <= i < r@.len() ==> self@.dom().contains((#[trigger] r@[i]).0@)
                    && self@[r@[i].0@] == r@[i].1@,
            forall|k: Seq<char>| #[trigger]
                self@.dom().contains(k) ==> exists|i: int|
                    0 <= i < r@.len() && (#[trigger] r@[i]).0@ == k,
    {
        let n = self.vars.len();
        let ghost p = self.vars.pairs();
        let mut out: Vec<(&str, &VarEntry)> = Vec::new();
        let mut i: usize = 0;
        while i < n
            invariant
                i <= n,
                n == self.vars.pairs().len(),
                p == self.vars.pairs(),
                out@.len() == i,
                forall|j: int|
                    0 <= j < i ==> (#[trigger] out@[j]).0@ == p[j].0@ && out@[j].1 == p[j].1,
            decreases n - i,
        {
            let (k, e) = self.vars.at(i);
            out.push((k.as_str(), e));
            i += 1;
        }
        proof {
            assert forall|a: int, b: int| 0 <= a < b < out@.len() implies text_lt(
                (#[trigger] out@[a]).0@,
                (#[trigger] out@[b]).0@,
            ) by {
                assert(<String as Key>::lt(p[a].0@, p[b].0@));
            }
            assert forall|a: int| 0 <= a < out@.len() implies self@.dom().contains(
                (#[trigger] out@[a]).0@,
            ) && self@[out@[a].0@] == out@[a].1@ by {
                assert(self.vars@.dom().contains(p[a].0@));
            }
            assert forall|k: Seq<char>| #[trigger] self@.dom().contains(k) implies exists|a: int|
                0 <= a < out@.len() && (#[trigger] out@[a]).0@ == k by {
                let a = choose|a: int| 0 <= a < p.len() && #[trigger] p[a].0@ == k;
                assert(out@[a].0@ == k);
            }
        }
        out
    }

    /// The variables that are here but not in another set, in the order of
    /// their names.
    fn missing_in(&self, other: &VarDb) -> (r: Vec<VarEntry>)
        ensures
            by_name(var_texts(r@)),
            forall|v: VarText| #[trigger]
                var_texts(r@).contains(v) <==> self@.dom().contains(v.name) && self@[v.name] == v
                    && !other@.dom().contains(v.name),
    {
        proof {
            use_type_invariant(self);
        }
        let all = self.iter();
        let ghost m = self@;
        let mut out: Vec<VarEntry> = Vec::new();
        let mut i: usize = 0;
        while i < all.len()
            invariant
                i <= all.len(),
                m == self@,
                forall|k: Seq<char>| #[trigger] m.dom().contains(k) ==> m[k].name == k,
                forall|a: int, b: int|
                    0 <= a < b < all@.len() ==> text_lt(
                        (#[trigger] all@[a]).0@,
                        (#[trigger] all@[b]).0@,
                    ),
                forall|a: int|
                    0 <= a < all@.len() ==> m.dom().contains((#[trigger] all@[a]).0@)
                        && m[all@[a].0@] == all@[a].1@,
                by_name(var_texts(out@)),
                forall|j: int|
                    0 <= j < out@.len() ==> is_only_here(
                        all@,
                        other@,
                        i as int,
                        (#[trigger] out@[j])@,
                    ),
                forall|a: int|
                    0 <= a < i && !other@.dom().contains((#[trigger] all@[a]).0@) ==> var_texts(
                        out@,
                    ).contains(all@[a].1@),
            decreases all.len() - i,
        {
            let (k, e) = all[i];
            let ghost before = out@;
            if other.get(k).is_none() {
                out.push(e.clone());
                proof {
                    let t = var_texts(out@);
                    let b = var_texts(before);
                    assert(t =~= b.push(e@));
                    assert(m.dom().contains(all@[i as int].0@));
                    assert forall|x: int, y: int| 0 <= x < y < t.len() implies text_lt(
                        (#[trigger] t[x]).name,
                        (#[trigger] t[y]).name,
                    ) by {
                        if y == b.len() {
                            assert(t[x] == before[x]@);
                            assert(is_only_here(all@, other@, i as int, before[x]@));
                            let a = choose|a: int|
                                0 <= a < i && (#[trigger] all@[a]).1@ == before[x]@
                                    && !other@.dom().contains(all@[a].0@);
                            assert(m.dom().contains(all@[a].0@));
                            assert(text_lt(all@[a].0@, all@[i as int].0@));
                        } else {
                            assert(t[x] == b[x] && t[y] == b[y]);
                        }
                    }
                    assert forall|a: int|
                        0 <= a < i + 1 && !other@.dom().contains(
                            (#[trigger] all@[a]).0@,
                        ) implies t.contains(all@[a].1@) by {
                        if a < i {
                            assert(b.contains(all@[a].1@));
                            let q = choose|q: int| 0 <= q < b.len() && b[q] == all@[a].1@;
                            assert(t[q] == all@[a].1@);
                        } else {
                            assert(t[b.len() as int] == e@);
                        }
                    }
                }
            }
            proof {
                assert forall|j: int| 0 <= j < out@.len() implies is_only_here(
                    all@,
                    other@,
                    i + 1,
                    (#[trigger] out@[j])@,
                ) by {
                    if j < before.len() {
                        assert(out@[j] == before[j]);
                        assert(is_only_here(all@, other@, i as int, before[j]@));
                        let a = choose|a: int|
                            0 <= a < i && (#[trigger] all@[a]).1@ == before[j]@
                                && !other@.dom().contains(all@[a].0@);
                        assert(all@[a].1@ == out@[j]@);
                    } else {
                        assert(all@[i as int].1@ == out@[j]@);
                    }
                }
            }
            i += 1;
        }
        proof {
            let t = var_texts(out@);
            assert forall|v: VarText| #[trigger]
                t.contains(v) <==> m.dom().contains(v.name) && m[v.name] == v
                    && !other@.dom().contains(v.name) by {
                if t.contains(v) {
                    let j = choose|j: int| 0 <= j < t.len() && t[j] == v;
                    assert(is_only_here(all@, other@, i as int, out@[j]@));
                    let a = choose|a: int|
                        0 <= a < i && (#[trigger] all@[a]).1@ == v
                            && !other@.dom().contains(all@[a].0@);
                    assert(m.dom().contains(all@[a].0@));
                }
                if m.dom().contains(v.name) && m[v.name] == v && !other@.dom().contains(v.name) {
                    let a = choose|a: int| 0 <= a < all@.len() && (#[trigger] all@[a]).0@ == v.name;
                    assert(t.contains(all@[a].1@));
                }
            }
        }
        out
    }

    /// The variables of both sets, in the order of their names.
    fn shared_with(&self, other: &VarDb) -> (r: Vec<(VarEntry, VarEntry)>)
        ensures
            shared_pairs(r@, self@, other@),
    {
        proof {
            use_type_invariant(self);
        }
        let all = self.iter();
        let ghost m = self@;
        let mut out: Vec<(VarEntry, VarEntry)> = Vec::new();
        let mut i: usize = 0;
        while i < all.len()
            invariant
                i <= all.len(),
                m == self@,
                forall|k: Seq<char>| #[trigger] m.dom().contains(k) ==> m[k].name == k,
                forall|a: int, b: int|
                    0 <= a < b < all@.len() ==> text_lt(
                        (#[trigger] all@[a]).0@,
                        (#[trigger] all@[b]).0@,
                    ),
                forall|a: int|
                    0 <= a < all@.len() ==> m.dom().contains((#[trigger] all@[a]).0@)
                        && m[all@[a].0@] == all@[a].1@,
                forall|x: int, y: int|
                    0 <= x < y < out@.len() ==> text_lt(
                        (#[trigger] out@[x]).0@.name,
                        (#[trigger] out@[y]).0@.name,
                    ),
                forall|j: int|
                    0 <= j < out@.len() ==> {
                        let k = (#[trigger] out@[j]).0@.name;
                        &&& m.dom().contains(k)
                        &&& m[k] == out@[j].0@
                        &&& other@.dom().contains(k)
                        &&& other@[k] == out@[j].1@
                        &&& exists|a: int| 0 <= a < i && (#[trigger] all@[a]).0@ == k
                    },
                forall|a: int|
                    0 <= a < i && other@.dom().contains((#[trigger] all@[a]).0@) ==> exists|j: int|
                        0 <= j < out@.len() && (#[trigger] out@[j]).0@.name == all@[a].0@,
            decreases all.len() - i,
        {
            let (k, e) = all[i];
            let ghost before = out@;
            if let Some(o) = other.get(k) {
                out.push((e.clone(), o.clone()));
                proof {
                    assert(m.dom().contains(all@[i as int].0@));
                    assert forall|x: int, y: int| 0 <= x < y < out@.len() implies text_lt(
                        (#[trigger] out@[x]).0@.name,
                        (#[trigger] out@[y]).0@.name,
                    ) by {
                        if y == before.len() {
                            let n = before[x].0@.name;
                            assert(out@[x] == before[x]);
                            let a = choose|a: int| 0 <= a < i && (#[trigger] all@[a]).0@ == n;
                            assert(text_lt(all@[a].0@, all@[i as int].0@));
                        } else {
                            assert(out@[x] == before[x] && out@[y] == before[y]);
                        }
                    }
                    assert forall|j: int| 0 <= j < out@.len() implies {
                        let k = (#[trigger] out@[j]).0@.name;
                        &&& m.dom().contains(k)
                        &&& m[k] == out@[j].0@
                        &&& other@.dom().contains(k)
                        &&& other@[k] == out@[j].1@
                        &&& exists|a: int| 0 <= a < i + 1 && (#[trigger] all@[a]).0@ == k
                    } by {
                        if j < before.len() {
                            assert(out@[j] == before[j]);
                            let n = before[j].0@.name;
                            let a = choose|a: int| 0 <= a < i && (#[trigger] all@[a]).0@ == n;
                            assert(all@[a].0@ == n);
                        } else {
                            assert(all@[i as int].0@ == out@[j].0@.name);
                        }
                    }
                    assert forall|a: int|
                        0 <= a < i + 1 && other@.dom().contains((#[trigger] all@[a]).0@) implies exists|
                        j: int,
                    | 0 <= j < out@.len() && (#[trigger] out@[j]).0@.name == all@[a].0@ by {
                        if a < i {
                            let j = choose|j: int|
                                0 <= j < before.len() && (#[trigger] before[j]).0@.name
                                    == all@[a].0@;
                            assert(out@[j].0@.name == all@[a].0@);
                        } else {
                            assert(out@[before.len() as int].0@.name == all@[a].0@);
                        }
                    }
                }
            }
            i += 1;
        }
        proof {
            assert forall|k: Seq<char>| #[trigger]
                m.dom().contains(k) && other@.dom().contains(k) implies exists|j: int|
                0 <= j < out@.len() && (#[trigger] out@[j]).0@.name == k by {
                let a = choose|a: int| 0 <= a < all@.len() && (#[trigger] all@[a]).0@ == k;
                assert(other@.dom().contains(all@[a].0@));
            }
        }
        out
    }

    /// Compares two sets of variables.
    pub fn compare(&self, other: &VarDb) -> (r: VarDiff)
        ensures
            by_name(var_texts(r.only_in_a@)),
            forall|v: VarText| #[trigger]
                var_texts(r.only_in_a@).contains(v) <==> self@.dom().contains(v.name)
                    && self@[v.name] == v && !other@.dom().contains(v.name),
            by_name(var_texts(r.only_in_b@)),
            forall|v: VarText| #[trigger]
                var_texts(r.only_in_b@).contains(v) <==> other@.dom().contains(v.name)
                    && other@[v.name] == v && !self@.dom().contains(v.name),
            shared_pairs(r.in_both@, self@, other@),
    {
        VarDiff {
            only_in_a: self.missing_in(other),
            only_in_b: other.missing_in(self),
            in_both: self.shared_with(other),
        }
    }
}

/// Whether a variable is among the first of a list, and not in a set.
spec fn is_only_here(
    all: Seq<(&str, &VarEntry)>,
    other: Map<Seq<char>, VarText>,
    n: int,
    v: VarText,
) -> bool {
    exists|a: int|
        0 <= a < n && (#[trigger] all[a]).1@ == v && !other.dom().contains(all[a].0@)
}

/// Whether a list holds the variables of two sets that have the same name, in
/// the order of the names.
pub open spec fn shared_pairs(
    r: Seq<(VarEntry, VarEntry)>,
    a: Map<Seq<char>, VarText>,
    b: Map<Seq<char>, VarText>,
) -> bool {
    &&& forall|x: int, y: int|
        0 <= x < y < r.len() ==> text_lt(
            (#[trigger] r[x]).0@.name,
            (#[trigger] r[y]).0@.name,
        )
    &&& forall|j: int|
        0 <= j < r.len() ==> {
            let k = (#[trigger] r[j]).0@.name;
            &&& a.dom().contains(k)
            &&& a[k] == r[j].0@
            &&& b.dom().contains(k)
            &&& b[k] == r[j].1@
        }
    &&& forall|k: Seq<char>| #[trigger]
        a.dom().contains(k) && b.dom().contains(k) ==> exists|j: int|
            0 <= j < r.len() && (#[trigger] r[j]).0@.name == k
}

/// Compared with itself, a set of variables has nothing that the other lacks, and
/// every variable is the same in both.
pub proof fn no_difference_to_itself(vars: Map<Seq<char>, VarText>, diff: VarDiff)
    requires
        forall|v: VarText| #[trigger]
            var_texts(diff.only_in_a@).contains(v) <==> vars.dom().contains(v.name)
                && vars[v.name] == v && !vars.dom().contains(v.name),
        forall|v: VarText| #[trigger]
            var_texts(diff.only_in_b@).contains(v) <==> vars.dom().contains(v.name)
                && vars[v.name] == v && !vars.dom().contains(v.name),
        shared_pairs(diff.in_both@, vars, vars),
    ensures
        diff.only_in_a@.len() == 0,
        diff.only_in_b@.len() == 0,
        forall|i: int|
            0 <= i < diff.in_both@.len() ==> (#[trigger] diff.in_both@[i]).0@ == diff.in_both@[i].1@,
{
    let a = var_texts(diff.only_in_a@);
    let b = var_texts(diff.only_in_b@);
    if a.len() > 0 {
        assert(a.contains(a[0]));
    }
    if b.len() > 0 {
        assert(b.contains(b[0]));
    }
}

/// What is appended to a variable follows its value after a space; a variable that is empty or
/// not there gets the value. No other variable changes.
pub proof fn values_are_appended(
    vars: Map<Seq<char>, VarText>,
    name: Seq<char>,
    value: Seq<char>,
    more: Seq<char>,
    other: Seq<char>,
)
    requires
        !vars.dom().contains(name),
        value.len() > 0,
        other != name,
    ensures
        ({
            let once = appended(vars, name, value);
            let twice = appended(once, name, more);
            &&& once.dom().contains(name) && once[name].name == name && once[name].value == value
            &&& twice.dom().contains(name) && twice[name].name == name
            &&& twice[name].value == value + " "@ + more
            &&& twice[name].tent_id == once[name].tent_id
            &&& appended(appended(vars, name, Seq::empty()), name, value)[name].value == value
            &&& twice.dom().contains(other) == vars.dom().contains(other)
            &&& vars.dom().contains(other) ==> twice[other] == vars[other]
        }),
{
}

impl Default for VarDb {
    fn default() -> (r: Self)
        ensures
            r@ == Map::<Seq<char>, VarText>::empty(),
    {
        VarDb::new()
    }
}

} // verus!
