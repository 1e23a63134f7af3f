//! Build variants: the same sources with different configurations.
use vstd::prelude::*;

use crate::db::vardb::{VarDb, VarText};
use crate::ids::{ascending, lists};
use crate::ordmap::{deep, lemma_deep_insert, lemma_deep_remove, OrdMap};
use crate::text::{
    concat2, copy_str, find_char, lines, str_find_char, str_first_is, str_lines, str_skip,
    str_take, str_trim, texts, trim,
};
use crate::types::TupId;

verus! {

/// In place of a node: the source directory of a variant is gone.
pub const VARIANT_SRCDIR_REMOVED: i64 = -2;

/// A build variant.
#[derive(Debug)]
pub struct Variant {
    /// The node of the variant's directory.
    pub dir_id: TupId,
    /// The node of its configuration.
    pub config_id: Option<TupId>,
    pub tent_id: TupId,
    /// The variables of its configuration.
    pub vdb: VarDb,
    pub enabled: bool,
    /// Whether the outputs stand among the sources.
    pub root_variant: bool,
    /// The path of the variant's directory.
    pub variant_dir: String,
    /// The path of the file that its variables are in.
    pub vardict_file: String,
}

/// A variant as texts.
#[verifier::ext_equal]
pub struct VariantText {
    pub dir_id: TupId,
    pub config_id: Option<TupId>,
    pub tent_id: TupId,
    pub vdb: Map<Seq<char>, VarText>,
    pub enabled: bool,
    pub root_variant: bool,
    pub variant_dir: Seq<char>,
    pub vardict_file: Seq<char>,
}

impl View for Variant {
    type V = VariantText;

    open spec fn view(&self) -> VariantText {
        VariantText {
            dir_id: self.dir_id,
            config_id: self.config_id,
            tent_id: self.tent_id,
            vdb: self.vdb@,
            enabled: self.enabled,
            root_variant: self.root_variant,
            variant_dir: self.variant_dir@,
            vardict_file: self.vardict_file@,
        }
    }
}

/// The variant whose outputs stand among the sources.
pub open spec fn root_of(dir_id: TupId) -> VariantText {
    VariantText {
        dir_id,
        config_id: None,
        tent_id: dir_id,
        vdb: Map::empty(),
        enabled: true,
        root_variant: true,
        variant_dir: "."@,
        vardict_file: ".tup/vardict"@,
    }
}

/// A variant with a directory of its own.
pub open spec fn variant_of(dir_id: TupId, tent_id: TupId, variant_dir: Seq<char>) -> VariantText {
    VariantText {
        dir_id,
        config_id: None,
        tent_id,
        vdb: Map::empty(),
        enabled: true,
        root_variant: false,
        variant_dir,
        vardict_file: variant_dir + "/.tup/vardict"@,
    }
}

impl Variant {
    /// The variant whose outputs stand among the sources.
    pub fn new_root(dir_id: TupId) -> (r: Self)
        ensures
            r@ == root_of(dir_id),
    {
        Variant {
            dir_id,
            config_id: None,
            tent_id: dir_id,
            vdb: VarDb::new(),
            enabled: true,
            root_variant: true,
            variant_dir: copy_str("."),
            vardict_file: copy_str(".tup/vardict"),
        }
    }

    /// A variant with a directory of its own.
    pub fn new(dir_id: TupId, tent_id: TupId, variant_dir: &str) -> (r: Self)
        ensures
            r@ == variant_of(dir_id, tent_id, variant_dir@),
    {
        Variant {
            dir_id,
            config_id: None,
            tent_id,
            vdb: VarDb::new(),
            enabled: true,
            root_variant: false,
            variant_dir: copy_str(variant_dir),
            vardict_file: concat2(variant_dir, "/.tup/vardict"),
        }
    }

    /// The value of a configuration variable.
    pub fn get_config(&self, name: &str) -> (r: Option<&str>)
        ensures
            match r {
                Some(v) => self@.vdb.dom().contains(name@) && self@.vdb[name@].value == v@,
                None => !self@.vdb.dom().contains(name@),
            },
    {
        match self.vdb.get(name) {
            Some(e) => Some(e.value.as_str()),
            None => None,
        }
    }

    /// Sets a configuration variable.
    pub fn set_config(&mut self, name: &str, value: &str)
        ensures
            final(self)@ == (VariantText {
                vdb: old(self)@.vdb.insert(
                    name@,
                    (VarText { name: name@, value: value@, tent_id: None }),
                ),
                ..old(self)@
            }),
    {
        self.vdb.set(name, value, None);
    }
}

/// All build variants, by the node of their directory.
#[derive(Debug)]
pub struct VariantRegistry {
    variants: OrdMap<TupId, Variant>,
    root_id: Option<TupId>,
}

/// All variants as texts.
#[verifier::ext_equal]
pub struct RegistryText {
    pub variants: Map<TupId, VariantText>,
    pub root: Option<TupId>,
}

impl View for VariantRegistry {
    type V = RegistryText;

    closed spec fn view(&self) -> RegistryText {
        RegistryText { variants: deep(self.variants@), root: self.root_id }
    }
}

impl RegistryText {
    /// A variant is added where its directory has none.
    pub open spec fn add(self, v: VariantText) -> RegistryText {
        if self.variants.dom().contains(v.dir_id) {
            self
        } else {
            RegistryText { variants: self.variants.insert(v.dir_id, v), ..self }
        }
    }

    /// The variant whose outputs stand among the sources.
    pub open spec fn root_variant(self) -> Option<VariantText> {
        if self.root is Some && self.variants.dom().contains(self.root->0) {
            Some(self.variants[self.root->0])
        } else {
            None
        }
    }

    /// The variants with a directory of their own.
    pub open spec fn non_root(self) -> Set<TupId> {
        Set::new(
            |id: TupId| self.variants.dom().contains(id) && !self.variants[id].root_variant,
        )
    }
}

impl VariantRegistry {
    /// No variants.
    pub fn new() -> (r: Self)
        ensures
            r@ == (RegistryText { variants: Map::empty(), root: None }),
    {
        let r = VariantRegistry { variants: OrdMap::new(), root_id: None };
        assert(r@.variants =~= Map::<TupId, VariantText>::empty());
        r
    }

    fn insert_new(&mut self, v: Variant)
        ensures
            final(self)@ == old(self)@.add(v@),
    {
        if !self.variants.contains(&v.dir_id) {
            proof {
                lemma_deep_insert(self.variants@, v.dir_id, v);
            }
            self.variants.insert(v.dir_id, v);
        } else {
            assert(self@.variants.dom().contains(v@.dir_id));
        }
    }

    /// A variant that is there.
    fn at(&self, dir_id: TupId) -> (r: &Variant)
        requires
            self@.variants.dom().contains(dir_id),
        ensures
            r@ == self@.variants[dir_id],
    {
        match self.variants.get(&dir_id) {
            Some(v) => v,
            None => {
                assert(false);
                vstd::pervasive::unreached()
            },
        }
    }

    /// Adds the variant whose outputs stand among the sources. One that the
    /// directory has already stays.
    pub fn add_root(&mut self, dir_id: TupId) -> (r: &Variant)
        ensures
            final(self)@ == (RegistryText {
                root: Some(dir_id),
                ..old(self)@.add(root_of(dir_id))
            }),
            r@ == old(self)@.add(root_of(dir_id)).variants[dir_id],
    {
        self.insert_new(Variant::new_root(dir_id));
        self.root_id = Some(dir_id);
        self.at(dir_id)
    }

    /// Adds a variant with a directory of its own. One that the directory has
    /// already stays.
    pub fn add(&mut self, dir_id: TupId, tent_id: TupId, variant_dir: &str) -> (r: &Variant)
        ensures
            final(self)@ == old(self)@.add(variant_of(dir_id, tent_id, variant_dir@)),
            r@ == old(self)@.add(variant_of(dir_id, tent_id, variant_dir@)).variants[dir_id],
    {
        self.insert_new(Variant::new(dir_id, tent_id, variant_dir));
        self.at(dir_id)
    }

    /// Removes a variant.
    pub fn remove(&mut self, dir_id: TupId) -> (r: Option<Variant>)
        ensures
            match r {
                Some(v) => old(self)@.variants.dom().contains(dir_id)
                    && old(self)@.variants[dir_id] == v@,
                None => !old(self)@.variants.dom().contains(dir_id),
            },
            final(self)@ == (RegistryText {
                variants: old(self)@.variants.remove(dir_id),
                root: if old(self)@.root == Some(dir_id) {
                    None
                } else {
                    old(self)@.root
                },
            }),
    {
        proof {
            lemma_deep_remove(self.variants@, dir_id);
        }
        let removed = self.variants.remove(&dir_id);
        if let Some(root) = self.root_id {
            if root == dir_id {
                self.root_id = None;
            }
        }
        removed
    }

    /// The variant of a directory.
    pub fn search(&self, dir_id: TupId) -> (r: Option<&Variant>)
        ensures
            match r {
                Some(v) => self@.variants.dom().contains(dir_id) && self@.variants[dir_id] == v@,
                None => !self@.variants.dom().contains(dir_id),
            },
    {
        match self.variants.get(&dir_id) {
            Some(v) => {
                assert(self@.variants.dom().contains(dir_id));
                Some(v)
            },
            None => None,
        }
    }

    /// Puts a changed variant in the place of the one that its directory has,
    /// and says whether it has one.
    pub fn replace(&mut self, variant: Variant) -> (r: bool)
        ensures
            r == old(self)@.variants.dom().contains(variant@.dir_id),
            final(self)@ == if r {
                RegistryText {
                    variants: old(self)@.variants.insert(variant@.dir_id, variant@),
                    ..old(self)@
                }
            } else {
                old(self)@
            },
    {
        if self.variants.contains(&variant.dir_id) {
            proof {
                assert(self@.variants.dom().contains(variant@.dir_id));
                lemma_deep_insert(self.variants@, variant.dir_id, variant);
            }
            self.variants.insert(variant.dir_id, variant);
            true
        } else {
            false
        }
    }

    /// The variant whose outputs stand among the sources.
    pub fn root(&self) -> (r: Option<&Variant>)
        ensures
            match r {
                Some(v) => self@.root_variant() == Some(v@),
                None => self@.root_variant() is None,
            },
    {
        match self.root_id {
            Some(id) => self.search(id),
            None => None,
        }
    }

    /// Whether there are no variants.
    pub fn is_empty(&self) -> (r: bool)
        ensures
            r == (self@.variants.dom().len() == 0),
    {
        self.len() == 0
    }

    /// The number of variants.
    pub fn len(&self) -> (r: usize)
        ensures
            r == self@.variants.dom().len(),
    {
        assert(self@.variants.dom() =~= self.variants@.dom());
        self.variants.len()
    }

    /// All variants in the order of the nodes of their directories.
    pub fn iter(&self) -> (r: Vec<(TupId, &Variant)>)
        ensures
            lists(ascending(self@.variants.dom()), self@.variants.dom()),
            r@.len() == ascending(self@.variants.dom()).len(),
            forall|i: int|
                0 <= i < r@.len() ==> (#[trigger] r@[i]).0 == ascending(self@.variants.dom())[i]
                    && r@[i].1@ == self@.variants[r@[i].0],
    {
        let ids = crate::ids::ids_of(&self.variants);
        assert(self@.variants.dom() =~= self.variants@.dom());
        let mut out: Vec<(TupId, &Variant)> = Vec::new();
        let mut i: usize = 0;
        while i < ids.len()
            invariant
                i <= ids.len(),
                out@.len() == i,
                lists(ids@, self@.variants.dom()),
                forall|j: int|
                    0 <= j < i ==> (#[trigger] out@[j]).0 == ids@[j] && out@[j].1@
                        == self@.variants[ids@[j]],
            decreases ids.len() - i,
        {
            assert(ids@.contains(ids@[i as int]));
            out.push((ids[i], self.at(ids[i])));
            i += 1;
        }
        out
    }

    /// The variants with a directory of their own, in the order of the nodes of
    /// their directories.
    pub fn non_root_variants(&self) -> (r: Vec<&Variant>)
        ensures
            variants_at(r@) == Seq::new(
                ascending(self@.non_root()).len(),
                |i: int| self@.variants[ascending(self@.non_root())[i]],
            ),
            lists(ascending(self@.non_root()), self@.non_root()),
    {
        let all = self.iter();
        let ghost ids = ascending(self@.variants.dom());
        let ghost m = self@.variants;
        let ghost mut kept: Seq<TupId> = Seq::empty();
        let mut out: Vec<&Variant> = Vec::new();
        let mut i: usize = 0;
        while i < all.len()
            invariant
                i <= all.len(),
                m == self@.variants,
                all@.len() == ids.len(),
                lists(ids, m.dom()),
                forall|j: int|
                    0 <= j < all@.len() ==> (#[trigger] all@[j]).0 == ids[j] && all@[j].1@
                        == m[ids[j]],
                kept.len() == out@.len(),
                crate::ids::increasing(kept),
                forall|j: int| 0 <= j < out@.len() ==> (#[trigger] out@[j])@ == m[kept[j]],
                forall|j: int| 0 <= j < kept.len() ==> ids.take(i as int).contains(
                    #[trigger] kept[j],
                ),
                forall|x: TupId| #[trigger]
                    kept.contains(x) <==> ids.take(i as int).contains(x) && !m[x].root_variant,
            decreases all.len() - i,
        {
            let (id, v) = all[i];
            let ghost before = kept;
            let ghost pre = ids.take(i as int);
            let ghost next = ids.take(i + 1);
            if !v.root_variant {
                out.push(v);
                proof {
                    kept = kept.push(id);
                }
            }
            proof {
                assert(next =~= pre.push(id));
                assert forall|j: int| 0 <= j < kept.len() implies next.contains(
                    #[trigger] kept[j],
                ) by {
                    if j < before.len() {
                        assert(kept[j] == before[j]);
                        assert(pre.contains(before[j]));
                        let k = choose|k: int| 0 <= k < pre.len() && pre[k] == before[j];
                        assert(next[k] == kept[j]);
                    } else {
                        assert(next[i as int] == id);
                    }
                }
                assert forall|a: int, b: int| 0 <= a < b < kept.len() implies (
                #[trigger] kept[a]).0 < (#[trigger] kept[b]).0 by {
                    if b == before.len() {
                        assert(kept[a] == before[a]);
                        assert(pre.contains(before[a]));
                        let k = choose|k: int| 0 <= k < pre.len() && pre[k] == before[a];
                        assert(ids[k].0 < ids[i as int].0);
                    }
                }
                assert forall|x: TupId| #[trigger]
                    kept.contains(x) <==> next.contains(x) && !m[x].root_variant by {
                    if pre.contains(x) {
                        let k = choose|k: int| 0 <= k < pre.len() && pre[k] == x;
                        assert(next[k] == x);
                    }
                    if next.contains(x) {
                        let k = choose|k: int| 0 <= k < next.len() && next[k] == x;
                        if k < i {
                            assert(pre[k] == x);
                        }
                    }
                    if before.contains(x) {
                        let k = choose|k: int| 0 <= k < before.len() && before[k] == x;
                        assert(kept[k] == x);
                    }
                    if kept.contains(x) {
                        let k = choose|k: int| 0 <= k < kept.len() && kept[k] == x;
                        if k < before.len() {
                            assert(before[k] == x);
                        }
                    }
                    assert(next[i as int] == id);
                    if !v.root_variant {
                        assert(kept[before.len() as int] == id);
                    }
                }
            }
            i += 1;
        }
        proof {
            assert(ids.take(ids.len() as int) =~= ids);
            assert forall|x: TupId| kept.contains(x) <==> self@.non_root().contains(x) by {
                assert(ids.contains(x) <==> m.dom().contains(x));
            }
            crate::ids::ascending_is_unique(kept, self@.non_root());
            assert(variants_at(out@) =~= Seq::new(
                ascending(self@.non_root()).len(),
                |i: int| self@.variants[ascending(self@.non_root())[i]],
            ));
        }
        out
    }
}

pub open spec fn variants_at(v: Seq<&Variant>) -> Seq<VariantText> {
    Seq::new(v.len(), |i: int| v[i]@)
}

/// The variant of a directory is the first one that was added for it.
pub proof fn a_variant_is_added_once(r: RegistryText, v: VariantText, w: VariantText)
    requires
        v.dir_id == w.dir_id,
        !r.variants.dom().contains(v.dir_id),
    ensures
        r.add(v).variants[v.dir_id] == v,
        r.add(v).add(w) == r.add(v),
{
}

impl Default for VariantRegistry {
    fn default() -> (r: Self)
        ensures
            r@ == (RegistryText { variants: Map::empty(), root: None }),
    {
        VariantRegistry::new()
    }
}

/// What a line of a configuration sets. Empty lines and comments, which begin
/// with `#`, set nothing, nor does a line without `=`.
pub open spec fn config_line(line: Seq<char>) -> Option<(Seq<char>, Seq<char>)> {
    let line = trim(line);
    if line.len() == 0 || line[0] == '#' {
        None
    } else {
        match find_char(line, '=') {
            Some(k) => Some((trim(line.take(k)), trim(line.skip(k + 1)))),
            None => None,
        }
    }
}

/// What the lines of a configuration set. A later line wins.
pub open spec fn config_of(all: Seq<Seq<char>>) -> Map<Seq<char>, Seq<char>>
    decreases all.len(),
{
    if all.len() == 0 {
        Map::empty()
    } else {
        let before = config_of(all.drop_last());
        match config_line(all.last()) {
            Some((k, v)) => before.insert(k, v),
            None => before,
        }
    }
}

/// Reads the content of a `tup.config` file.
pub fn parse_tup_config(content: &str) -> (r: OrdMap<String, String>)
    ensures
        deep(r@) == config_of(lines(content@)),
{
    let all = str_lines(content);
    let ghost whole = texts(all@);
    let mut vars: OrdMap<String, String> = OrdMap::new();
    let mut i: usize = 0;
    proof {
        assert(whole.take(0) =~= Seq::empty());
        assert(deep(vars@) =~= Map::<Seq<char>, Seq<char>>::empty());
    }
    while i < all.len()
        invariant
            i <= all.len(),
            whole == texts(all@),
            deep(vars@) == config_of(whole.take(i as int)),
        decreases all.len() - i,
    {
        proof {
            assert(whole.take(i + 1).drop_last() =~= whole.take(i as int));
            assert(whole.take(i + 1).last() == all@[i as int]@);
        }
        let line = str_trim(all[i].as_str());
        if line.unicode_len() == 0 || str_first_is(line, '#') {
        } else {
            match str_find_char(line, '=') {
                Some(k) => {
                    let key = str_take(line, k);
                    let value = str_skip(line, k + 1);
                    let v = copy_str(str_trim(value));
                    let key_text = copy_str(str_trim(key));
                    proof {
                        lemma_deep_insert(vars@, key_text@, v);
                    }
                    vars.insert(key_text, v);
                },
                None => {},
            }
        }
        i += 1;
    }
    assert(whole.take(whole.len() as int) =~= whole);
    vars
}

} // verus!
