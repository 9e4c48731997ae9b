use vstd::prelude::*;
use std::collections::HashMap;
use crate::resolve::ids::{spec_item_id, ImplId, ItemId, ModuleId};
use crate::resolve::item::{ids_distinct, table_has, ItemKind, ModuleItem};
use crate::resolve::parse::{attr_idents, child_links, children_declared, declared_mods, dir_prefix, module_links, entry_parses, module_impls_read, module_items_read, source_items_named, raw_with_node, source_impls_raw, fn_member_facts, item_agrees, modules_from, opt_texts, parse_files, raw_agrees, ResolveError, SourceText};
use crate::syntax::{impl_attrs_of, impl_members_of, impl_node_of, impl_target_of, impl_trait_path_of, item_class, method_facts, parses_as_file, source_items};
use crate::resolve::ids::str_hash;
use crate::resolve::tree::join_path;
use crate::types::MethodInfo;
use crate::text::same_text;

verus! {

/// An impl block whose target type resolved to a known item.
pub struct Impl {
    pub target_type: ItemId,
    pub trait_: Option<ItemId>,
    pub methods: Vec<String>,
    pub node: syn::ItemImpl,
    pub mod_path: String,
    pub parent: ModuleId,
    /// The signature facts of the impl's `fn` members, in order.
    pub method_infos: Vec<MethodInfo>,
    /// For each attribute of the impl block, its path when that path is a
    /// single identifier.
    pub attr_names: Vec<Option<String>>,
}

/// An impl block as found in a file, before its paths are resolved.
pub(crate) struct RawImpl {
    pub(crate) target_path: Vec<String>,
    pub(crate) trait_path: Option<Vec<String>>,
    pub(crate) methods: Vec<String>,
    pub(crate) node: syn::ItemImpl,
    pub(crate) found_in_module: ModuleId,
    pub(crate) method_infos: Vec<MethodInfo>,
    pub(crate) attr_names: Vec<Option<String>>,
}

/// A module of the crate: the items it defines, the `mod name;`
/// declarations that resolved to a file, and its module path relative to
/// the crate root (such as `motor::state`; empty at the root).
pub struct Module {
    pub id: ModuleId,
    pub items: Vec<ItemId>,
    pub children: Vec<(String, ModuleId)>,
    pub mod_path: String,
}


/// Some module of the list has this id.
pub open spec fn has_module(mods: Seq<Module>, hash: u64) -> bool {
    exists|x: int| 0 <= x < mods.len() && (#[trigger] mods[x]).id.id_hash() == hash
}

/// No two modules share an id.
pub open spec fn module_ids_unique(mods: Seq<Module>) -> bool {
    forall|x: int, y: int| 0 <= x < y < mods.len() ==> (#[trigger] mods[x]).id.id_hash() != (#[trigger] mods[y]).id.id_hash()
}

/// Item `t` sits in a module of the list whose path it records, and its id
/// is derived from that path and its name.
pub open spec fn item_placed(mods: Seq<Module>, t: ModuleItem) -> bool {
    &&& t.id == spec_item_id(t.mod_path@, t.name@)
    &&& exists|x: int| 0 <= x < mods.len() && (#[trigger] mods[x]).id == t.parent && mods[x].mod_path@ == t.mod_path@
}

/// The item table agrees with the modules: ids are distinct, every item sits
/// in a module, and every item id a module lists is in the table.
pub open spec fn items_consistent(mods: Seq<Module>, items: Seq<ModuleItem>) -> bool {
    &&& ids_distinct(items)
    &&& forall|t: int| 0 <= t < items.len() ==> item_placed(mods, #[trigger] items[t])
    &&& forall|x: int, k: int| 0 <= x < mods.len() && 0 <= k < mods[x].items@.len()
        ==> table_has(items, (#[trigger] mods[x].items@[k]))
}

/// Every item of the table is listed among the items of the module it sits
/// in, whatever its kind.
pub open spec fn items_listed(mods: Seq<Module>, items: Seq<ModuleItem>) -> bool {
    forall|t: int| 0 <= t < items.len() ==> exists|x: int| 0 <= x < mods.len()
        && (#[trigger] mods[x]).id == (#[trigger] items[t]).parent && mods[x].items@.contains(items[t].id)
}

/// Every raw impl was found in a module of the list.
pub(crate) open spec fn raws_placed(mods: Seq<Module>, raws: Seq<RawImpl>) -> bool {
    forall|r: int| 0 <= r < raws.len() ==> has_module(mods, (#[trigger] raws[r]).found_in_module.id_hash())
}


/// Module `x` hangs below module `y` of the list through `y`'s declaration
/// `k`, and its path extends `y`'s path by the declared name.
pub open spec fn child_of(mods: Seq<Module>, x: int, y: int, k: int) -> bool {
    &&& 0 <= y < mods.len()
    &&& 0 <= k < mods[y].children@.len()
    &&& mods[y].children@[k].1 == mods[x].id
    &&& mods[x].mod_path@ == join_path(mods[y].mod_path@, mods[y].children@[k].0@)
}

/// Every module but the root hangs below a module that is strictly closer
/// to the root by `depth`: following parents from any module reaches the root.
pub open spec fn hangs_below(mods: Seq<Module>, root: u64, depth: Seq<nat>) -> bool {
    &&& depth.len() == mods.len()
    &&& forall|x: int| 0 <= x < mods.len() && (#[trigger] mods[x]).id.id_hash() != root ==>
        exists|y: int, k: int| #[trigger] child_of(mods, x, y, k) && depth[y] < depth[x]
}

/// A module of the list declares the module `x` through its declaration `k`.
pub open spec fn declares(mods: Seq<Module>, y: int, k: int, x: int) -> bool {
    &&& 0 <= y < mods.len()
    &&& 0 <= k < mods[y].children@.len()
    &&& mods[y].children@[k].1 == mods[x].id
}

/// The parents are the ones a breadth-first walk from the root gives:
/// `depth` is 0 at the root, every other module hangs below a module one
/// less deep, and no module that declares it is less deep than that parent.
pub open spec fn parents_first_reached(mods: Seq<Module>, root: u64, depth: Seq<nat>) -> bool {
    &&& depth.len() == mods.len()
    &&& forall|x: int| 0 <= x < mods.len() && (#[trigger] mods[x]).id.id_hash() == root ==> depth[x] == 0
    &&& forall|x: int| 0 <= x < mods.len() && (#[trigger] mods[x]).id.id_hash() != root ==>
        exists|y: int, k: int| #[trigger] child_of(mods, x, y, k) && depth[x] == depth[y] + 1
            && forall|y2: int, k2: int| #[trigger] declares(mods, y2, k2, x) ==> depth[y] <= depth[y2]
}

/// The modules form the module tree of one crate target rooted at the module
/// with id `root`: ids are distinct, the root is present with the empty path,
/// every declared child is present, and every other module hangs below a
/// parent with its path extended by its declared name, that parent being the
/// one a breadth-first walk from the root reaches first by depth.
pub open spec fn module_tree(mods: Seq<Module>, root: u64) -> bool {
    &&& module_ids_unique(mods)
    &&& has_module(mods, root)
    &&& forall|x: int| 0 <= x < mods.len() && (#[trigger] mods[x]).id.id_hash() == root ==> mods[x].mod_path@.len() == 0
    &&& forall|x: int, k: int| 0 <= x < mods.len() && 0 <= k < mods[x].children@.len()
        ==> has_module(mods, (#[trigger] mods[x].children@[k]).1.id_hash())
    &&& exists|depth: Seq<nat>| hangs_below(mods, root, depth) && parents_first_reached(mods, root, depth)
}


/// The module of the list with this id.
pub open spec fn lookup_module(mods: Seq<Module>, hash: u64) -> Option<Module> {
    if has_module(mods, hash) {
        Some(mods[choose|x: int| 0 <= x < mods.len() && (#[trigger] mods[x]).id.id_hash() == hash])
    } else {
        None
    }
}

/// The item of the table with this id.
pub open spec fn lookup_item(items: Seq<ModuleItem>, id: ItemId) -> Option<ModuleItem> {
    if table_has(items, id) {
        Some(items[choose|i: int| 0 <= i < items.len() && (#[trigger] items[i]).id == id])
    } else {
        None
    }
}

/// The first of `ids` whose item in the table is named `name`.
pub open spec fn first_named(ids: Seq<ItemId>, items: Seq<ModuleItem>, name: Seq<char>) -> Option<ModuleItem>
    decreases ids.len(),
{
    if ids.len() == 0 {
        None
    } else {
        match lookup_item(items, ids[0]) {
            Some(t) => if t.name@ == name {
                Some(t)
            } else {
                first_named(ids.drop_first(), items, name)
            },
            None => first_named(ids.drop_first(), items, name),
        }
    }
}

/// The first child declared under `name`.
pub open spec fn first_child(children: Seq<(String, ModuleId)>, name: Seq<char>) -> Option<ModuleId>
    decreases children.len(),
{
    if children.len() == 0 {
        None
    } else if children[0].0@ == name {
        Some(children[0].1)
    } else {
        first_child(children.drop_first(), name)
    }
}

/// Some string of the list is `name`.
pub open spec fn names_contain(names: Seq<String>, name: Seq<char>) -> bool {
    exists|j: int| 0 <= j < names.len() && (#[trigger] names[j])@ == name
}

/// The inherent impls recorded for an item.
pub open spec fn inherent_of(inherent: Map<u64, Vec<ImplId>>, id: ItemId) -> Seq<ImplId> {
    if inherent.contains_key(id.raw()) {
        inherent[id.raw()]@
    } else {
        Seq::empty()
    }
}

/// Some impl among `ids` that exists has a method named `name`.
pub open spec fn has_method_impl(ids: Seq<ImplId>, impls: Seq<Impl>, name: Seq<char>) -> bool {
    exists|k: int| 0 <= k < ids.len() && (#[trigger] ids[k]).index() < impls.len()
        && names_contain(impls[ids[k].index() as int].methods@, name)
}

/// What resolving `path` from segment `i` on, in the module with id
/// `current`, gives. The last segment is looked up among the module's items
/// by name. A segment before it names a child module, which the walk enters;
/// failing that, an item of the module, which resolves the path only when
/// exactly one segment follows and names a variant of that item (an enum) or
/// a method of one of its inherent impls.
pub open spec fn resolve_from(
    mods: Seq<Module>,
    items: Seq<ModuleItem>,
    inherent: Map<u64, Vec<ImplId>>,
    impls: Seq<Impl>,
    current: u64,
    path: Seq<Seq<char>>,
    i: int,
) -> Option<ItemId>
    decreases path.len() - i,
{
    if i < 0 || i >= path.len() {
        None
    } else {
        match lookup_module(mods, current) {
            None => None,
            Some(m) => if i == path.len() - 1 {
                match first_named(m.items@, items, path[i]) {
                    Some(t) => Some(t.id),
                    None => None,
                }
            } else {
                match first_child(m.children@, path[i]) {
                    Some(c) => resolve_from(mods, items, inherent, impls, c.id_hash(), path, i + 1),
                    None => match first_named(m.items@, items, path[i]) {
                        Some(t) => if path.len() - i - 1 == 1 && ((t.kind is Enum && names_contain(t.variants@, path[i + 1]))
                            || has_method_impl(inherent_of(inherent, t.id), impls, path[i + 1])) {
                            Some(t.id)
                        } else {
                            None
                        },
                        None => None,
                    },
                }
            },
        }
    }
}

/// The id of the first module of the list whose path is empty: the crate
/// root.
pub open spec fn first_root(mods: Seq<Module>) -> Option<u64>
    decreases mods.len(),
{
    if mods.len() == 0 {
        None
    } else if mods[0].mod_path@.len() == 0 {
        Some(mods[0].id.id_hash())
    } else {
        first_root(mods.drop_first())
    }
}

/// The segment `crate`.
pub open spec fn crate_segment() -> Seq<char> {
    seq!['c', 'r', 'a', 't', 'e']
}

/// What resolving `path` from the module with id `start` gives; an empty
/// path resolves to nothing. A path of more than one segment that starts
/// with `crate` is resolved from the crate root, from its second segment on;
/// every other segment, `self` and `super` among them, is a plain name.
pub open spec fn spec_resolve_path(
    mods: Seq<Module>,
    items: Seq<ModuleItem>,
    inherent: Map<u64, Vec<ImplId>>,
    impls: Seq<Impl>,
    start: u64,
    path: Seq<Seq<char>>,
) -> Option<ItemId> {
    if path.len() > 1 && path[0] == crate_segment() {
        match first_root(mods) {
            Some(root) => resolve_from(mods, items, inherent, impls, root, path, 1),
            None => None,
        }
    } else {
        resolve_from(mods, items, inherent, impls, start, path, 0)
    }
}

/// Resolving from segment `i + 1` of a path is resolving from segment `i`
/// of the path without its first segment.
proof fn lemma_resolve_from_shift(
    mods: Seq<Module>,
    items: Seq<ModuleItem>,
    inherent: Map<u64, Vec<ImplId>>,
    impls: Seq<Impl>,
    current: u64,
    path: Seq<Seq<char>>,
    i: int,
)
    requires
        path.len() > 0,
        0 <= i,
    ensures
        resolve_from(mods, items, inherent, impls, current, path, i + 1)
            == resolve_from(mods, items, inherent, impls, current, path.drop_first(), i),
    decreases path.len() - i,
{
    let rest = path.drop_first();
    if i + 1 < path.len() {
        assert(rest[i] == path[i + 1]);
        if i + 1 < path.len() - 1 {
            assert(rest[i + 1] == path[i + 2]);
        }
        match lookup_module(mods, current) {
            None => {},
            Some(m) => {
                if i + 1 < path.len() - 1 {
                    match first_child(m.children@, path[i + 1]) {
                        Some(c) => lemma_resolve_from_shift(mods, items, inherent, impls, c.id_hash(), path, i + 1),
                        None => {},
                    }
                }
            },
        }
    }
}

/// Descending into a child module is exact: a path whose first segment names
/// a child of the start module (before any item of the same name) resolves
/// as the rest of the path does from that child. Left out are the paths
/// where `crate` is read as the crate root instead: a first segment `crate`,
/// or a rest of more than one segment that starts with `crate`.
pub proof fn lemma_resolve_descends(
    mods: Seq<Module>,
    items: Seq<ModuleItem>,
    inherent: Map<u64, Vec<ImplId>>,
    impls: Seq<Impl>,
    start: u64,
    path: Seq<Seq<char>>,
)
    requires
        path.len() >= 2,
        path[0] != crate_segment(),
        !(path.len() > 2 && path[1] == crate_segment()),
        lookup_module(mods, start) is Some,
        first_child(lookup_module(mods, start)->0.children@, path[0]) is Some,
    ensures
        spec_resolve_path(mods, items, inherent, impls, start, path) == spec_resolve_path(
            mods, items, inherent, impls,
            first_child(lookup_module(mods, start)->0.children@, path[0])->0.id_hash(),
            path.drop_first(),
        ),
{
    let c = first_child(lookup_module(mods, start)->0.children@, path[0])->0;
    lemma_resolve_from_shift(mods, items, inherent, impls, c.id_hash(), path, 0);
    assert(path.drop_first()[0] == path[1]);
}

/// The lookups that path resolution needs: over a fully built `Db`, or over
/// the modules and items alone while impls are still being resolved (then
/// no impl is known).
pub(crate) struct Lookup<'a> {
    pub(crate) modules: &'a Vec<Module>,
    pub(crate) items: &'a Vec<ModuleItem>,
    pub(crate) inherent_impls: &'a HashMap<u64, Vec<ImplId>>,
    pub(crate) impls: &'a Vec<Impl>,
}

impl<'a> Lookup<'a> {
    pub(crate) open spec fn wf(&self) -> bool {
        &&& module_ids_unique(self.modules@)
        &&& ids_distinct(self.items@)
    }

    fn module(&self, id: &ModuleId) -> (r: Option<&'a Module>)
        requires
            self.wf(),
        ensures
            r == (match lookup_module(self.modules@, id.id_hash()) {
                Some(m) => Some(&m),
                None => None::<&Module>,
            }),
    {
        let mut x: usize = 0;
        while x < self.modules.len()
            invariant
                self.wf(),
                x <= self.modules@.len(),
                forall|y: int| 0 <= y < x ==> (#[trigger] self.modules@[y]).id.id_hash() != id.id_hash(),
            decreases self.modules.len() - x,
        {
            if self.modules[x].id.hash_value() == id.hash_value() {
                proof {
                    let c = choose|y: int| 0 <= y < self.modules@.len() && (#[trigger] self.modules@[y]).id.id_hash() == id.id_hash();
                    if c != x {
                        if c < x {
                        } else {
                            assert(self.modules@[x as int].id.id_hash() != self.modules@[c].id.id_hash());
                        }
                    }
                }
                return Some(&self.modules[x]);
            }
            x = x + 1;
        }
        None
    }

    fn item(&self, id: ItemId) -> (r: Option<&'a ModuleItem>)
        requires
            self.wf(),
        ensures
            r == (match lookup_item(self.items@, id) {
                Some(t) => Some(&t),
                None => None::<&ModuleItem>,
            }),
    {
        let mut x: usize = 0;
        while x < self.items.len()
            invariant
                self.wf(),
                x <= self.items@.len(),
                forall|y: int| 0 <= y < x ==> (#[trigger] self.items@[y]).id != id,
            decreases self.items.len() - x,
        {
            if self.items[x].id == id {
                proof {
                    let c = choose|y: int| 0 <= y < self.items@.len() && (#[trigger] self.items@[y]).id == id;
                    if c != x {
                        if c < x {
                        } else {
                            assert(self.items@[x as int].id != self.items@[c].id);
                        }
                    }
                }
                return Some(&self.items[x]);
            }
            x = x + 1;
        }
        None
    }

    fn inherent_impls(&self, id: ItemId) -> (r: &'a [ImplId])
        ensures
            r@ == inherent_of(self.inherent_impls@, id),
    {
        broadcast use vstd::std_specs::hash::group_hash_axioms;
        match self.inherent_impls.get(&id.value()) {
            Some(v) => v.as_slice(),
            None => {
                let empty: &[ImplId] = &[];
                assert(empty@ =~= Seq::<ImplId>::empty());
                empty
            },
        }
    }

    fn impl_(&self, id: ImplId) -> (r: Option<&'a Impl>)
        ensures
            r == (if id.index() < self.impls@.len() {
                Some(&self.impls@[id.index() as int])
            } else {
                None::<&Impl>
            }),
    {
        let i = id.index_value();
        if i < self.impls.len() {
            Some(&self.impls[i])
        } else {
            None
        }
    }
}


/// Whether some string of the list is `name`.
fn contains_name(names: &Vec<String>, name: &String) -> (b: bool)
    ensures
        b == names_contain(names@, name@),
{
    let mut j: usize = 0;
    while j < names.len()
        invariant
            j <= names@.len(),
            forall|k: int| 0 <= k < j ==> (#[trigger] names@[k])@ != name@,
        decreases names.len() - j,
    {
        if names[j] == *name {
            return true;
        }
        j = j + 1;
    }
    false
}

/// The first child declared under `name`.
fn find_child<'b>(children: &'b Vec<(String, ModuleId)>, name: &String) -> (r: Option<&'b ModuleId>)
    ensures
        r == (match first_child(children@, name@) {
            Some(c) => Some(&c),
            None => None::<&ModuleId>,
        }),
{
    let mut k: usize = 0;
    assert(children@.subrange(0, children@.len() as int) =~= children@);
    while k < children.len()
        invariant
            k <= children@.len(),
            first_child(children@, name@) == first_child(children@.subrange(k as int, children@.len() as int), name@),
        decreases children.len() - k,
    {
        let ghost rest = children@.subrange(k as int, children@.len() as int);
        assert(rest.drop_first() =~= children@.subrange(k + 1, children@.len() as int));
        if children[k].0 == *name {
            return Some(&children[k].1);
        }
        k = k + 1;
    }
    assert(children@.subrange(k as int, children@.len() as int).len() == 0);
    None
}

impl<'a> Lookup<'a> {
    /// The id of the crate root: the first module whose path is empty.
    fn find_root(&self) -> (r: Option<&'a ModuleId>)
        ensures
            match r {
                Some(m) => first_root(self.modules@) == Some(m.id_hash()),
                None => first_root(self.modules@) is None,
            },
    {
        let mut x: usize = 0;
        assert(self.modules@.skip(0) =~= self.modules@);
        while x < self.modules.len()
            invariant
                x <= self.modules@.len(),
                first_root(self.modules@) == first_root(self.modules@.skip(x as int)),
            decreases self.modules.len() - x,
        {
            assert(self.modules@.skip(x as int).drop_first() =~= self.modules@.skip(x + 1));
            assert(self.modules@.skip(x as int)[0] == self.modules@[x as int]);
            if self.modules[x].mod_path.as_str().is_empty() {
                return Some(&self.modules[x].id);
            }
            x = x + 1;
        }
        None
    }

    /// The first of `ids` whose item is named `name`.
    fn find_named(&self, ids: &Vec<ItemId>, name: &String) -> (r: Option<&'a ModuleItem>)
        requires
            self.wf(),
        ensures
            r == (match first_named(ids@, self.items@, name@) {
                Some(t) => Some(&t),
                None => None::<&ModuleItem>,
            }),
    {
        let mut k: usize = 0;
        assert(ids@.subrange(0, ids@.len() as int) =~= ids@);
        while k < ids.len()
            invariant
                self.wf(),
                k <= ids@.len(),
                first_named(ids@, self.items@, name@) == first_named(ids@.subrange(k as int, ids@.len() as int), self.items@, name@),
            decreases ids.len() - k,
        {
            let ghost rest = ids@.subrange(k as int, ids@.len() as int);
            assert(rest.drop_first() =~= ids@.subrange(k + 1, ids@.len() as int));
            match self.item(ids[k]) {
                Some(t) => {
                    if t.name == *name {
                        return Some(t);
                    }
                },
                None => {},
            }
            k = k + 1;
        }
        None
    }

    /// Whether one of the inherent impls of `id` has a method `name`.
    fn inherent_method(&self, id: ItemId, name: &String) -> (b: bool)
        ensures
            b == has_method_impl(inherent_of(self.inherent_impls@, id), self.impls@, name@),
    {
        let ids = self.inherent_impls(id);
        let mut k: usize = 0;
        while k < ids.len()
            invariant
                ids@ == inherent_of(self.inherent_impls@, id),
                k <= ids@.len(),
                forall|j: int| 0 <= j < k ==> !((#[trigger] ids@[j]).index() < self.impls@.len()
                    && names_contain(self.impls@[ids@[j].index() as int].methods@, name@)),
            decreases ids.len() - k,
        {
            match self.impl_(ids[k]) {
                Some(imp) => {
                    if contains_name(&imp.methods, name) {
                        return true;
                    }
                },
                None => {},
            }
            k = k + 1;
        }
        false
    }
}

/// The views of a path's segments.
pub open spec fn segments(path: Seq<String>) -> Seq<Seq<char>> {
    path.map_values(|s: String| s@)
}

/// Resolves `path` starting in `start_module`.
pub(crate) fn resolve_path(db: &Lookup, start_module: &ModuleId, path: &Vec<String>) -> (r: Option<ItemId>)
    requires
        db.wf(),
    ensures
        r == spec_resolve_path(db.modules@, db.items@, db.inherent_impls@, db.impls@, start_module.id_hash(), segments(path@)),
{
    let ghost p = segments(path@);
    if path.len() == 0 {
        return None;
    }
    let mut current: ModuleId = start_module.clone_id();
    let mut i: usize = 0;
    if path.len() > 1 {
        assert(p[0] == path@[0]@);
        let first = path[0].as_str();
        proof {
            reveal_strlit("crate");
            assert("crate"@ =~= crate_segment());
        }
        if same_text(first, "crate") {
            assert(p[0] == crate_segment());
            match db.find_root() {
                Some(root) => {
                    current = root.clone_id();
                    i = 1;
                },
                None => return None,
            }
        } else {
            assert(p[0] != crate_segment());
        }
    }
    while i < path.len()
        invariant
            db.wf(),
            p == segments(path@),
            p.len() == path@.len(),
            spec_resolve_path(db.modules@, db.items@, db.inherent_impls@, db.impls@, start_module.id_hash(), p)
                == resolve_from(db.modules@, db.items@, db.inherent_impls@, db.impls@, current.id_hash(), p, i as int),
        decreases path.len() - i,
    {
        let segment = &path[i];
        assert(p[i as int] == segment@);
        let module = match db.module(&current) {
            Some(m) => m,
            None => return None,
        };
        if i == path.len() - 1 {
            return match db.find_named(&module.items, segment) {
                Some(t) => Some(t.id),
                None => None,
            };
        }
        match find_child(&module.children, segment) {
            Some(c) => {
                current = c.clone_id();
                i = i + 1;
                continue;
            },
            None => {},
        }
        match db.find_named(&module.items, segment) {
            Some(item) => {
                if path.len() - i - 1 == 1 {
                    let next = &path[i + 1];
                    assert(p[i + 1] == next@);
                    let is_enum = match &item.kind {
                        ItemKind::Enum(_) => true,
                        _ => false,
                    };
                    if is_enum && contains_name(&item.variants, next) {
                        return Some(item.id);
                    }
                    if db.inherent_method(item.id, next) {
                        return Some(item.id);
                    }
                }
            },
            None => {},
        }
        return None;
    }
    None
}


/// The positions of the impls targeting the item with raw id `key`, trait
/// impls or inherent impls as `with_trait` says, in order.
pub open spec fn impl_indices(impls: Seq<Impl>, key: u64, with_trait: bool) -> Seq<ImplId>
    decreases impls.len(),
{
    if impls.len() == 0 {
        Seq::empty()
    } else {
        let prev = impl_indices(impls.drop_last(), key, with_trait);
        let last = impls.last();
        if last.target_type.raw() == key && (last.trait_ is Some) == with_trait {
            prev.push(ImplId::at((impls.len() - 1) as usize))
        } else {
            prev
        }
    }
}

/// The index maps each target to exactly its impls of the given kind.
pub open spec fn index_matches(map: Map<u64, Vec<ImplId>>, impls: Seq<Impl>, with_trait: bool) -> bool {
    &&& forall|key: u64| #[trigger] map.contains_key(key) ==> map[key]@ == impl_indices(impls, key, with_trait)
    &&& forall|key: u64| impl_indices(impls, key, with_trait).len() > 0 ==> #[trigger] map.contains_key(key)
}

/// Appends `id` to the list of `key` in the index.
pub(crate) fn index_push<V>(map: &mut HashMap<u64, Vec<V>>, key: u64, id: V)
    ensures
        forall|k: u64| k != key ==> {
            &&& final(map)@.contains_key(k) == old(map)@.contains_key(k)
            &&& (#[trigger] old(map)@.contains_key(k) ==> final(map)@[k] == old(map)@[k])
        },
        final(map)@.contains_key(key),
        final(map)@[key]@ == (if old(map)@.contains_key(key) { old(map)@[key]@ } else { Seq::empty() }).push(id),
{
    broadcast use vstd::std_specs::hash::group_hash_axioms;
    let mut v = match map.remove(&key) {
        Some(v) => v,
        None => Vec::new(),
    };
    v.push(id);
    map.insert(key, v);
}


/// What an impl block's target path resolves to while impls are resolved:
/// only modules and items are known then.
pub(crate) open spec fn raw_target(mods: Seq<Module>, items: Seq<ModuleItem>, r: RawImpl) -> Option<ItemId> {
    spec_resolve_path(mods, items, Map::empty(), Seq::empty(), r.found_in_module.id_hash(), segments(r.target_path@))
}

/// What an impl block's trait path resolves to, `None` for an inherent impl.
pub(crate) open spec fn raw_trait(mods: Seq<Module>, items: Seq<ModuleItem>, r: RawImpl) -> Option<ItemId> {
    match r.trait_path {
        Some(tp) => spec_resolve_path(mods, items, Map::empty(), Seq::empty(), r.found_in_module.id_hash(), segments(tp@)),
        None => None,
    }
}

/// `imp` is the impl block `r` with its paths resolved.
pub(crate) open spec fn impl_from_raw(imp: Impl, r: RawImpl, mods: Seq<Module>, items: Seq<ModuleItem>) -> bool {
    &&& raw_target(mods, items, r) == Some(imp.target_type)
    &&& imp.trait_ == raw_trait(mods, items, r)
    &&& imp.methods == r.methods
    &&& imp.node == r.node
    &&& imp.parent == r.found_in_module
    &&& imp.method_infos == r.method_infos
    &&& imp.attr_names == r.attr_names
    &&& imp.mod_path@ == (match lookup_module(mods, r.found_in_module.id_hash()) {
        Some(m) => m.mod_path@,
        None => Seq::empty(),
    })
}

/// The impl blocks whose target path resolves, in order.
pub(crate) open spec fn resolved_raws(mods: Seq<Module>, items: Seq<ModuleItem>, raws: Seq<RawImpl>) -> Seq<RawImpl>
    decreases raws.len(),
{
    if raws.len() == 0 {
        Seq::empty()
    } else {
        let prev = resolved_raws(mods, items, raws.drop_last());
        if raw_target(mods, items, raws.last()) is Some {
            prev.push(raws.last())
        } else {
            prev
        }
    }
}

/// The impl table is the impl blocks whose target resolves, with their
/// paths resolved, in order.
pub(crate) open spec fn impls_resolved(impls: Seq<Impl>, raws: Seq<RawImpl>, mods: Seq<Module>, items: Seq<ModuleItem>) -> bool {
    let kept = resolved_raws(mods, items, raws);
    &&& impls.len() == kept.len()
    &&& forall|k: int| 0 <= k < impls.len() ==> impl_from_raw(#[trigger] impls[k], kept[k], mods, items)
}

/// Resolves each impl block's target and trait paths from the module it was
/// found in. An impl whose target does not resolve is dropped; the others are
/// indexed by target, under trait impls when the trait resolved and under
/// inherent impls otherwise.
pub(crate) fn resolve_impls(modules: &Vec<Module>, items: &Vec<ModuleItem>, raw_impls: Vec<RawImpl>)
    -> (r: (HashMap<u64, Vec<ImplId>>, HashMap<u64, Vec<ImplId>>, Vec<Impl>))
    requires
        module_ids_unique(modules@),
        ids_distinct(items@),
    ensures
        impls_resolved(r.2@, raw_impls@, modules@, items@),
        index_matches(r.0@, r.2@, false),
        index_matches(r.1@, r.2@, true),
{
    broadcast use vstd::std_specs::hash::group_hash_axioms;
    let mut inherent_impls: HashMap<u64, Vec<ImplId>> = HashMap::new();
    let mut trait_impls: HashMap<u64, Vec<ImplId>> = HashMap::new();
    let mut impls: Vec<Impl> = Vec::new();
    let no_index: HashMap<u64, Vec<ImplId>> = HashMap::new();
    let no_impls: Vec<Impl> = Vec::new();
    let bootstrap = Lookup { modules, items, inherent_impls: &no_index, impls: &no_impls };
    assert(no_impls@ =~= Seq::<Impl>::empty());
    assert(no_index@ =~= Map::<u64, Vec<ImplId>>::empty());
    let ghost raws = raw_impls@;
    for raw in it: raw_impls
        invariant
            raws == it.seq(),
            bootstrap.modules == modules,
            bootstrap.items == items,
            bootstrap.inherent_impls@ == Map::<u64, Vec<ImplId>>::empty(),
            bootstrap.impls@ == Seq::<Impl>::empty(),
            bootstrap.wf(),
            impls_resolved(impls@, raws.subrange(0, it.index() as int), modules@, items@),
            index_matches(inherent_impls@, impls@, false),
            index_matches(trait_impls@, impls@, true),
    {
        let ghost k0 = it.index();
        assert(raws[k0] == raw);
        assert(raws.subrange(0, k0 + 1).drop_last() =~= raws.subrange(0, k0 as int));
        assert(raws.subrange(0, k0 + 1).last() == raw);
        match resolve_path(&bootstrap, &raw.found_in_module, &raw.target_path) {
            None => {
                assert(resolved_raws(modules@, items@, raws.subrange(0, k0 + 1)) == resolved_raws(modules@, items@, raws.subrange(0, k0 as int)));
            },
            Some(target_id) => {
            let trait_id = match &raw.trait_path {
                Some(tpath) => resolve_path(&bootstrap, &raw.found_in_module, tpath),
                None => None,
            };
            let mod_path = match bootstrap.module(&raw.found_in_module) {
                Some(m) => m.mod_path.clone(),
                None => String::new(),
            };
            let impl_id = ImplId::new(impls.len());
            let ghost old_impls = impls@;
            let ghost old_raw = raw;
            let RawImpl { target_path: _, trait_path: _, methods, node, found_in_module, method_infos, attr_names } = raw;
            let imp = Impl {
                target_type: target_id,
                trait_: trait_id,
                methods,
                node,
                mod_path,
                parent: found_in_module,
                method_infos,
                attr_names,
            };
            let ghost new_imp = imp;
            impls.push(imp);
            let is_trait = match trait_id {
                Some(_) => true,
                None => false,
            };
            let ghost old_inh = inherent_impls@;
            let ghost old_tr = trait_impls@;
            if is_trait {
                index_push(&mut trait_impls, target_id.value(), impl_id);
            } else {
                index_push(&mut inherent_impls, target_id.value(), impl_id);
            }
            proof {
                assert(impls@.drop_last() =~= old_impls);
                assert(impls@.last() == new_imp);
                assert(impl_from_raw(new_imp, old_raw, modules@, items@));
                let kept = resolved_raws(modules@, items@, raws.subrange(0, k0 + 1));
                assert(kept == resolved_raws(modules@, items@, raws.subrange(0, k0 as int)).push(old_raw));
                assert forall|k: int| 0 <= k < impls@.len() implies impl_from_raw(#[trigger] impls@[k], kept[k], modules@, items@) by {
                    if k < old_impls.len() {
                        assert(impls@[k] == old_impls[k]);
                    }
                }
                assert forall|key: u64| #[trigger] inherent_impls@.contains_key(key) implies inherent_impls@[key]@ == impl_indices(impls@, key, false) by {
                    if key != target_id.raw() || is_trait {
                        assert(old_inh.contains_key(key));
                    }
                }
                assert forall|key: u64| impl_indices(impls@, key, false).len() > 0 implies #[trigger] inherent_impls@.contains_key(key) by {
                    if key != target_id.raw() || is_trait {
                        assert(impl_indices(impls@, key, false) == impl_indices(old_impls, key, false));
                            assert(old_inh.contains_key(key));
                    }
                }
                assert forall|key: u64| #[trigger] trait_impls@.contains_key(key) implies trait_impls@[key]@ == impl_indices(impls@, key, true) by {
                    if key != target_id.raw() || !is_trait {
                        assert(old_tr.contains_key(key));
                    }
                }
                assert forall|key: u64| impl_indices(impls@, key, true).len() > 0 implies #[trigger] trait_impls@.contains_key(key) by {
                    if key != target_id.raw() || !is_trait {
                        assert(impl_indices(impls@, key, true) == impl_indices(old_impls, key, true));
                            assert(old_tr.contains_key(key));
                    }
                }
            }
            },
        }
    }
    assert(raws.subrange(0, raws.len() as int) =~= raws);
    (inherent_impls, trait_impls, impls)
}


/// A resolved path names an item of the table.
proof fn lemma_resolve_in_table(
    mods: Seq<Module>,
    items: Seq<ModuleItem>,
    inherent: Map<u64, Vec<ImplId>>,
    impls: Seq<Impl>,
    current: u64,
    path: Seq<Seq<char>>,
    i: int,
)
    ensures
        resolve_from(mods, items, inherent, impls, current, path, i) matches Some(id) ==> table_has(items, id),
    decreases path.len() - i,
{
    if 0 <= i < path.len() {
        match lookup_module(mods, current) {
            None => {},
            Some(m) => {
                lemma_first_named_in_table(m.items@, items, path[i]);
                if i < path.len() - 1 {
                    match first_child(m.children@, path[i]) {
                        Some(c) => lemma_resolve_in_table(mods, items, inherent, impls, c.id_hash(), path, i + 1),
                        None => {},
                    }
                }
            },
        }
    }
}

proof fn lemma_spec_resolve_in_table(
    mods: Seq<Module>,
    items: Seq<ModuleItem>,
    inherent: Map<u64, Vec<ImplId>>,
    impls: Seq<Impl>,
    start: u64,
    path: Seq<Seq<char>>,
)
    ensures
        spec_resolve_path(mods, items, inherent, impls, start, path) matches Some(id) ==> table_has(items, id),
{
    match first_root(mods) {
        Some(root) => lemma_resolve_in_table(mods, items, inherent, impls, root, path, 1),
        None => {},
    }
    lemma_resolve_in_table(mods, items, inherent, impls, start, path, 0);
}

proof fn lemma_first_named_in_table(ids: Seq<ItemId>, items: Seq<ModuleItem>, name: Seq<char>)
    ensures
        first_named(ids, items, name) matches Some(t) ==> table_has(items, t.id),
    decreases ids.len(),
{
    if ids.len() > 0 {
        lemma_first_named_in_table(ids.drop_first(), items, name);
        if table_has(items, ids[0]) {
            let i = choose|i: int| 0 <= i < items.len() && (#[trigger] items[i]).id == ids[0];
            assert(items[i].id == ids[0]);
        }
    }
}

/// The impl sits in a module of the list whose path it records, and its
/// target and trait are items of the table.
pub open spec fn impl_placed(mods: Seq<Module>, items: Seq<ModuleItem>, imp: Impl) -> bool {
    &&& exists|x: int| 0 <= x < mods.len() && (#[trigger] mods[x]).id.id_hash() == imp.parent.id_hash()
        && mods[x].mod_path@ == imp.mod_path@
    &&& table_has(items, imp.target_type)
    &&& (imp.trait_ matches Some(t) ==> table_has(items, t))
}

/// The path an impl block's self type reads as: its segments when it is a
/// path type, else no segment.
pub open spec fn target_segments_of(node: syn::ItemImpl) -> Seq<Seq<char>> {
    match impl_target_of(node) {
        Some(p) => p,
        None => Seq::empty(),
    }
}

/// An impl block of the table agrees with its syntax and its resolution:
/// its methods are the `fn` members of its node with their facts and names,
/// its attribute names are what its attributes' paths read as, its target is
/// what its self type's path resolves to from the module it is in, and its
/// trait is what its trait path resolves to (none for an inherent impl).
/// Paths resolve here as while impls are being resolved, with no impl known.
pub open spec fn impl_agrees(imp: Impl, mods: Seq<Module>, items: Seq<ModuleItem>) -> bool {
    &&& imp.method_infos@.map_values(|m: MethodInfo| method_facts(m)) == fn_member_facts(impl_members_of(imp.node))
    &&& imp.methods@ == imp.method_infos@.map_values(|m: MethodInfo| m.name)
    &&& opt_texts(imp.attr_names@) == attr_idents(impl_attrs_of(imp.node))
    &&& spec_resolve_path(mods, items, Map::empty(), Seq::empty(), imp.parent.id_hash(), target_segments_of(imp.node))
        == Some(imp.target_type)
    &&& imp.trait_ == (match impl_trait_path_of(imp.node) {
        Some(p) => spec_resolve_path(mods, items, Map::empty(), Seq::empty(), imp.parent.id_hash(), p),
        None => None,
    })
}

/// Some impl block of the table is `node`.
pub open spec fn impl_in_table(impls: Seq<Impl>, node: syn::ItemImpl) -> bool {
    exists|m: int| 0 <= m < impls.len() && (#[trigger] impls[m]).node == node
}

/// Every impl block among `items`, read in the module `m`, whose self
/// type's path resolves from `m` is in the impl table.
pub open spec fn source_impls_in(db: Db, m: Module, items: Seq<syn::Item>) -> bool {
    forall|j: int| 0 <= j < items.len() && (#[trigger] item_class(items[j])) is Impl
        && spec_resolve_path(db.modules_view(), db.items_view(), Map::empty(), Seq::empty(), m.id.id_hash(),
            target_segments_of(impl_node_of(items[j]))) is Some
        ==> impl_in_table(db.impls_view(), impl_node_of(items[j]))
}

/// Some source of module `m` parses, and every impl block of its text whose
/// self type's path resolves from `m` is in the impl table.
pub open spec fn module_impls_kept(db: Db, m: Module, sources: Seq<SourceText>) -> bool {
    exists|k: int| 0 <= k < sources.len() && (#[trigger] sources[k]).path@ == m.id.file() && parses_as_file(sources[k].content@)
        && source_impls_in(db, m, source_items(sources[k].content@))
}

/// Some source of module `m` parses, and every item of its text that the
/// table names (see `item_name_of`) has an item of the table under the id
/// of that name in `m`.
pub open spec fn module_items_kept(db: Db, m: Module, sources: Seq<SourceText>) -> bool {
    exists|k: int| 0 <= k < sources.len() && (#[trigger] sources[k]).path@ == m.id.file() && parses_as_file(sources[k].content@)
        && source_items_named(source_items(sources[k].content@), db.items_view(), m.mod_path@)
}

/// `db` is the resolved module tree rooted at `entry_file`, built from
/// `sources`: every module comes from a source that parses, each module's
/// children are exactly its source's `mod name;` declarations that resolve
/// (to `name.rs` beside it, else `name/mod.rs`), so the tree holds the files
/// those declarations reach from the entry and no others,
/// every item sits in the module its path names and agrees with its syntax,
/// both impl indexes agree with the impl blocks, and every impl block sits
/// in a module, agrees with its syntax, and has the target and trait its
/// paths resolve to; every impl block of a module's source whose self type
/// resolves is in the impl table, and every item of a module's source has an
/// item of the table under the id of its name in that module.
pub open spec fn built_from(db: Db, sources: Seq<SourceText>, entry_file: Seq<char>) -> bool {
    &&& module_tree(db.modules_view(), str_hash(entry_file))
    &&& forall|x: int| 0 <= x < db.modules_view().len() ==> #[trigger] children_declared(db.modules_view()[x], sources)
    &&& modules_from(db.modules_view(), sources)
    &&& items_consistent(db.modules_view(), db.items_view())
    &&& items_listed(db.modules_view(), db.items_view())
    &&& index_matches(db.inherent_view(), db.impls_view(), false)
    &&& index_matches(db.trait_view(), db.impls_view(), true)
    &&& forall|k: int| 0 <= k < db.impls_view().len()
        ==> impl_placed(db.modules_view(), db.items_view(), #[trigger] db.impls_view()[k])
    &&& forall|k: int| 0 <= k < db.impls_view().len()
        ==> impl_agrees(#[trigger] db.impls_view()[k], db.modules_view(), db.items_view())
    &&& forall|k: int| 0 <= k < db.items_view().len() ==> item_agrees(#[trigger] db.items_view()[k])
    &&& forall|x: int| 0 <= x < db.modules_view().len() ==> #[trigger] module_impls_kept(db, db.modules_view()[x], sources)
    &&& forall|x: int| 0 <= x < db.modules_view().len() ==> #[trigger] module_items_kept(db, db.modules_view()[x], sources)
}

/// The resolved state of one crate target: its module tree, its item table,
/// and its impl blocks indexed by target.
pub struct Db {
    modules: Vec<Module>,
    items: Vec<ModuleItem>,
    inherent_impls: HashMap<u64, Vec<ImplId>>,
    trait_impls: HashMap<u64, Vec<ImplId>>,
    impls: Vec<Impl>,
}

impl Db {
    /// The modules of the crate target.
    pub closed spec fn modules_view(&self) -> Seq<Module> {
        self.modules@
    }

    /// The item table.
    pub closed spec fn items_view(&self) -> Seq<ModuleItem> {
        self.items@
    }

    /// The resolved impl blocks.
    pub closed spec fn impls_view(&self) -> Seq<Impl> {
        self.impls@
    }

    /// The inherent impls of each target, by the target's raw id.
    pub closed spec fn inherent_view(&self) -> Map<u64, Vec<ImplId>> {
        self.inherent_impls@
    }

    /// The trait impls of each target, by the target's raw id.
    pub closed spec fn trait_view(&self) -> Map<u64, Vec<ImplId>> {
        self.trait_impls@
    }

    #[verifier::type_invariant]
    spec fn wf(self) -> bool {
        &&& module_ids_unique(self.modules@)
        &&& ids_distinct(self.items@)
    }

    fn lookup(&self) -> (l: Lookup<'_>)
        ensures
            l.wf(),
            l.modules@ == self.modules_view(),
            l.items@ == self.items_view(),
            l.inherent_impls@ == self.inherent_view(),
            l.impls@ == self.impls_view(),
    {
        proof {
            use_type_invariant(self);
        }
        Lookup {
            modules: &self.modules,
            items: &self.items,
            inherent_impls: &self.inherent_impls,
            impls: &self.impls,
        }
    }

    /// Resolves the module tree rooted at `entry_file` from the given
    /// sources (typically every `.rs` file under `src_dir`): parses them,
    /// links `mod` declarations to files, gives modules their crate-style
    /// paths, lowers items, and resolves each impl block's target and trait.
    /// Fails exactly when the entry file is not among the sources that parse.
    pub fn build(sources: Vec<SourceText>, src_dir: &str, entry_file: &str) -> (r: Result<Db, ResolveError>)
        ensures
            r is Err <==> !entry_parses(sources@, entry_file@),
            r matches Err(e) ==> e.entry_view() == entry_file@ && e.src_dir_view() == src_dir@,
            r matches Ok(db) ==> built_from(db, sources@, entry_file@),
    {
        let ghost srcs = sources@;
        let (modules, raw_impls, items) = match parse_files(sources, src_dir, entry_file) {
            Ok(t) => t,
            Err(e) => return Err(e),
        };
        let ghost raws = raw_impls@;
        let (inherent_impls, trait_impls, impls) = resolve_impls(&modules, &items, raw_impls);
        proof {
            let kept = resolved_raws(modules@, items@, raws);
            lemma_resolved_raws_from(modules@, items@, raws);
            assert forall|k: int| 0 <= k < impls@.len() implies impl_agrees(#[trigger] impls@[k], modules@, items@) by {
                let r = kept[k];
                assert(impl_from_raw(impls@[k], r, modules@, items@));
                assert(raws.contains(r));
                let w = choose|w: int| 0 <= w < raws.len() && raws[w] == r;
                assert(raw_agrees(raws[w], raws[w].found_in_module));
                assert(segments(r.target_path@) =~= target_segments_of(r.node));
                match r.trait_path {
                    Some(tp) => {
                        assert(segments(tp@) =~= impl_trait_path_of(r.node)->0);
                    },
                    None => {},
                }
            }
            assert forall|k: int| 0 <= k < impls@.len() implies impl_placed(modules@, items@, #[trigger] impls@[k]) by {
                let r = kept[k];
                assert(impl_from_raw(impls@[k], r, modules@, items@));
                assert(raws.contains(r));
                let w = choose|w: int| 0 <= w < raws.len() && raws[w] == r;
                assert(has_module(modules@, raws[w].found_in_module.id_hash()));
                let x = choose|x: int| 0 <= x < modules@.len() && (#[trigger] modules@[x]).id.id_hash() == r.found_in_module.id_hash();
                assert(modules@[x].id.id_hash() == r.found_in_module.id_hash());
                lemma_spec_resolve_in_table(modules@, items@, Map::empty(), Seq::empty(), r.found_in_module.id_hash(), segments(r.target_path@));
                match r.trait_path {
                    Some(tp) => lemma_spec_resolve_in_table(modules@, items@, Map::empty(), Seq::empty(), r.found_in_module.id_hash(), segments(tp@)),
                    None => {},
                }
            }
        }
        let db = Db { modules, items, inherent_impls, trait_impls, impls };
        proof {
            assert forall|x: int| 0 <= x < db.modules@.len() implies #[trigger] module_items_kept(db, db.modules@[x], srcs) by {
                assert(module_items_read(db.modules@[x], srcs, db.items@));
            }
            let kept = resolved_raws(db.modules@, db.items@, raws);
            assert forall|x: int| 0 <= x < db.modules@.len() implies #[trigger] module_impls_kept(db, db.modules@[x], srcs) by {
                let m = db.modules@[x];
                assert(module_impls_read(m, srcs, raws));
                let k = choose|k: int| 0 <= k < srcs.len() && (#[trigger] srcs[k]).path@ == m.id.file()
                    && parses_as_file(srcs[k].content@) && source_impls_raw(srcs[k].content@, raws, m.id);
                let its = source_items(srcs[k].content@);
                assert forall|j: int| 0 <= j < its.len() && (#[trigger] item_class(its[j])) is Impl
                    && spec_resolve_path(db.modules@, db.items@, Map::empty(), Seq::empty(), m.id.id_hash(),
                        target_segments_of(impl_node_of(its[j]))) is Some
                    implies impl_in_table(db.impls@, impl_node_of(its[j])) by {
                    assert(raw_with_node(raws, impl_node_of(its[j]), m.id));
                    let w = choose|w: int| 0 <= w < raws.len() && (#[trigger] raws[w]).node == impl_node_of(its[j])
                        && raws[w].found_in_module == m.id;
                    assert(raw_agrees(raws[w], raws[w].found_in_module));
                    assert(segments(raws[w].target_path@) =~= target_segments_of(raws[w].node));
                    lemma_resolved_raws_keeps(db.modules@, db.items@, raws, w);
                    let q = choose|q: int| 0 <= q < kept.len() && kept[q] == raws[w];
                    assert(impl_from_raw(db.impls@[q], kept[q], db.modules@, db.items@));
                }
            }
        }
        Ok(db)
    }

    /// Takes the item table and the impl blocks out of the database.
    pub(crate) fn into_parts(self) -> (r: (Vec<ModuleItem>, Vec<Impl>))
        ensures
            r.0@ == self.items_view(),
            r.1@ == self.impls_view(),
            ids_distinct(r.0@),
    {
        proof {
            use_type_invariant(&self);
        }
        let Db { modules, items, inherent_impls, trait_impls, impls } = self;
        (items, impls)
    }

    /// Every item of the table.
    pub fn items(&self) -> (r: &Vec<ModuleItem>)
        ensures
            r@ == self.items_view(),
    {
        &self.items
    }

    /// The source file of every module of the tree, in module order: the
    /// files the walk from the entry reached.
    pub fn module_files(&self) -> (r: Vec<String>)
        ensures
            r@.len() == self.modules_view().len(),
            forall|x: int| 0 <= x < r@.len() ==> (#[trigger] r@[x])@ == self.modules_view()[x].id.file(),
    {
        let mut r: Vec<String> = Vec::new();
        let mut x: usize = 0;
        while x < self.modules.len()
            invariant
                x <= self.modules@.len(),
                r@.len() == x,
                forall|y: int| 0 <= y < x ==> (#[trigger] r@[y])@ == self.modules@[y].id.file(),
            decreases self.modules.len() - x,
        {
            r.push(self.modules[x].id.file_path());
            x = x + 1;
        }
        r
    }

    /// Every resolved impl block, in table order.
    pub fn impls(&self) -> (r: &[Impl])
        ensures
            r@ == self.impls_view(),
    {
        self.impls.as_slice()
    }

    /// Resolves `path` starting in `start_module`, as `spec_resolve_path`
    /// says. A path that resolves names an item of the table.
    pub fn resolve_path(&self, start_module: &ModuleId, path: &Vec<String>) -> (r: Option<ItemId>)
        ensures
            r == spec_resolve_path(self.modules_view(), self.items_view(), self.inherent_view(), self.impls_view(),
                start_module.id_hash(), segments(path@)),
            r matches Some(id) ==> table_has(self.items_view(), id),
    {
        let l = self.lookup();
        let r = resolve_path(&l, start_module, path);
        proof {
            lemma_spec_resolve_in_table(self.modules_view(), self.items_view(), self.inherent_view(), self.impls_view(),
                start_module.id_hash(), segments(path@));
        }
        r
    }
}

/// An impl block whose target resolves is kept by resolution.
proof fn lemma_resolved_raws_keeps(mods: Seq<Module>, items: Seq<ModuleItem>, raws: Seq<RawImpl>, w: int)
    requires
        0 <= w < raws.len(),
        raw_target(mods, items, raws[w]) is Some,
    ensures
        resolved_raws(mods, items, raws).contains(raws[w]),
    decreases raws.len(),
{
    let prev = resolved_raws(mods, items, raws.drop_last());
    if w < raws.len() - 1 {
        lemma_resolved_raws_keeps(mods, items, raws.drop_last(), w);
        assert(raws.drop_last()[w] == raws[w]);
        let m = choose|m: int| 0 <= m < prev.len() && prev[m] == raws[w];
        if raw_target(mods, items, raws.last()) is Some {
            assert(resolved_raws(mods, items, raws)[m] == prev[m]);
        }
    } else {
        assert(resolved_raws(mods, items, raws) == prev.push(raws.last()));
        assert(resolved_raws(mods, items, raws)[prev.len() as int] == raws[w]);
    }
}

/// Each impl block kept by resolution is one of the impl blocks found.
proof fn lemma_resolved_raws_from(mods: Seq<Module>, items: Seq<ModuleItem>, raws: Seq<RawImpl>)
    ensures
        forall|k: int| 0 <= k < resolved_raws(mods, items, raws).len()
            ==> raws.contains(#[trigger] resolved_raws(mods, items, raws)[k]),
    decreases raws.len(),
{
    if raws.len() > 0 {
        lemma_resolved_raws_from(mods, items, raws.drop_last());
        let prev = resolved_raws(mods, items, raws.drop_last());
        assert forall|k: int| 0 <= k < resolved_raws(mods, items, raws).len()
            implies raws.contains(#[trigger] resolved_raws(mods, items, raws)[k]) by {
            if k < prev.len() {
                assert(raws.drop_last().contains(prev[k]));
                let w = choose|w: int| 0 <= w < raws.drop_last().len() && raws.drop_last()[w] == prev[k];
                assert(raws[w] == prev[k]);
            } else {
                assert(raws[raws.len() - 1] == raws.last());
            }
        }
    }
}


/// Some declaration of the list resolves to the module with id `hash`.
pub open spec fn links_reach(links: Seq<(Seq<char>, u64)>, hash: u64) -> bool {
    exists|j: int| 0 <= j < links.len() && (#[trigger] links[j]).1 == hash
}

/// Module `y` has a source whose resolved `mod name;` declarations reach
/// the module with id `hash`.
pub open spec fn declared_in(mods: Seq<Module>, sources: Seq<SourceText>, y: int, hash: u64) -> bool {
    exists|k: int| 0 <= k < sources.len() && (#[trigger] sources[k]).path@ == mods[y].id.file()
        && parses_as_file(sources[k].content@)
        && links_reach(module_links(sources, dir_prefix(mods[y].id.file()), declared_mods(source_items(sources[k].content@))), hash)
}

/// A module that hangs below another is reached by one of that module's
/// source's resolved declarations.
proof fn lemma_declared_child(mods: Seq<Module>, sources: Seq<SourceText>, root: u64, x: int)
    requires
        module_tree(mods, root),
        forall|y: int| 0 <= y < mods.len() ==> #[trigger] children_declared(mods[y], sources),
        0 <= x < mods.len(),
        mods[x].id.id_hash() != root,
    ensures
        exists|y: int| 0 <= y < mods.len() && #[trigger] declared_in(mods, sources, y, mods[x].id.id_hash()),
{
    let depth = choose|depth: Seq<nat>| hangs_below(mods, root, depth) && parents_first_reached(mods, root, depth);
    assert(hangs_below(mods, root, depth));
    let (y, kk) = choose|y: int, kk: int| #[trigger] child_of(mods, x, y, kk) && depth[y] < depth[x];
    assert(children_declared(mods[y], sources));
    let k = choose|k: int| 0 <= k < sources.len() && (#[trigger] sources[k]).path@ == mods[y].id.file() && parses_as_file(sources[k].content@)
        && child_links(mods[y].children@) == module_links(sources, dir_prefix(mods[y].id.file()), declared_mods(source_items(sources[k].content@)));
    let links = child_links(mods[y].children@);
    assert(links[kk].1 == mods[x].id.id_hash());
    assert(links_reach(links, mods[x].id.id_hash()));
    assert(declared_in(mods, sources, y, mods[x].id.id_hash()));
}

/// Every module of the tree but the root is reached through a declaration:
/// some module of the tree has a source whose `mod name;` declarations,
/// resolved beside it, include one that resolves to this module. A file no
/// such declaration reaches is not in the tree.
pub proof fn lemma_modules_are_declared(db: Db, sources: Seq<SourceText>, entry_file: Seq<char>, x: int)
    requires
        built_from(db, sources, entry_file),
        0 <= x < db.modules_view().len(),
        db.modules_view()[x].id.id_hash() != str_hash(entry_file),
    ensures
        exists|y: int| 0 <= y < db.modules_view().len()
            && #[trigger] declared_in(db.modules_view(), sources, y, db.modules_view()[x].id.id_hash()),
{
    lemma_declared_child(db.modules_view(), sources, str_hash(entry_file), x);
}

/// When some id of the list names an item called `name`, the first such
/// item is found, and its id is on the list.
proof fn lemma_first_named_found(ids: Seq<ItemId>, items: Seq<ModuleItem>, name: Seq<char>, j: int)
    requires
        0 <= j < ids.len(),
        lookup_item(items, ids[j]) is Some,
        lookup_item(items, ids[j])->0.name@ == name,
    ensures
        first_named(ids, items, name) is Some,
        first_named(ids, items, name)->0.name@ == name,
        ids.contains(first_named(ids, items, name)->0.id),
        lookup_item(items, first_named(ids, items, name)->0.id) == first_named(ids, items, name),
    decreases ids.len(),
{
    match lookup_item(items, ids[0]) {
        Some(t) => {
            let i = choose|i: int| 0 <= i < items.len() && (#[trigger] items[i]).id == ids[0];
            assert(t.id == ids[0]);
            if t.name@ != name {
                assert(j > 0);
                lemma_first_named_found(ids.drop_first(), items, name, j - 1);
                assert(ids.drop_first()[j - 1] == ids[j]);
                let v = first_named(ids.drop_first(), items, name)->0;
                let w = choose|w: int| 0 <= w < ids.drop_first().len() && ids.drop_first()[w] == v.id;
                assert(ids[w + 1] == v.id);
            } else {
                assert(ids[0] == t.id);
            }
        },
        None => {
            assert(j > 0);
            lemma_first_named_found(ids.drop_first(), items, name, j - 1);
            assert(ids.drop_first()[j - 1] == ids[j]);
            let v = first_named(ids.drop_first(), items, name)->0;
            let w = choose|w: int| 0 <= w < ids.drop_first().len() && ids.drop_first()[w] == v.id;
            assert(ids[w + 1] == v.id);
        },
    }
}

/// Every item of the table can be reached by its name from the module it
/// sits in, whatever its kind (a free function as much as a struct): the
/// one-segment path of its name resolves, to an item of that name that the
/// module lists (the item itself unless an earlier item of the module has
/// the same name).
pub proof fn lemma_items_resolve_by_name(db: Db, sources: Seq<SourceText>, entry_file: Seq<char>, k: int)
    requires
        built_from(db, sources, entry_file),
        0 <= k < db.items_view().len(),
    ensures
        ({
            let t = db.items_view()[k];
            let r = spec_resolve_path(db.modules_view(), db.items_view(), db.inherent_view(), db.impls_view(),
                t.parent.id_hash(), seq![t.name@]);
            &&& r is Some
            &&& lookup_item(db.items_view(), r->0) is Some
            &&& lookup_item(db.items_view(), r->0)->0.name@ == t.name@
            &&& exists|x: int| 0 <= x < db.modules_view().len() && (#[trigger] db.modules_view()[x]).id == t.parent
                && db.modules_view()[x].items@.contains(r->0)
        }),
{
    let mods = db.modules_view();
    let items = db.items_view();
    let t = items[k];
    assert(items_listed(mods, items));
    let x = choose|x: int| 0 <= x < mods.len() && (#[trigger] mods[x]).id == (#[trigger] items[k]).parent
        && mods[x].items@.contains(items[k].id);
    assert(module_tree(mods, str_hash(entry_file)));
    assert(module_ids_unique(mods));
    assert(has_module(mods, t.parent.id_hash()));
    let c = choose|c: int| 0 <= c < mods.len() && (#[trigger] mods[c]).id.id_hash() == t.parent.id_hash();
    assert(c == x) by {
        if c < x {
            assert(mods[c].id.id_hash() != mods[x].id.id_hash());
        } else if c > x {
            assert(mods[x].id.id_hash() != mods[c].id.id_hash());
        }
    }
    assert(lookup_module(mods, t.parent.id_hash()) == Some(mods[x]));
    let m = mods[x];
    let j = choose|j: int| 0 <= j < m.items@.len() && m.items@[j] == t.id;
    assert(items_consistent(mods, items));
    let i = choose|i: int| 0 <= i < items.len() && (#[trigger] items[i]).id == t.id;
    assert(i == k) by {
        if i < k {
            assert(items[i].id != items[k].id);
        } else if i > k {
            assert(items[k].id != items[i].id);
        }
    }
    assert(lookup_item(items, m.items@[j]) == Some(t));
    lemma_first_named_found(m.items@, items, t.name@, j);
    let path = seq![t.name@];
    assert(path.len() == 1);
    assert(path[0] == t.name@);
    let f = first_named(m.items@, items, t.name@)->0;
    let fi = choose|i: int| 0 <= i < items.len() && (#[trigger] items[i]).id == f.id;
    assert(m.items@.contains(f.id));
    let w = choose|w: int| 0 <= w < m.items@.len() && m.items@[w] == f.id;
    assert(table_has(items, m.items@[w]));
    assert(resolve_from(mods, items, db.inherent_view(), db.impls_view(), t.parent.id_hash(), path, 0) == Some(f.id));
    assert(spec_resolve_path(mods, items, db.inherent_view(), db.impls_view(), t.parent.id_hash(), path) == Some(f.id));
    assert(mods[x].items@.contains(f.id));
}

/// Module `x`'s path is module `y`'s path extended by the name `y`'s
/// declaration `k`, which declares `x`, gives it: the name alone when `y`
/// is the root (empty path), else `y`'s whole path, `::`, and the name.
pub open spec fn path_extends(mods: Seq<Module>, y: int, k: int, x: int) -> bool {
    &&& 0 <= y < mods.len()
    &&& 0 <= k < mods[y].children@.len()
    &&& mods[y].children@[k].1 == mods[x].id
    &&& mods[x].mod_path@ == (if mods[y].mod_path@.len() == 0 {
        mods[y].children@[k].0@
    } else {
        mods[y].mod_path@ + seq![':', ':'] + mods[y].children@[k].0@
    })
}

/// A module of a tree other than its root hangs below some module of it.
proof fn lemma_parent_in_tree(mods: Seq<Module>, root: u64, x: int) -> (yk: (int, int))
    requires
        module_tree(mods, root),
        0 <= x < mods.len(),
        mods[x].id.id_hash() != root,
    ensures
        child_of(mods, x, yk.0, yk.1),
{
    let depth = choose|depth: Seq<nat>| hangs_below(mods, root, depth) && parents_first_reached(mods, root, depth);
    assert(hangs_below(mods, root, depth));
    let (y, k) = choose|y: int, k: int| #[trigger] child_of(mods, x, y, k) && depth[y] < depth[x];
    (y, k)
}

/// A module that hangs below another has that module's path extended by
/// its declared name as its path.
proof fn lemma_child_path_extends(mods: Seq<Module>, x: int, y: int, k: int)
    requires
        0 <= x < mods.len(),
        child_of(mods, x, y, k),
    ensures
        path_extends(mods, y, k, x),
{
    crate::resolve::tree::lemma_join_path_extends(mods[y].mod_path@, mods[y].children@[k].0@);
}

/// A module's path is its parent's path extended by the name it is
/// declared under: the crate root's path is empty, a module declared in
/// the root has the declared name as its path, and one declared deeper has
/// the whole of its parent's path, `::`, and the declared name (see
/// `path_extends`). So every module's path lists the declared names on its
/// chain from the root.
pub proof fn lemma_module_paths_extend_parents(db: Db, sources: Seq<SourceText>, entry_file: Seq<char>, x: int)
    requires
        built_from(db, sources, entry_file),
        0 <= x < db.modules_view().len(),
    ensures
        db.modules_view()[x].id.id_hash() == str_hash(entry_file) ==> db.modules_view()[x].mod_path@.len() == 0,
        db.modules_view()[x].id.id_hash() != str_hash(entry_file)
            ==> exists|y: int, k: int| #[trigger] path_extends(db.modules_view(), y, k, x),
{
    let mods = db.modules_view();
    assert(module_tree(mods, str_hash(entry_file)));
    if mods[x].id.id_hash() != str_hash(entry_file) {
        let (y, k) = lemma_parent_in_tree(mods, str_hash(entry_file), x);
        lemma_child_path_extends(mods, x, y, k);
    }
}

/// The ids an index lists under `key`: the trait index's list when
/// `with_trait` holds, else the inherent index's; empty when it has none.
pub open spec fn listed(db: Db, key: u64, with_trait: bool) -> Seq<ImplId> {
    let map = if with_trait { db.trait_view() } else { db.inherent_view() };
    if map.contains_key(key) {
        map[key]@
    } else {
        Seq::empty()
    }
}

/// The positions `impl_indices` lists are increasing, each names an impl of
/// that target and kind, and every such impl is listed.
proof fn lemma_impl_indices_exact(impls: Seq<Impl>, key: u64, with_trait: bool)
    requires
        impls.len() <= usize::MAX,
    ensures
        forall|a: int, b: int| 0 <= a < b < impl_indices(impls, key, with_trait).len()
            ==> (#[trigger] impl_indices(impls, key, with_trait)[a]).index() < (#[trigger] impl_indices(impls, key, with_trait)[b]).index(),
        forall|a: int| 0 <= a < impl_indices(impls, key, with_trait).len() ==> {
            let i = (#[trigger] impl_indices(impls, key, with_trait)[a]).index() as int;
            &&& i < impls.len()
            &&& impls[i].target_type.raw() == key
            &&& (impls[i].trait_ is Some) == with_trait
        },
        forall|k: int| 0 <= k < impls.len() && (#[trigger] impls[k]).target_type.raw() == key && (impls[k].trait_ is Some) == with_trait
            ==> exists|a: int| 0 <= a < impl_indices(impls, key, with_trait).len() && (#[trigger] impl_indices(impls, key, with_trait)[a]).index() == k,
    decreases impls.len(),
{
    if impls.len() > 0 {
        let d = impls.drop_last();
        lemma_impl_indices_exact(d, key, with_trait);
        let prev = impl_indices(d, key, with_trait);
        let cur = impl_indices(impls, key, with_trait);
        let n = (impls.len() - 1) as usize;
        ImplId::lemma_at(n);
        assert forall|a: int| 0 <= a < prev.len() implies (#[trigger] prev[a]).index() < n by {}
        assert forall|a: int| 0 <= a < cur.len() implies {
            let i = (#[trigger] cur[a]).index() as int;
            &&& i < impls.len()
            &&& impls[i].target_type.raw() == key
            &&& (impls[i].trait_ is Some) == with_trait
        } by {
            if a < prev.len() {
                assert(cur[a] == prev[a]);
                assert(impls[prev[a].index() as int] == d[prev[a].index() as int]);
            }
        }
        assert forall|a: int, b: int| 0 <= a < b < cur.len() implies (#[trigger] cur[a]).index() < (#[trigger] cur[b]).index() by {
            if b < prev.len() {
                assert(cur[a] == prev[a] && cur[b] == prev[b]);
            } else {
                assert(cur[a] == prev[a]);
            }
        }
        assert forall|k: int| 0 <= k < impls.len() && (#[trigger] impls[k]).target_type.raw() == key && (impls[k].trait_ is Some) == with_trait
            implies exists|a: int| 0 <= a < cur.len() && (#[trigger] cur[a]).index() == k by {
            if k < d.len() {
                assert(d[k] == impls[k]);
                let a = choose|a: int| 0 <= a < prev.len() && (#[trigger] prev[a]).index() == k;
                assert(cur[a] == prev[a]);
            } else {
                assert(cur[prev.len() as int].index() == k);
            }
        }
    }
}

/// Each impl block is listed exactly once across the two indexes: under its
/// own target, in the trait index when it implements a trait and in the
/// inherent index otherwise. Every list is strictly increasing, so nothing
/// is listed twice, and every listed id names an impl of that target and
/// kind.
pub proof fn lemma_impl_listed_once(db: Db, sources: Seq<SourceText>, entry_file: Seq<char>, k: int)
    requires
        built_from(db, sources, entry_file),
        db.impls_view().len() <= usize::MAX,
        0 <= k < db.impls_view().len(),
    ensures
        exists|a: int| 0 <= a < listed(db, db.impls_view()[k].target_type.raw(), db.impls_view()[k].trait_ is Some).len()
            && (#[trigger] listed(db, db.impls_view()[k].target_type.raw(), db.impls_view()[k].trait_ is Some)[a]).index() == k,
        forall|key: u64, with_trait: bool, a: int| 0 <= a < listed(db, key, with_trait).len()
            && (#[trigger] listed(db, key, with_trait)[a]).index() == k
            ==> key == db.impls_view()[k].target_type.raw() && with_trait == (db.impls_view()[k].trait_ is Some),
        forall|key: u64, with_trait: bool, a: int, b: int| 0 <= a < b < listed(db, key, with_trait).len()
            ==> (#[trigger] listed(db, key, with_trait)[a]).index() < (#[trigger] listed(db, key, with_trait)[b]).index(),
{
    let impls = db.impls_view();
    assert forall|key: u64, with_trait: bool| #[trigger] listed(db, key, with_trait) == impl_indices(impls, key, with_trait) by {
        lemma_impl_indices_exact(impls, key, with_trait);
        let map = if with_trait { db.trait_view() } else { db.inherent_view() };
        if !map.contains_key(key) {
            if impl_indices(impls, key, with_trait).len() > 0 {
                assert(map.contains_key(key));
            }
            assert(impl_indices(impls, key, with_trait) =~= Seq::<ImplId>::empty());
        }
    }
    let key = impls[k].target_type.raw();
    let wt = impls[k].trait_ is Some;
    lemma_impl_indices_exact(impls, key, wt);
    assert(listed(db, key, wt) == impl_indices(impls, key, wt));
    assert forall|key2: u64, with_trait: bool, a: int| 0 <= a < listed(db, key2, with_trait).len()
        && (#[trigger] listed(db, key2, with_trait)[a]).index() == k
        implies key2 == key && with_trait == wt by {
        assert(listed(db, key2, with_trait) == impl_indices(impls, key2, with_trait));
        lemma_impl_indices_exact(impls, key2, with_trait);
        assert(impl_indices(impls, key2, with_trait)[a].index() == k);
    }
    assert forall|key2: u64, with_trait: bool, a: int, b: int| 0 <= a < b < listed(db, key2, with_trait).len()
        implies (#[trigger] listed(db, key2, with_trait)[a]).index() < (#[trigger] listed(db, key2, with_trait)[b]).index() by {
        assert(listed(db, key2, with_trait) == impl_indices(impls, key2, with_trait));
        lemma_impl_indices_exact(impls, key2, with_trait);
    }
}

/// Items of the crate root's own file have an empty module path, and every
/// item's id is derived from its module path and its name.
pub proof fn lemma_root_items_unqualified(db: Db, sources: Seq<SourceText>, entry_file: Seq<char>)
    requires
        built_from(db, sources, entry_file),
    ensures
        forall|t: int| 0 <= t < db.items_view().len() && (#[trigger] db.items_view()[t]).parent.id_hash() == str_hash(entry_file)
            ==> db.items_view()[t].mod_path@.len() == 0,
        forall|t: int| 0 <= t < db.items_view().len()
            ==> (#[trigger] db.items_view()[t]).id == spec_item_id(db.items_view()[t].mod_path@, db.items_view()[t].name@),
{
    let mods = db.modules_view();
    let items = db.items_view();
    assert forall|t: int| 0 <= t < items.len() && (#[trigger] items[t]).parent.id_hash() == str_hash(entry_file)
        implies items[t].mod_path@.len() == 0 by {
        assert(item_placed(mods, items[t]));
        let x = choose|x: int| 0 <= x < mods.len() && (#[trigger] mods[x]).id == items[t].parent && mods[x].mod_path@ == items[t].mod_path@;
        assert(mods[x].id.id_hash() == str_hash(entry_file));
    }
    assert forall|t: int| 0 <= t < items.len()
        implies (#[trigger] items[t]).id == spec_item_id(items[t].mod_path@, items[t].name@) by {
        assert(item_placed(mods, items[t]));
    }
}


/// How many of `calls` resolve from the module with id `start`.
pub open spec fn resolved_count(db: Db, start: u64, calls: Seq<Vec<String>>) -> nat
    decreases calls.len(),
{
    if calls.len() == 0 {
        0
    } else {
        resolved_count(db, start, calls.drop_last()) + if spec_resolve_path(db.modules_view(), db.items_view(),
            db.inherent_view(), db.impls_view(), start, segments(calls.last()@)) is Some {
            1nat
        } else {
            0nat
        }
    }
}

impl Db {
    /// How many of the call paths resolve from `start_module`, and how many
    /// do not.
    pub fn count_resolved(&self, start_module: &ModuleId, calls: &Vec<Vec<String>>) -> (r: (usize, usize))
        ensures
            r.0 == resolved_count(*self, start_module.id_hash(), calls@),
            r.0 + r.1 == calls@.len(),
    {
        let mut resolved: usize = 0;
        let mut unresolved: usize = 0;
        let mut k: usize = 0;
        while k < calls.len()
            invariant
                k <= calls@.len(),
                resolved == resolved_count(*self, start_module.id_hash(), calls@.take(k as int)),
                resolved + unresolved == k,
            decreases calls.len() - k,
        {
            assert(calls@.take(k + 1).drop_last() =~= calls@.take(k as int));
            match self.resolve_path(start_module, &calls[k]) {
                Some(_) => resolved = resolved + 1,
                None => unresolved = unresolved + 1,
            }
            k = k + 1;
        }
        assert(calls@.take(calls@.len() as int) =~= calls@);
        (resolved, unresolved)
    }
}

} // verus!
