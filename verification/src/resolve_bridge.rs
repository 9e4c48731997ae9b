//! Turns the resolved database into a `Workspace`: one resolved value per
//! struct, enum, trait, free function and impl block.

use vstd::prelude::*;
use crate::query::{select, SemaItem};
use crate::resolve::db::{lookup_item, Db, Impl};
use crate::resolve::ids::{spec_item_id, ItemId};
use crate::resolve::item::{ids_distinct, table_has, ItemKind, ModuleItem};
use crate::syntax::{impl_self_ty, impl_self_written, impl_trait, impl_trait_path_of, impl_trait_written};
use crate::text::{
    before_char, crate_qualifier, is_trimmed, lacks_char, lacks_sep, last_split_piece, lemma_before_char_facts, lemma_first_sep_none,
    lemma_last_piece_facts, lemma_sub_lacks, lemma_trim_fixed, lemma_trim_sub, same_text, spec_trim, split_first,
    split_last_sep, trim,
};
use crate::types::{
    ItemKind as RefKind, ItemRef, ResolvedEnum, ResolvedFunction, ResolvedImpl, ResolvedStruct, ResolvedTrait,
};
use crate::workspaces::Workspace;

verus! {

/// The base name of a type as written: the part before any `<`, trimmed,
/// then the last `::`-separated piece of it, trimmed.
pub open spec fn spec_base_name(written: Seq<char>) -> Seq<char> {
    spec_trim(last_split_piece(spec_trim(before_char(written, '<'))))
}

/// The base type name of a written type: `MotorConfig` for `MotorConfig`,
/// `Vec` for `Vec < T >`, `Foo` for `path :: to :: Foo`.
pub fn base_name(written: &str) -> (r: &str)
    ensures
        r@ == spec_base_name(written@),
{
    let without_generics = trim(split_first(written, '<'));
    trim(split_last_sep(without_generics))
}

/// The base name of a written type is a stretch of it with no surrounding
/// whitespace, no `<` and no `::`, and it is its own base name.
pub proof fn lemma_base_name(written: Seq<char>)
    ensures
        exists|a: int, b: int| 0 <= a <= b <= written.len() && spec_base_name(written) == written.subrange(a, b),
        is_trimmed(spec_base_name(written)),
        lacks_char(spec_base_name(written), '<'),
        lacks_sep(spec_base_name(written)),
        spec_base_name(spec_base_name(written)) == spec_base_name(written),
{
    let b0 = before_char(written, '<');
    lemma_before_char_facts(written, '<');
    let e0 = choose|e: int| 0 <= e <= written.len() && b0 == written.subrange(0, e);
    let t1 = spec_trim(b0);
    lemma_trim_sub(b0);
    let (a1, e1) = choose|a: int, b: int| 0 <= a <= b <= b0.len() && t1 == b0.subrange(a, b);
    lemma_sub_lacks(b0, a1, e1, '<');
    let p = last_split_piece(t1);
    lemma_last_piece_facts(t1);
    let a2 = choose|a: int| 0 <= a <= t1.len() && p == t1.subrange(a, t1.len() as int);
    lemma_sub_lacks(t1, a2, t1.len() as int, '<');
    let r = spec_trim(p);
    lemma_trim_sub(p);
    let (a3, e3) = choose|a: int, b: int| 0 <= a <= b <= p.len() && r == p.subrange(a, b);
    lemma_sub_lacks(p, a3, e3, '<');
    assert(r =~= written.subrange(a1 + a2 + a3, a1 + a2 + e3));
    // the base name of `r`
    lemma_before_char_facts(r, '<');
    lemma_trim_fixed(r);
    lemma_first_sep_none(r);
    assert(last_split_piece(r) == r);
}

/// The name of the item an impl block is for, `unknown` when the table has
/// no item with that id.
pub open spec fn self_name(items: Seq<ModuleItem>, id: ItemId) -> Seq<char> {
    match lookup_item(items, id) {
        Some(t) => t.name@,
        None => seq!['u', 'n', 'k', 'n', 'o', 'w', 'n'],
    }
}

/// The name an impl block's id is derived from: `impl_`, the name of its
/// self type, and `__` with the base name of its trait when it has one.
pub open spec fn impl_label(self_name: Seq<char>, trait_written: Option<Seq<char>>) -> Seq<char> {
    seq!['i', 'm', 'p', 'l', '_'] + self_name + match trait_written {
        Some(w) => seq!['_', '_'] + spec_base_name(w),
        None => Seq::empty(),
    }
}

/// A module path of the table, which is relative to the crate root, as the
/// resolved values carry it: `crate::` in front, empty at the root.
pub open spec fn qualified(path: Seq<char>) -> Seq<char> {
    if path.len() == 0 {
        path
    } else {
        crate_qualifier() + path
    }
}

/// The crate-qualified form of a table module path.
fn qualified_path(path: &String) -> (r: String)
    ensures
        r@ == qualified(path@),
{
    if path.as_str().is_empty() {
        return String::new();
    }
    let mut r = String::from_str("crate::");
    r.append(path.as_str());
    proof {
        reveal_strlit("crate::");
        assert("crate::"@ =~= crate_qualifier());
    }
    r
}

/// `s` is the struct item `t` of the table.
pub open spec fn struct_from(s: ResolvedStruct, t: ModuleItem) -> bool {
    &&& t.kind == ItemKind::Struct(s.node)
    &&& s.id == t.id
    &&& s.mod_path@ == qualified(t.mod_path@)
    &&& s.file@ == t.parent.file()
}

/// `e` is the enum item `t` of the table.
pub open spec fn enum_from(e: ResolvedEnum, t: ModuleItem) -> bool {
    &&& t.kind == ItemKind::Enum(e.node)
    &&& e.id == t.id
    &&& e.mod_path@ == qualified(t.mod_path@)
    &&& e.file@ == t.parent.file()
}

/// `f` is the function item `t` of the table.
pub open spec fn function_from(f: ResolvedFunction, t: ModuleItem) -> bool {
    &&& t.kind == ItemKind::Fn(f.node)
    &&& f.id == t.id
    &&& f.mod_path@ == qualified(t.mod_path@)
    &&& f.file@ == t.parent.file()
}

/// `r` is the trait item `t` of the table.
pub open spec fn trait_from(r: ResolvedTrait, t: ModuleItem) -> bool {
    &&& t.kind == ItemKind::Trait(r.node)
    &&& r.id == t.id
    &&& r.mod_path@ == qualified(t.mod_path@)
    &&& r.file@ == t.parent.file()
}

/// `r` is the impl block `imp`, with its self type and trait as `quote`
/// prints them and as resolved (a trait reference exactly for a trait impl),
/// and an id derived from its module path and `impl_label`.
pub open spec fn impl_from(r: ResolvedImpl, imp: Impl, items: Seq<ModuleItem>) -> bool {
    &&& r.node == imp.node
    &&& r.mod_path@ == qualified(imp.mod_path@)
    &&& r.file@ == imp.parent.file()
    &&& r.self_ty.resolved == Some(imp.target_type)
    &&& r.self_ty.generics@.len() == 0
    &&& r.self_ty.kind is Type
    &&& r.self_ty.written@ == impl_self_written(imp.node)
    &&& (r.trait_ is Some <==> impl_trait_path_of(imp.node) is Some)
    &&& impl_trait_written(imp.node) == (match r.trait_ {
        Some(t) => Some(t.written@),
        None => None::<Seq<char>>,
    })
    &&& (r.trait_ matches Some(t) ==> t.resolved == imp.trait_ && t.generics@.len() == 0 && t.kind is Path)
    &&& r.id == spec_item_id(imp.mod_path@, impl_label(self_name(items, imp.target_type), match r.trait_ {
        Some(t) => Some(t.written@),
        None => None,
    }))
}

/// What a table item's parts become in a resolved value.
struct ItemParts {
    id: ItemId,
    mod_path: String,
    file: String,
}

fn convert_function(p: ItemParts, f: syn::ItemFn) -> (r: ResolvedFunction)
    ensures
        r.node == f,
        r.id == p.id,
        r.mod_path == p.mod_path,
        r.file == p.file,
{
    ResolvedFunction { id: p.id, mod_path: p.mod_path, node: f, file: p.file }
}

fn convert_enum(p: ItemParts, e: syn::ItemEnum) -> (r: ResolvedEnum)
    ensures
        r.node == e,
        r.id == p.id,
        r.mod_path == p.mod_path,
        r.file == p.file,
{
    ResolvedEnum { id: p.id, mod_path: p.mod_path, node: e, file: p.file }
}

fn convert_struct(p: ItemParts, s: syn::ItemStruct) -> (r: ResolvedStruct)
    ensures
        r.node == s,
        r.id == p.id,
        r.mod_path == p.mod_path,
        r.file == p.file,
{
    ResolvedStruct { id: p.id, mod_path: p.mod_path, node: s, file: p.file }
}

fn convert_trait(p: ItemParts, t: syn::ItemTrait) -> (r: ResolvedTrait)
    ensures
        r.node == t,
        r.id == p.id,
        r.mod_path == p.mod_path,
        r.file == p.file,
{
    ResolvedTrait { id: p.id, mod_path: p.mod_path, node: t, file: p.file }
}

/// The name of the table item with this id, `unknown` when there is none.
fn name_of(items: &Vec<ModuleItem>, id: ItemId) -> (r: String)
    requires
        ids_distinct(items@),
    ensures
        r@ == self_name(items@, id),
{
    let mut k: usize = 0;
    while k < items.len()
        invariant
            k <= items@.len(),
            ids_distinct(items@),
            forall|i: int| 0 <= i < k ==> (#[trigger] items@[i]).id != id,
        decreases items.len() - k,
    {
        if items[k].id == id {
            proof {
                let j = choose|j: int| 0 <= j < items@.len() && (#[trigger] items@[j]).id == id;
                assert(table_has(items@, id));
                if j != k {
                    if j < k {
                        assert(items@[j].id != items@[k as int].id);
                    } else {
                        assert(items@[k as int].id != items@[j].id);
                    }
                }
            }
            return items[k].name.clone();
        }
        k = k + 1;
    }
    let r = String::from_str("unknown");
    proof {
        reveal_strlit("unknown");
        assert(!table_has(items@, id));
    }
    r
}

/// The resolved value of one impl block. Impl blocks have no name in the
/// source, so the id is derived from the module path and `impl_label`.
fn convert_impl(imp: Impl, items: &Vec<ModuleItem>) -> (r: ResolvedImpl)
    requires
        ids_distinct(items@),
    ensures
        impl_from(r, imp, items@),
{
    let (self_written, self_ast) = impl_self_ty(&imp.node);
    let trait_part = impl_trait(&imp.node);
    let self_name = name_of(items, imp.target_type);
    let mut label = String::from_str("impl_");
    label.append(self_name.as_str());
    let trait_ = match trait_part {
        Some((written, path)) => {
            label.append("__");
            label.append(base_name(written.as_str()));
            Some(ItemRef { written, resolved: imp.trait_, generics: Vec::new(), kind: RefKind::Path(path) })
        },
        None => None,
    };
    proof {
        reveal_strlit("impl_");
        reveal_strlit("__");
        assert(label@ =~= impl_label(self_name@, match trait_ {
            Some(t) => Some(t.written@),
            None => None,
        }));
    }
    let id = ItemId::from(imp.mod_path.as_str(), label.as_str());
    let self_ty = ItemRef { written: self_written, resolved: Some(imp.target_type), generics: Vec::new(), kind: RefKind::Type(self_ast) };
    let file = imp.parent.file_path();
    let mod_path = qualified_path(&imp.mod_path);
    let Impl { target_type: _, trait_: _, methods: _, node, mod_path: _, parent: _, method_infos: _, attr_names: _ } = imp;
    ResolvedImpl { id, self_ty, trait_, mod_path, node, file }
}


/// A table item that is a struct.
pub open spec fn struct_item() -> spec_fn(ModuleItem) -> bool {
    |t: ModuleItem| t.kind is Struct
}

/// A table item that is an enum.
pub open spec fn enum_item() -> spec_fn(ModuleItem) -> bool {
    |t: ModuleItem| t.kind is Enum
}

/// A table item that is a trait.
pub open spec fn trait_item() -> spec_fn(ModuleItem) -> bool {
    |t: ModuleItem| t.kind is Trait
}

/// A table item that is a free function.
pub open spec fn function_item() -> spec_fn(ModuleItem) -> bool {
    |t: ModuleItem| t.kind is Fn
}

/// The files of the items of a workspace: structs, enums, traits, impl
/// blocks, then functions, with repetitions.
pub open spec fn item_files(ws: Workspace) -> Seq<Seq<char>> {
    ws.structs_view().map_values(|x: ResolvedStruct| x.file@)
        + ws.enums_view().map_values(|x: ResolvedEnum| x.file@)
        + ws.traits_view().map_values(|x: ResolvedTrait| x.file@)
        + ws.impls_view().map_values(|x: ResolvedImpl| x.file@)
        + ws.functions_view().map_values(|x: ResolvedFunction| x.file@)
}

/// The texts of a list of strings.
pub open spec fn texts(v: Seq<String>) -> Seq<Seq<char>> {
    v.map_values(|s: String| s@)
}

/// Whether some string of `v` holds the text of `s`.
fn contains_text(v: &Vec<String>, s: &str) -> (b: bool)
    ensures
        b == texts(v@).contains(s@),
{
    let mut k: usize = 0;
    while k < v.len()
        invariant
            k <= v@.len(),
            forall|i: int| 0 <= i < k ==> (#[trigger] v@[i])@ != s@,
        decreases v.len() - k,
    {
        if same_text(v[k].as_str(), s) {
            assert(texts(v@)[k as int] == s@);
            return true;
        }
        k = k + 1;
    }
    proof {
        if texts(v@).contains(s@) {
            let j = choose|j: int| 0 <= j < texts(v@).len() && texts(v@)[j] == s@;
            assert(v@[j]@ == s@);
        }
    }
    false
}

/// Appends the file of each item, in order.
fn push_files<T: SemaItem>(all: &mut Vec<String>, items: &Vec<T>)
    ensures
        texts(final(all)@) == texts(old(all)@) + items@.map_values(|x: T| x.spec_file()),
{
    let ghost start = texts(all@);
    let mut k: usize = 0;
    while k < items.len()
        invariant
            k <= items@.len(),
            texts(all@) == start + items@.take(k as int).map_values(|x: T| x.spec_file()),
        decreases items.len() - k,
    {
        let ghost prev = all@;
        let f = items[k].file();
        all.push(String::from_str(f));
        proof {
            let a = items@.take(k as int).map_values(|x: T| x.spec_file());
            let x = items@[k as int].spec_file();
            assert(items@.take(k + 1).map_values(|x: T| x.spec_file()) =~= a.push(x));
            assert(texts(all@) =~= texts(prev).push(x));
            assert(start + a.push(x) =~= (start + a).push(x));
        }
        k = k + 1;
    }
    assert(items@.take(items@.len() as int) =~= items@);
}

/// The strings of `all`, each text once, in order of first appearance.
fn distinct_texts(all: Vec<String>) -> (out: Vec<String>)
    ensures
        texts(out@).no_duplicates(),
        forall|f: Seq<char>| texts(out@).contains(f) <==> texts(all@).contains(f),
{
    let ghost whole = all@;
    let mut out: Vec<String> = Vec::new();
    for s in it: all
        invariant
            whole == it.seq(),
            texts(out@).no_duplicates(),
            forall|f: Seq<char>| texts(out@).contains(f) <==> texts(whole.take(it.index() as int)).contains(f),
    {
        let ghost k = it.index();
        let ghost before = out@;
        proof {
            assert(texts(whole.take(k + 1)) =~= texts(whole.take(k)).push(s@));
        }
        let ghost text = s@;
        let ghost pre = texts(whole.take(k));
        assert(texts(whole.take(k + 1)) =~= pre.push(text));
        if !contains_text(&out, s.as_str()) {
            out.push(s);
            proof {
                assert(texts(out@) =~= texts(before).push(text));
                assert forall|f: Seq<char>| texts(out@).contains(f) <==> pre.push(text).contains(f) by {
                    if texts(out@).contains(f) {
                        let j = choose|j: int| 0 <= j < texts(out@).len() && texts(out@)[j] == f;
                        if j < texts(before).len() {
                            assert(texts(before)[j] == f);
                            assert(texts(before).contains(f));
                            assert(pre.contains(f));
                            let m = choose|m: int| 0 <= m < pre.len() && pre[m] == f;
                            assert(pre.push(text)[m] == f);
                        } else {
                            assert(pre.push(text)[pre.len() as int] == f);
                        }
                    }
                    if pre.push(text).contains(f) {
                        let j = choose|j: int| 0 <= j < pre.push(text).len() && pre.push(text)[j] == f;
                        if j < pre.len() {
                            assert(pre[j] == f);
                            assert(pre.contains(f));
                            assert(texts(before).contains(f));
                            let m = choose|m: int| 0 <= m < texts(before).len() && texts(before)[m] == f;
                            assert(texts(out@)[m] == f);
                        } else {
                            assert(texts(out@)[texts(before).len() as int] == f);
                        }
                    }
                }
            }
        } else {
            proof {
                assert forall|f: Seq<char>| texts(out@).contains(f) <==> pre.push(text).contains(f) by {
                    if texts(out@).contains(f) {
                        assert(pre.contains(f));
                        let m = choose|m: int| 0 <= m < pre.len() && pre[m] == f;
                        assert(pre.push(text)[m] == f);
                    }
                    if pre.push(text).contains(f) {
                        let j = choose|j: int| 0 <= j < pre.push(text).len() && pre.push(text)[j] == f;
                        if j < pre.len() {
                            assert(pre[j] == f);
                            assert(pre.contains(f));
                        } else {
                            assert(f == text);
                        }
                        assert(texts(out@).contains(f));
                    }
                }
            }
        }
    }
    proof {
        assert(whole.take(whole.len() as int) =~= whole);
    }
    out
}

/// `ws` is the workspace of `db`: the structs, enums, traits and free
/// functions of the item table, each in table order; every impl block, in
/// order; and the files those come from, each once.
pub open spec fn workspace_from(ws: Workspace, db: Db) -> bool {
    &&& ws.structs_view().len() == select(db.items_view(), struct_item()).len()
    &&& (forall|i: int| 0 <= i < ws.structs_view().len() ==> struct_from(#[trigger] ws.structs_view()[i], select(db.items_view(), struct_item())[i]))
    &&& ws.enums_view().len() == select(db.items_view(), enum_item()).len()
    &&& (forall|i: int| 0 <= i < ws.enums_view().len() ==> enum_from(#[trigger] ws.enums_view()[i], select(db.items_view(), enum_item())[i]))
    &&& ws.traits_view().len() == select(db.items_view(), trait_item()).len()
    &&& (forall|i: int| 0 <= i < ws.traits_view().len() ==> trait_from(#[trigger] ws.traits_view()[i], select(db.items_view(), trait_item())[i]))
    &&& ws.functions_view().len() == select(db.items_view(), function_item()).len()
    &&& (forall|i: int| 0 <= i < ws.functions_view().len() ==> function_from(#[trigger] ws.functions_view()[i], select(db.items_view(), function_item())[i]))
    &&& ws.impls_view().len() == db.impls_view().len()
    &&& (forall|i: int| 0 <= i < ws.impls_view().len() ==> impl_from(#[trigger] ws.impls_view()[i], db.impls_view()[i], db.items_view()))
    &&& texts(ws.files_view()).no_duplicates()
    &&& (forall|f: Seq<char>| texts(ws.files_view()).contains(f) <==> item_files(ws).contains(f))
}

/// Converts a resolved database into a workspace: the structs, enums,
/// traits and free functions of the item table, each in table order; every
/// impl block, in order; and the files those come from, each once.
/// Constants, modules and other items have no resolved counterpart.
pub fn build_workspace(db: Db) -> (ws: Workspace)
    ensures
        workspace_from(ws, db),
{
    let ghost table = db.items_view();
    let ghost blocks = db.impls_view();
    let (items, raw_impls) = db.into_parts();

    let mut impls: Vec<ResolvedImpl> = Vec::new();
    for imp in it: raw_impls
        invariant
            blocks == it.seq(),
            items@ == table,
            ids_distinct(table),
            impls@.len() == it.index(),
            forall|i: int| 0 <= i < impls@.len() ==> impl_from(#[trigger] impls@[i], blocks[i], table),
    {
        let r = convert_impl(imp, &items);
        impls.push(r);
    }

    let mut structs: Vec<ResolvedStruct> = Vec::new();
    let mut enums: Vec<ResolvedEnum> = Vec::new();
    let mut traits: Vec<ResolvedTrait> = Vec::new();
    let mut functions: Vec<ResolvedFunction> = Vec::new();
    for item in it: items
        invariant
            table == it.seq(),
            structs@.len() == select(table.take(it.index() as int), struct_item()).len(),
            forall|i: int| 0 <= i < structs@.len()
                ==> struct_from(#[trigger] structs@[i], select(table.take(it.index() as int), struct_item())[i]),
            enums@.len() == select(table.take(it.index() as int), enum_item()).len(),
            forall|i: int| 0 <= i < enums@.len()
                ==> enum_from(#[trigger] enums@[i], select(table.take(it.index() as int), enum_item())[i]),
            traits@.len() == select(table.take(it.index() as int), trait_item()).len(),
            forall|i: int| 0 <= i < traits@.len()
                ==> trait_from(#[trigger] traits@[i], select(table.take(it.index() as int), trait_item())[i]),
            functions@.len() == select(table.take(it.index() as int), function_item()).len(),
            forall|i: int| 0 <= i < functions@.len()
                ==> function_from(#[trigger] functions@[i], select(table.take(it.index() as int), function_item())[i]),
    {
        let ghost k = it.index() as int;
        let ghost t = item;
        proof {
            crate::query::lemma_select_step(table, struct_item(), k);
            crate::query::lemma_select_step(table, enum_item(), k);
            crate::query::lemma_select_step(table, trait_item(), k);
            crate::query::lemma_select_step(table, function_item(), k);
        }
        let file = item.parent.file_path();
        let mod_path = qualified_path(&item.mod_path);
        let ModuleItem { name: _, id, kind, is_pub: _, parent, mod_path: _, attr_names: _, variants } = item;
        let p = ItemParts { id, mod_path, file };
        match kind {
            ItemKind::Fn(f) => functions.push(convert_function(p, f)),
            ItemKind::Enum(e) => enums.push(convert_enum(p, e)),
            ItemKind::Struct(s) => structs.push(convert_struct(p, s)),
            ItemKind::Trait(tr) => traits.push(convert_trait(p, tr)),
            ItemKind::Const(_) => {},
            ItemKind::Module(_) => {},
            ItemKind::Unhandled => {},
        }
    }
    proof {
        assert(table.take(table.len() as int) =~= table);
    }

    let mut all: Vec<String> = Vec::new();
    push_files(&mut all, &structs);
    push_files(&mut all, &enums);
    push_files(&mut all, &traits);
    push_files(&mut all, &impls);
    push_files(&mut all, &functions);
    let ghost want = structs@.map_values(|x: ResolvedStruct| x.spec_file())
        + enums@.map_values(|x: ResolvedEnum| x.spec_file())
        + traits@.map_values(|x: ResolvedTrait| x.spec_file())
        + impls@.map_values(|x: ResolvedImpl| x.spec_file())
        + functions@.map_values(|x: ResolvedFunction| x.spec_file());
    assert(texts(all@) =~= want);
    let files = distinct_texts(all);
    let ws = Workspace::new(structs, enums, traits, impls, files, functions);
    proof {
        assert(item_files(ws) =~= want);
    }
    ws
}

} // verus!
