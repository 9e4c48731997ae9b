use vstd::prelude::*;
use crate::resolve::db::{child_of, declares, hangs_below, parents_first_reached, has_module, item_placed, items_consistent, items_listed, module_ids_unique, module_tree, raws_placed, Module, RawImpl};
use crate::resolve::item::{ids_distinct, insert_item, lower_items, table_has, ModuleItem};
use crate::resolve::ids::{spec_item_id, str_hash, ItemId, ModuleId};
use crate::resolve::item::{ItemKind, ItemSource};
use crate::resolve::tree::{assign_paths, bfs_ok, closed_at, parent_ok, tree_ok, walk_done};
use crate::syntax::{
    attr_ident, attr_path_ident, classify_item, const_header, const_header_of, enum_header, enum_header_of,
    enum_variant_names, fn_header, fn_header_of, impl_attrs, impl_attrs_of, impl_members, impl_members_of,
    impl_target_of, impl_target_segments, impl_trait_path_of, impl_trait_segments, impl_node_of, item_class, fn_node_of, enum_node_of, struct_node_of,
    trait_node_of, const_node_of, mod_node_of, method_facts,
    mod_header, mod_header_of, mod_is_decl, mod_is_declaration, parse_items, parses_as_file, source_items,
    string_views, struct_header, variant_names_of, struct_header_of, trait_header, trait_header_of, ItemClass, SynItem, Vis,
};
use crate::text::{chars_of, same_text};
use crate::types::MethodInfo;

verus! {

/// A source file as read from disk: its path and its text.
pub struct SourceText {
    pub path: String,
    pub content: String,
}

/// A top-level entry of a parsed file that the module walk keeps.
pub(crate) enum FileEntry {
    Impl(RawImpl),
    Item(ItemSource),
}

/// A file that parsed: its module id, its path, the names of its `mod name;`
/// declarations, and its other top-level entries, all in source order.
pub(crate) struct ParsedFile {
    pub(crate) id: ModuleId,
    pub(crate) path: String,
    pub(crate) decls: Vec<String>,
    pub(crate) entries: Vec<FileEntry>,
}

/// The `fn` members among an impl block's members, in order.
pub open spec fn fn_members(members: Seq<Option<MethodInfo>>) -> Seq<MethodInfo>
    decreases members.len(),
{
    if members.len() == 0 {
        Seq::empty()
    } else {
        let prev = fn_members(members.drop_last());
        match members.last() {
            Some(m) => prev.push(m),
            None => prev,
        }
    }
}

/// For each attribute, its path as a string when that path is one identifier.
fn attr_names_of(attrs: &Vec<syn::Attribute>) -> (names: Vec<Option<String>>)
    ensures
        opt_texts(names@) == attr_idents(attrs@),
{
    let mut names: Vec<Option<String>> = Vec::new();
    let mut i: usize = 0;
    while i < attrs.len()
        invariant
            i <= attrs.len(),
            opt_texts(names@) == attr_idents(attrs@.take(i as int)),
        decreases attrs.len() - i,
    {
        let ghost before = names@;
        names.push(attr_ident(&attrs[i]));
        proof {
            assert(opt_texts(names@) =~= opt_texts(before).push(attr_path_ident(attrs@[i as int])));
            assert(attrs@.take(i + 1) =~= attrs@.take(i as int).push(attrs@[i as int]));
            assert(attr_idents(attrs@.take(i + 1)) =~= attr_idents(attrs@.take(i as int)).push(attr_path_ident(attrs@[i as int])));
        }
        i = i + 1;
    }
    assert(attrs@.take(attrs@.len() as int) =~= attrs@);
    names
}

/// What each attribute's path reads as, when it is one identifier.
pub open spec fn attr_idents(attrs: Seq<syn::Attribute>) -> Seq<Option<Seq<char>>> {
    attrs.map_values(|a: syn::Attribute| attr_path_ident(a))
}

/// The texts of a list of optional strings.
pub open spec fn opt_texts(v: Seq<Option<String>>) -> Seq<Option<Seq<char>>> {
    v.map_values(|o: Option<String>| match o {
        Some(s) => Some(s@),
        None => None,
    })
}

/// The facts of the `fn` members among an impl block's members, in order.
pub open spec fn fn_member_facts(members: Seq<Option<(Seq<char>, usize, bool, bool)>>) -> Seq<(Seq<char>, usize, bool, bool)>
    decreases members.len(),
{
    if members.len() == 0 {
        Seq::empty()
    } else {
        let prev = fn_member_facts(members.drop_last());
        match members.last() {
            Some(m) => prev.push(m),
            None => prev,
        }
    }
}

/// The facts of an optional method.
pub open spec fn opt_facts(m: Option<MethodInfo>) -> Option<(Seq<char>, usize, bool, bool)> {
    match m {
        Some(x) => Some(method_facts(x)),
        None => None,
    }
}

pub(crate) proof fn lemma_fn_member_facts(members: Seq<Option<MethodInfo>>)
    ensures
        fn_members(members).map_values(|m: MethodInfo| method_facts(m))
            == fn_member_facts(members.map_values(|m: Option<MethodInfo>| opt_facts(m))),
    decreases members.len(),
{
    if members.len() > 0 {
        lemma_fn_member_facts(members.drop_last());
        assert(members.map_values(|m: Option<MethodInfo>| opt_facts(m)).drop_last()
            =~= members.drop_last().map_values(|m: Option<MethodInfo>| opt_facts(m)));
        assert(fn_members(members).map_values(|m: MethodInfo| method_facts(m))
            =~= fn_member_facts(members.map_values(|m: Option<MethodInfo>| opt_facts(m))));
    }
}

/// Splits an impl block's members into the names of its methods and their
/// signature facts.
pub(crate) fn method_parts(members: Vec<Option<MethodInfo>>) -> (parts: (Vec<String>, Vec<MethodInfo>))
    ensures
        parts.1@ == fn_members(members@),
        parts.0@ == fn_members(members@).map_values(|m: MethodInfo| m.name),
{
    let mut names: Vec<String> = Vec::new();
    let mut infos: Vec<MethodInfo> = Vec::new();
    let mut i: usize = 0;
    while i < members.len()
        invariant
            i <= members.len(),
            infos@ == fn_members(members@.subrange(0, i as int)),
            names@ == fn_members(members@.subrange(0, i as int)).map_values(|m: MethodInfo| m.name),
        decreases members.len() - i,
    {
        assert(members@.subrange(0, i + 1).drop_last() =~= members@.subrange(0, i as int));
        match &members[i] {
            Some(m) => {
                let name = m.name.clone();
                let info = MethodInfo {
                    name: m.name.clone(),
                    params: m.params,
                    is_async: m.is_async,
                    is_unsafe: m.is_unsafe,
                };
                names.push(name);
                infos.push(info);
            },
            None => {},
        }
        i = i + 1;
        assert(names@ =~= fn_members(members@.subrange(0, i as int)).map_values(|m: MethodInfo| m.name));
    }
    assert(members@.subrange(0, members.len() as int) =~= members@);
    (names, infos)
}


/// Every impl entry of the file was found in the module `id`.
pub(crate) open spec fn impls_found_in(entries: Seq<FileEntry>, id: ModuleId) -> bool {
    forall|k: int| 0 <= k < entries.len() ==> (#[trigger] entries[k] matches FileEntry::Impl(r) ==> r.found_in_module == id)
}

/// An item named `name`, `pub` as `is_pub` says, with these attribute
/// names, carries the header `h` read off its node: its identifier, `pub`
/// exactly when the visibility is `pub` (not a restricted one), and what
/// each attribute's path reads as.
pub open spec fn header_agrees(name: Seq<char>, is_pub: bool, attr_names: Seq<Option<String>>, h: (Seq<char>, Vis, Seq<syn::Attribute>)) -> bool {
    &&& name == h.0
    &&& is_pub == (h.1 is Public)
    &&& opt_texts(attr_names) == attr_idents(h.2)
}

/// The name every item of a kind the walk does not handle gets.
pub open spec fn unhandled_name() -> Seq<char> {
    seq!['u', 'n', 'h', 'a', 'n', 'd', 'l', 'e', 'd']
}

/// An item with these parts agrees with the syntax of its node: header as
/// `header_agrees` says, variants of an enum as written (none for other
/// kinds), an inline module rather than a declaration; an item of a kind the
/// walk does not handle is named `unhandled`, private, without attributes.
pub open spec fn syntax_agrees(name: Seq<char>, is_pub: bool, attr_names: Seq<Option<String>>, variants: Seq<String>, kind: ItemKind) -> bool {
    match kind {
        ItemKind::Fn(f) => header_agrees(name, is_pub, attr_names, fn_header_of(f)) && variants.len() == 0,
        ItemKind::Enum(e) => header_agrees(name, is_pub, attr_names, enum_header_of(e)) && string_views(variants) == variant_names_of(e),
        ItemKind::Struct(st) => header_agrees(name, is_pub, attr_names, struct_header_of(st)) && variants.len() == 0,
        ItemKind::Trait(t) => header_agrees(name, is_pub, attr_names, trait_header_of(t)) && variants.len() == 0,
        ItemKind::Const(c) => header_agrees(name, is_pub, attr_names, const_header_of(c)) && variants.len() == 0,
        ItemKind::Module(m) => header_agrees(name, is_pub, attr_names, mod_header_of(m)) && !mod_is_decl(m) && variants.len() == 0,
        ItemKind::Unhandled => {
            &&& name == unhandled_name()
            &&& !is_pub
            &&& attr_names.len() == 0
            &&& variants.len() == 0
        },
    }
}

/// An item entry agrees with the syntax of its node.
pub open spec fn source_agrees(src: ItemSource) -> bool {
    syntax_agrees(src.name@, src.is_pub, src.attr_names@, src.variants@, src.kind)
}

/// A table item agrees with the syntax of its node.
pub open spec fn item_agrees(t: ModuleItem) -> bool {
    syntax_agrees(t.name@, t.is_pub, t.attr_names@, t.variants@, t.kind)
}

/// A raw impl found in module `id` agrees with the syntax of its node: its
/// target path is the self type's path (empty when the self type is not a
/// path), its trait path is the trait's path, its methods are the `fn`
/// members with their facts and names, and its attribute names are what its
/// attributes' paths read as.
pub(crate) open spec fn raw_agrees(r: RawImpl, id: ModuleId) -> bool {
    &&& r.found_in_module == id
    &&& string_views(r.target_path@) == (match impl_target_of(r.node) {
        Some(p) => p,
        None => Seq::empty(),
    })
    &&& impl_trait_path_of(r.node) == (match r.trait_path {
        Some(t) => Some(string_views(t@)),
        None => None::<Seq<Seq<char>>>,
    })
    &&& r.method_infos@.map_values(|m: MethodInfo| method_facts(m)) == fn_member_facts(impl_members_of(r.node))
    &&& r.methods@ == r.method_infos@.map_values(|m: MethodInfo| m.name)
    &&& opt_texts(r.attr_names@) == attr_idents(impl_attrs_of(r.node))
}

/// An entry of a file of module `id` agrees with its syntax.
pub(crate) open spec fn entry_read(e: FileEntry, id: ModuleId) -> bool {
    match e {
        FileEntry::Impl(r) => raw_agrees(r, id),
        FileEntry::Item(src) => source_agrees(src),
    }
}

/// The entry is of the kind the item reads as, holding the item's node: an impl block for an impl, the
/// item kind of the same name for the kinds the walk handles, `Unhandled`
/// for every other kind.
pub(crate) open spec fn entry_matches(e: FileEntry, item: syn::Item) -> bool {
    let c = item_class(item);
    match e {
        FileEntry::Impl(r) => c is Impl && r.node == impl_node_of(item),
        FileEntry::Item(src) => match src.kind {
            ItemKind::Fn(f) => c is Fn && f == fn_node_of(item),
            ItemKind::Enum(en) => c is Enum && en == enum_node_of(item),
            ItemKind::Struct(st) => c is Struct && st == struct_node_of(item),
            ItemKind::Trait(t) => c is Trait && t == trait_node_of(item),
            ItemKind::Const(k) => c is Const && k == const_node_of(item),
            ItemKind::Module(m) => c is Mod && m == mod_node_of(item),
            ItemKind::Unhandled => !(c is Fn || c is Enum || c is Struct || c is Trait || c is Const || c is Mod || c is Impl),
        },
    }
}

/// Reading `items` in order gave `entries` and `decls`: each item gave
/// either one entry of its kind that holds its node and agrees with its
/// syntax, or, for a `mod name;` declaration, the declared name.
pub(crate) open spec fn read_ok(items: Seq<syn::Item>, entries: Seq<FileEntry>, decls: Seq<String>, id: ModuleId) -> bool
    decreases items.len(),
{
    if items.len() == 0 {
        entries.len() == 0 && decls.len() == 0
    } else {
        let it = items.last();
        ||| {
            &&& entries.len() > 0
            &&& entry_read(entries.last(), id)
            &&& entry_matches(entries.last(), it)
            &&& read_ok(items.drop_last(), entries.drop_last(), decls, id)
        }
        ||| {
            &&& decls.len() > 0
            &&& item_class(it) is Mod
            &&& mod_is_decl(mod_node_of(it))
            &&& decls.last()@ == mod_header_of(mod_node_of(it)).0
            &&& read_ok(items.drop_last(), entries, decls.drop_last(), id)
        }
    }
}

/// A header read off a syntax tree, with `pub` decided from the visibility
/// and the attributes reduced to their identifier paths.
fn owned_header(header: (String, Vis, &Vec<syn::Attribute>)) -> (parts: (String, bool, Vec<Option<String>>))
    ensures
        parts.0@ == header.0@,
        parts.1 == (header.1 is Public),
        opt_texts(parts.2@) == attr_idents(header.2@),
{
    let (name, vis, attrs) = header;
    let is_pub = match vis {
        Vis::Public => true,
        _ => false,
    };
    (name, is_pub, attr_names_of(attrs))
}

/// An item entry from its header parts.
fn item_entry(parts: (String, bool, Vec<Option<String>>), variants: Vec<String>, kind: ItemKind) -> (e: FileEntry)
    ensures
        e == (FileEntry::Item(ItemSource { name: parts.0, is_pub: parts.1, attr_names: parts.2, variants, kind })),
{
    let (name, is_pub, attr_names) = parts;
    FileEntry::Item(ItemSource { name, is_pub, attr_names, variants, kind })
}

/// Reads one top-level item of a file in module `id`: a `mod name;`
/// declaration adds `name` to `decls`; an impl block becomes a raw impl with
/// its target path (empty when the self type is not a path), its trait path
/// and its methods; every other item becomes an item entry, kinds the walk
/// does not handle under the name `unhandled`.
fn read_item(item: syn::Item, id: &ModuleId, decls: &mut Vec<String>, entries: &mut Vec<FileEntry>)
    ensures
        ({
            ||| {
                &&& final(decls)@ == old(decls)@
                &&& final(entries)@.len() == old(entries)@.len() + 1
                &&& final(entries)@.drop_last() == old(entries)@
                &&& entry_read(final(entries)@.last(), *id)
                &&& entry_matches(final(entries)@.last(), item)
            }
            ||| {
                &&& final(entries)@ == old(entries)@
                &&& final(decls)@.len() == old(decls)@.len() + 1
                &&& final(decls)@.drop_last() == old(decls)@
                &&& item_class(item) is Mod
                &&& mod_is_decl(mod_node_of(item))
                &&& final(decls)@.last()@ == mod_header_of(mod_node_of(item)).0
            }
        }),
{
    let ghost before = entries@;
    let ghost before_decls = decls@;
    let ghost it = item;
    let classified = classify_item(item);
    match classified {
        SynItem::Fn(f) => {
            let parts = owned_header(fn_header(&f));
            let e = item_entry(parts, Vec::new(), ItemKind::Fn(f));
            entries.push(e);
            assert(entries@.drop_last() =~= before);
        },
        SynItem::Enum(en) => {
            let variants = enum_variant_names(&en);
            let parts = owned_header(enum_header(&en));
            let e = item_entry(parts, variants, ItemKind::Enum(en));
            entries.push(e);
            assert(entries@.drop_last() =~= before);
        },
        SynItem::Struct(st) => {
            let parts = owned_header(struct_header(&st));
            let e = item_entry(parts, Vec::new(), ItemKind::Struct(st));
            entries.push(e);
            assert(entries@.drop_last() =~= before);
        },
        SynItem::Trait(t) => {
            let parts = owned_header(trait_header(&t));
            let e = item_entry(parts, Vec::new(), ItemKind::Trait(t));
            entries.push(e);
            assert(entries@.drop_last() =~= before);
        },
        SynItem::Const(c) => {
            let parts = owned_header(const_header(&c));
            let e = item_entry(parts, Vec::new(), ItemKind::Const(c));
            entries.push(e);
            assert(entries@.drop_last() =~= before);
        },
        SynItem::Mod(m) => {
            if mod_is_declaration(&m) {
                let (name, _, _) = mod_header(&m);
                decls.push(name);
                assert(decls@.drop_last() =~= before_decls);
                assert(mod_is_decl(m) && mod_header_of(m).0 == decls@.last()@);
            } else {
                let parts = owned_header(mod_header(&m));
                let e = item_entry(parts, Vec::new(), ItemKind::Module(m));
                entries.push(e);
                assert(entries@.drop_last() =~= before);
            }
        },
        SynItem::Impl(i) => {
            let target = impl_target_segments(&i);
            let target_path = match target {
                Some(segments) => segments,
                None => Vec::new(),
            };
            assert(string_views(target_path@) =~= (match impl_target_of(i) {
                Some(p) => p,
                None => Seq::empty(),
            }));
            let trait_path = impl_trait_segments(&i);
            let members = impl_members(&i);
            proof {
                lemma_fn_member_facts(members@);
                assert(members@.map_values(|m: Option<MethodInfo>| opt_facts(m)) =~= impl_members_of(i));
            }
            let (methods, method_infos) = method_parts(members);
            let attr_names = attr_names_of(impl_attrs(&i));
            let raw = RawImpl {
                target_path,
                trait_path,
                methods,
                node: i,
                found_in_module: id.clone_id(),
                method_infos,
                attr_names,
            };
            entries.push(FileEntry::Impl(raw));
            assert(entries@.drop_last() =~= before);
        },
        SynItem::Other(_) => {
            let name = String::from_str("unhandled");
            proof {
                reveal_strlit("unhandled");
                assert(name@ =~= unhandled_name());
            }
            let e = FileEntry::Item(ItemSource {
                name,
                is_pub: false,
                attr_names: Vec::new(),
                variants: Vec::new(),
                kind: ItemKind::Unhandled,
            });
            entries.push(e);
            assert(entries@.drop_last() =~= before);
        },
    }
}

/// Parses one source file. A file that does not parse yields `None`; for
/// one that does, reading its top-level items in order gave its entries and
/// declared module names.
pub(crate) fn read_file(src: SourceText) -> (parsed: Option<ParsedFile>)
    ensures
        parsed is Some <==> parses_as_file(src.content@),
        parsed matches Some(p) ==> {
            &&& p.id.id_hash() == str_hash(src.path@)
            &&& p.id.file() == src.path@
            &&& p.path@ == src.path@
            &&& read_ok(source_items(src.content@), p.entries@, p.decls@, p.id)
            &&& entries_agree(p.entries@, p.id)
        },
{
    let SourceText { path, content } = src;
    let id = ModuleId::from(path.clone());
    let items = match parse_items(content.as_str()) {
        Some(items) => items,
        None => return None,
    };
    let ghost all = items@;
    let mut decls: Vec<String> = Vec::new();
    let mut entries: Vec<FileEntry> = Vec::new();
    for item in it: items
        invariant
            all == it.seq(),
            read_ok(all.take(it.index() as int), entries@, decls@, id),
            entries_agree(entries@, id),
    {
        let ghost k = it.index() as int;
        let ghost before = entries@;
        read_item(item, &id, &mut decls, &mut entries);
        proof {
            assert(all.take(k + 1).drop_last() =~= all.take(k));
            assert(all.take(k + 1).last() == all[k]);
            assert forall|j: int| 0 <= j < entries@.len() implies entry_read(#[trigger] entries@[j], id) by {
                if j < before.len() {
                    assert(entries@[j] == before[j]);
                }
            }
        }
    }
    assert(all.take(all.len() as int) =~= all);
    Some(ParsedFile { id, path, decls, entries })
}

/// Every entry agrees with its syntax.
pub(crate) open spec fn entries_agree(entries: Seq<FileEntry>, id: ModuleId) -> bool {
    forall|k: int| 0 <= k < entries.len() ==> entry_read(#[trigger] entries[k], id)
}

/// No two parsed files share a module id.
pub(crate) open spec fn ids_unique(parsed: Seq<ParsedFile>) -> bool {
    forall|i: int, j: int| 0 <= i < j < parsed.len() ==> parsed[i].id.id_hash() != parsed[j].id.id_hash()
}

/// Every parsed file's id is the hash of its path.
pub(crate) open spec fn files_wf(parsed: Seq<ParsedFile>) -> bool {
    forall|i: int| 0 <= i < parsed.len() ==> {
        &&& (#[trigger] parsed[i]).id.id_hash() == str_hash(parsed[i].path@)
        &&& parsed[i].id.file() == parsed[i].path@
        &&& impls_found_in(parsed[i].entries@, parsed[i].id)
        &&& entries_agree(parsed[i].entries@, parsed[i].id)
    }
}

/// Whether some parsed file has the given module id.
pub(crate) open spec fn has_file(parsed: Seq<ParsedFile>, hash: u64) -> bool {
    exists|i: int| 0 <= i < parsed.len() && (#[trigger] parsed[i]).id.id_hash() == hash
}

/// Position of the parsed file with the given module id.
pub(crate) fn find_file(parsed: &Vec<ParsedFile>, hash: u64) -> (r: Option<usize>)
    requires
        ids_unique(parsed@),
    ensures
        match r {
            Some(j) => j < parsed@.len() && parsed@[j as int].id.id_hash() == hash,
            None => !has_file(parsed@, hash),
        },
{
    let mut j: usize = 0;
    while j < parsed.len()
        invariant
            j <= parsed@.len(),
            forall|k: int| 0 <= k < j ==> (#[trigger] parsed@[k]).id.id_hash() != hash,
        decreases parsed.len() - j,
    {
        if parsed[j].id.hash_value() == hash {
            return Some(j);
        }
        j = j + 1;
    }
    None
}

/// `p` came from a source with the same path whose text parses.
pub(crate) open spec fn parsed_from(p: ParsedFile, srcs: Seq<SourceText>) -> bool {
    exists|k: int| 0 <= k < srcs.len() && (#[trigger] srcs[k]).path@ == p.path@ && parses_as_file(srcs[k].content@)
        && read_ok(source_items(srcs[k].content@), p.entries@, p.decls@, p.id)
}

/// Pass 1: parses every source. A file that does not parse is skipped; a
/// later file with the same module id replaces an earlier one.
fn parse_sources(sources: Vec<SourceText>) -> (parsed: Vec<ParsedFile>)
    ensures
        ids_unique(parsed@),
        files_wf(parsed@),
        forall|i: int| 0 <= i < parsed@.len() ==> parsed_from(#[trigger] parsed@[i], sources@),
        forall|k: int| 0 <= k < sources@.len() && parses_as_file((#[trigger] sources@[k]).content@)
            ==> has_file(parsed@, str_hash(sources@[k].path@)),
{
    let ghost srcs = sources@;
    let mut parsed: Vec<ParsedFile> = Vec::new();
    for src in it: sources
        invariant
            srcs == it.seq(),
            ids_unique(parsed@),
            files_wf(parsed@),
            forall|i: int| 0 <= i < parsed@.len() ==> parsed_from(#[trigger] parsed@[i], srcs),
            forall|k: int| 0 <= k < it.index() && parses_as_file((#[trigger] srcs[k]).content@)
                ==> has_file(parsed@, str_hash(srcs[k].path@)),
    {
        let ghost k0 = it.index();
        let ghost s0 = src;
        assert(srcs[k0] == s0);
        match read_file(src) {
            Some(pf) => {
                let ghost old_parsed = parsed@;
                let ghost pf_v = pf;
                match find_file(&parsed, pf.id.hash_value()) {
                    Some(j) => {
                        parsed.set(j, pf);
                        assert(parsed@ == old_parsed.update(j as int, pf_v));
                        assert(parsed@[j as int] == pf_v);
                    },
                    None => {
                        parsed.push(pf);
                        assert(parsed@[old_parsed.len() as int] == pf_v);
                    },
                }
                assert(parsed@.contains(pf_v));
                assert forall|k: int| 0 <= k < it.index() + 1 && parses_as_file((#[trigger] srcs[k]).content@)
                    implies has_file(parsed@, str_hash(srcs[k].path@)) by {
                    if k < k0 {
                        let i = choose|i: int| 0 <= i < old_parsed.len() && (#[trigger] old_parsed[i]).id.id_hash() == str_hash(srcs[k].path@);
                        if parsed@[i].id.id_hash() != old_parsed[i].id.id_hash() {
                            assert(parsed@[i] == pf_v);
                        }
                        assert(parsed@[i].id.id_hash() == str_hash(srcs[k].path@));
                    } else {
                        let i = choose|i: int| 0 <= i < parsed@.len() && parsed@[i] == pf_v;
                        assert(parsed@[i].id.id_hash() == str_hash(srcs[k].path@));
                    }
                }
                assert forall|i: int| 0 <= i < parsed@.len() implies parsed_from(#[trigger] parsed@[i], srcs) by {
                    if parsed@[i] == pf_v {
                        assert(parses_as_file(srcs[k0].content@));
                        assert(read_ok(source_items(srcs[k0].content@), pf_v.entries@, pf_v.decls@, pf_v.id));
                        assert(srcs[k0].path@ == parsed@[i].path@);
                        assert(0 <= k0 < srcs.len());
                    } else {
                        assert(old_parsed.contains(parsed@[i]));
                        let i0 = choose|i0: int| 0 <= i0 < old_parsed.len() && old_parsed[i0] == parsed@[i];
                        assert(parsed@[i] == old_parsed[i0]);
                    }
                }
            },
            None => {},
        }
    }
    parsed
}


/// The directory part of a path: everything up to and including its last
/// `/`; empty when it has none.
pub open spec fn dir_prefix(path: Seq<char>) -> Seq<char>
    decreases path.len(),
{
    if path.len() == 0 {
        path
    } else if path.last() == '/' {
        path
    } else {
        dir_prefix(path.drop_last())
    }
}

proof fn lemma_dir_prefix_at(path: Seq<char>, i: int)
    requires
        0 <= i <= path.len(),
        forall|k: int| i <= k < path.len() ==> path[k] != '/',
        i == 0 || path[i - 1] == '/',
    ensures
        dir_prefix(path) == path.subrange(0, i),
    decreases path.len(),
{
    if path.len() > i {
        lemma_dir_prefix_at(path.drop_last(), i);
        assert(path.drop_last().subrange(0, i) =~= path.subrange(0, i));
    } else {
        assert(path.subrange(0, i) =~= path);
        if i > 0 {
            assert(path.last() == '/');
        }
    }
}

/// The directory part of a path, as `dir_prefix` says.
fn dir_of(path: &str) -> (r: &str)
    ensures
        r@ == dir_prefix(path@),
{
    let v = chars_of(path);
    let mut i: usize = v.len();
    while i > 0 && v[i - 1] != '/'
        invariant
            v@ == path@,
            i <= v@.len(),
            forall|k: int| i <= k < v@.len() ==> v@[k] != '/',
        decreases i,
    {
        i = i - 1;
    }
    proof {
        lemma_dir_prefix_at(path@, i as int);
    }
    path.substring_char(0, i)
}

/// The file `dir/name.rs` that the declaration `mod name;`, made in a file
/// of the directory `dir` (as `dir_prefix` gives it), names first.
pub open spec fn flat_file(dir: Seq<char>, name: Seq<char>) -> Seq<char> {
    dir + name + seq!['.', 'r', 's']
}

/// The file `dir/name/mod.rs` that `mod name;` made in `dir` names when
/// there is no `dir/name.rs`.
pub open spec fn nested_file(dir: Seq<char>, name: Seq<char>) -> Seq<char> {
    dir + name + seq!['/', 'm', 'o', 'd', '.', 'r', 's']
}

/// The parsed file with the given module id.
pub(crate) open spec fn file_with(parsed: Seq<ParsedFile>, hash: u64) -> int {
    choose|j: int| 0 <= j < parsed.len() && (#[trigger] parsed[j]).id.id_hash() == hash
}

/// The file that `mod name;` made in `dir` links to: the parsed file of
/// `dir/name.rs` if there is one, else that of `dir/name/mod.rs`, if any.
pub(crate) open spec fn decl_file(parsed: Seq<ParsedFile>, dir: Seq<char>, name: Seq<char>) -> Option<int> {
    let flat = str_hash(flat_file(dir, name));
    let nested = str_hash(nested_file(dir, name));
    if has_file(parsed, flat) {
        Some(file_with(parsed, flat))
    } else if has_file(parsed, nested) {
        Some(file_with(parsed, nested))
    } else {
        None
    }
}

/// The declarations among `names`, made in `dir`, that link to a file, each
/// with the index of that file, in order.
pub(crate) open spec fn decl_links(parsed: Seq<ParsedFile>, dir: Seq<char>, names: Seq<String>) -> Seq<(Seq<char>, int)>
    decreases names.len(),
{
    if names.len() == 0 {
        Seq::empty()
    } else {
        let prev = decl_links(parsed, dir, names.drop_last());
        match decl_file(parsed, dir, names.last()@) {
            Some(j) => prev.push((names.last()@, j)),
            None => prev,
        }
    }
}

/// The children of file `i`: its declarations that link to a file beside it.
pub(crate) open spec fn links_of(parsed: Seq<ParsedFile>, i: int) -> Seq<(Seq<char>, int)> {
    decl_links(parsed, dir_prefix(parsed[i].path@), parsed[i].decls@)
}

/// `children` lists exactly the linked declarations, with the linked file's id.
pub(crate) open spec fn children_linked(children: Seq<(String, ModuleId)>, parsed: Seq<ParsedFile>, i: int) -> bool {
    let links = links_of(parsed, i);
    &&& children.len() == links.len()
    &&& forall|k: int| 0 <= k < children.len() ==> {
        &&& (#[trigger] children[k]).0@ == links[k].0
        &&& 0 <= links[k].1 < parsed.len()
        &&& children[k].1 == parsed[links[k].1].id
    }
}

/// Some source that parses has a path whose module id is `hash`.
pub open spec fn parses_at(sources: Seq<SourceText>, hash: u64) -> bool {
    exists|k: int| 0 <= k < sources.len() && parses_as_file((#[trigger] sources[k]).content@)
        && str_hash(sources[k].path@) == hash
}

/// The module id that `mod name;` made in `dir` resolves to: that of
/// `dir/name.rs` when a source there parses, else that of `dir/name/mod.rs`
/// when one there does; none otherwise.
pub open spec fn decl_target(sources: Seq<SourceText>, dir: Seq<char>, name: Seq<char>) -> Option<u64> {
    let flat = str_hash(flat_file(dir, name));
    let nested = str_hash(nested_file(dir, name));
    if parses_at(sources, flat) {
        Some(flat)
    } else if parses_at(sources, nested) {
        Some(nested)
    } else {
        None
    }
}

/// The names of the `mod name;` declarations (modules without a body) among
/// a file's top-level items, in order.
pub open spec fn declared_mods(items: Seq<syn::Item>) -> Seq<Seq<char>>
    decreases items.len(),
{
    if items.len() == 0 {
        Seq::empty()
    } else {
        let prev = declared_mods(items.drop_last());
        let it = items.last();
        if item_class(it) is Mod && mod_is_decl(mod_node_of(it)) {
            prev.push(mod_header_of(mod_node_of(it)).0)
        } else {
            prev
        }
    }
}

/// The declarations among `names`, made in `dir`, that resolve to a module,
/// each with that module's id, in order.
pub open spec fn module_links(sources: Seq<SourceText>, dir: Seq<char>, names: Seq<Seq<char>>) -> Seq<(Seq<char>, u64)>
    decreases names.len(),
{
    if names.len() == 0 {
        Seq::empty()
    } else {
        let prev = module_links(sources, dir, names.drop_last());
        match decl_target(sources, dir, names.last()) {
            Some(h) => prev.push((names.last(), h)),
            None => prev,
        }
    }
}

/// A module's children as declared names with module ids.
pub open spec fn child_links(children: Seq<(String, ModuleId)>) -> Seq<(Seq<char>, u64)> {
    children.map_values(|c: (String, ModuleId)| (c.0@, c.1.id_hash()))
}

/// The children of module `m` are exactly its source's `mod name;`
/// declarations that resolve to a module, in order, each with the id of
/// `name.rs` beside it, or failing that of `name/mod.rs`.
pub open spec fn children_declared(m: Module, sources: Seq<SourceText>) -> bool {
    exists|k: int| 0 <= k < sources.len() && (#[trigger] sources[k]).path@ == m.id.file() && parses_as_file(sources[k].content@)
        && child_links(m.children@) == module_links(sources, dir_prefix(m.id.file()), declared_mods(source_items(sources[k].content@)))
}

/// Reading a file gives as declarations the names of its `mod name;` items.
proof fn lemma_read_ok_decls(items: Seq<syn::Item>, entries: Seq<FileEntry>, decls: Seq<String>, id: ModuleId)
    requires
        read_ok(items, entries, decls, id),
    ensures
        decls.map_values(|s: String| s@) == declared_mods(items),
    decreases items.len(),
{
    if items.len() == 0 {
        assert(decls.map_values(|s: String| s@) =~= Seq::<Seq<char>>::empty());
    } else {
        let it = items.last();
        let d = items.drop_last();
        if entries.len() > 0 && entry_read(entries.last(), id) && entry_matches(entries.last(), it)
            && read_ok(d, entries.drop_last(), decls, id) {
            lemma_read_ok_decls(d, entries.drop_last(), decls, id);
            match entries.last() {
                FileEntry::Item(src) => {
                    assert(source_agrees(src));
                },
                FileEntry::Impl(r) => {},
            }
        } else {
            lemma_read_ok_decls(d, entries, decls.drop_last(), id);
            assert(decls.map_values(|s: String| s@) =~= decls.drop_last().map_values(|s: String| s@).push(decls.last()@));
        }
    }
}

/// Some parsed file has a module id exactly when some source that parses
/// has a path with that id.
proof fn lemma_has_file_parses_at(parsed: Seq<ParsedFile>, sources: Seq<SourceText>, hash: u64)
    requires
        files_wf(parsed),
        forall|i: int| 0 <= i < parsed.len() ==> parsed_from(#[trigger] parsed[i], sources),
        forall|k: int| 0 <= k < sources.len() && parses_as_file((#[trigger] sources[k]).content@)
            ==> has_file(parsed, str_hash(sources[k].path@)),
    ensures
        has_file(parsed, hash) <==> parses_at(sources, hash),
{
    if has_file(parsed, hash) {
        let i = choose|i: int| 0 <= i < parsed.len() && (#[trigger] parsed[i]).id.id_hash() == hash;
        assert(parsed_from(parsed[i], sources));
        let k = choose|k: int| 0 <= k < sources.len() && (#[trigger] sources[k]).path@ == parsed[i].path@
            && parses_as_file(sources[k].content@) && read_ok(source_items(sources[k].content@), parsed[i].entries@, parsed[i].decls@, parsed[i].id);
        assert(str_hash(sources[k].path@) == hash);
    }
    if parses_at(sources, hash) {
        let k = choose|k: int| 0 <= k < sources.len() && parses_as_file((#[trigger] sources[k]).content@)
            && str_hash(sources[k].path@) == hash;
        assert(has_file(parsed, str_hash(sources[k].path@)));
    }
}

/// The links of a file's declarations, read as names with module ids, are
/// the declarations' resolved modules.
proof fn lemma_links_resolve(parsed: Seq<ParsedFile>, sources: Seq<SourceText>, dir: Seq<char>, names: Seq<String>)
    requires
        ids_unique(parsed),
        files_wf(parsed),
        forall|i: int| 0 <= i < parsed.len() ==> parsed_from(#[trigger] parsed[i], sources),
        forall|k: int| 0 <= k < sources.len() && parses_as_file((#[trigger] sources[k]).content@)
            ==> has_file(parsed, str_hash(sources[k].path@)),
    ensures
        decl_links(parsed, dir, names).map_values(|l: (Seq<char>, int)| (l.0, parsed[l.1].id.id_hash()))
            == module_links(sources, dir, names.map_values(|s: String| s@)),
        forall|k: int| 0 <= k < decl_links(parsed, dir, names).len()
            ==> 0 <= (#[trigger] decl_links(parsed, dir, names)[k]).1 < parsed.len(),
    decreases names.len(),
{
    let views = names.map_values(|s: String| s@);
    if names.len() == 0 {
        assert(decl_links(parsed, dir, names).map_values(|l: (Seq<char>, int)| (l.0, parsed[l.1].id.id_hash()))
            =~= Seq::<(Seq<char>, u64)>::empty());
    } else {
        let n = names.last()@;
        lemma_links_resolve(parsed, sources, dir, names.drop_last());
        assert(views.drop_last() =~= names.drop_last().map_values(|s: String| s@));
        assert(views.last() == n);
        let flat = str_hash(flat_file(dir, n));
        let nested = str_hash(nested_file(dir, n));
        lemma_has_file_parses_at(parsed, sources, flat);
        lemma_has_file_parses_at(parsed, sources, nested);
        let prev = decl_links(parsed, dir, names.drop_last());
        if has_file(parsed, flat) {
            let j = file_with(parsed, flat);
            assert(0 <= j < parsed.len() && parsed[j].id.id_hash() == flat);
        } else if has_file(parsed, nested) {
            let j = file_with(parsed, nested);
            assert(0 <= j < parsed.len() && parsed[j].id.id_hash() == nested);
        }
        let cur = decl_links(parsed, dir, names);
        assert forall|k: int| 0 <= k < cur.len() implies 0 <= (#[trigger] cur[k]).1 < parsed.len() by {
            if k < prev.len() {
                assert(cur[k] == prev[k]);
            }
        }
        match decl_file(parsed, dir, n) {
            Some(j) => {
                assert(cur.map_values(|l: (Seq<char>, int)| (l.0, parsed[l.1].id.id_hash()))
                    =~= prev.map_values(|l: (Seq<char>, int)| (l.0, parsed[l.1].id.id_hash())).push((n, parsed[j].id.id_hash())));
            },
            None => {},
        }
    }
}

/// The file that `mod name;` made in `dir` links to, as `decl_file` says.
fn find_decl_file(parsed: &Vec<ParsedFile>, dir: &str, name: &str) -> (r: Option<usize>)
    requires
        ids_unique(parsed@),
    ensures
        r == (match decl_file(parsed@, dir@, name@) {
            Some(j) => Some(j as usize),
            None => None::<usize>,
        }),
        r matches Some(j) ==> j < parsed@.len() && decl_file(parsed@, dir@, name@) == Some(j as int),
{
    let mut flat = String::from_str(dir);
    flat.append(name);
    flat.append(".rs");
    let mut nested = String::from_str(dir);
    nested.append(name);
    nested.append("/mod.rs");
    proof {
        reveal_strlit(".rs");
        reveal_strlit("/mod.rs");
        assert(flat@ =~= flat_file(dir@, name@));
        assert(nested@ =~= nested_file(dir@, name@));
    }
    let flat_id = ModuleId::from(flat);
    match find_file(parsed, flat_id.hash_value()) {
        Some(j) => {
            assert(has_file(parsed@, flat_id.id_hash()));
            let ghost c = file_with(parsed@, flat_id.id_hash());
            assert(c == j) by {
                if c < j {
                    assert(parsed@[c].id.id_hash() != parsed@[j as int].id.id_hash());
                } else if c > j {
                    assert(parsed@[j as int].id.id_hash() != parsed@[c].id.id_hash());
                }
            }
            return Some(j);
        },
        None => {},
    }
    let nested_id = ModuleId::from(nested);
    match find_file(parsed, nested_id.hash_value()) {
        Some(j) => {
            assert(has_file(parsed@, nested_id.id_hash()));
            let ghost c = file_with(parsed@, nested_id.id_hash());
            assert(c == j) by {
                if c < j {
                    assert(parsed@[c].id.id_hash() != parsed@[j as int].id.id_hash());
                } else if c > j {
                    assert(parsed@[j as int].id.id_hash() != parsed@[c].id.id_hash());
                }
            }
            Some(j)
        },
        None => None,
    }
}

/// Pass 2: one module per parsed file, with the `mod name;` declarations of
/// the file linked to the files beside it that satisfy them by file name. A
/// declaration that no file satisfies is dropped.
fn link_modules(parsed: &Vec<ParsedFile>) -> (modules: Vec<Module>)
    requires
        ids_unique(parsed@),
    ensures
        modules@.len() == parsed@.len(),
        forall|i: int| 0 <= i < modules@.len() ==> {
            &&& (#[trigger] modules@[i]).id == parsed@[i].id
            &&& modules@[i].items@.len() == 0
            &&& modules@[i].mod_path@.len() == 0
            &&& children_linked(modules@[i].children@, parsed@, i)
        },
{
    let mut modules: Vec<Module> = Vec::new();
    let mut i: usize = 0;
    while i < parsed.len()
        invariant
            i <= parsed@.len(),
            ids_unique(parsed@),
            modules@.len() == i,
            forall|m: int| 0 <= m < i ==> {
                &&& (#[trigger] modules@[m]).id == parsed@[m].id
                &&& modules@[m].items@.len() == 0
                &&& modules@[m].mod_path@.len() == 0
                &&& children_linked(modules@[m].children@, parsed@, m)
            },
        decreases parsed.len() - i,
    {
        let decls = &parsed[i].decls;
        let dir = dir_of(parsed[i].path.as_str());
        let mut children: Vec<(String, ModuleId)> = Vec::new();
        let mut d: usize = 0;
        while d < decls.len()
            invariant
                i < parsed@.len(),
                ids_unique(parsed@),
                decls@ == parsed@[i as int].decls@,
                dir@ == dir_prefix(parsed@[i as int].path@),
                d <= decls@.len(),
                ({
                    let links = decl_links(parsed@, dir@, decls@.subrange(0, d as int));
                    &&& children@.len() == links.len()
                    &&& forall|k: int| 0 <= k < children@.len() ==> {
                        &&& (#[trigger] children@[k]).0@ == links[k].0
                        &&& 0 <= links[k].1 < parsed@.len()
                        &&& children@[k].1 == parsed@[links[k].1].id
                    }
                }),
            decreases decls.len() - d,
        {
            let ghost before = children@;
            assert(decls@.subrange(0, d + 1).drop_last() =~= decls@.subrange(0, d as int));
            assert(decls@.subrange(0, d + 1).last() == decls@[d as int]);
            let found = find_decl_file(parsed, dir, decls[d].as_str());
            match found {
                Some(j) => {
                    children.push((decls[d].clone(), parsed[j].id.clone_id()));
                    assert(decl_links(parsed@, dir@, decls@.subrange(0, d + 1))
                        == decl_links(parsed@, dir@, decls@.subrange(0, d as int)).push((decls@[d as int]@, j as int)));
                },
                None => {
                    assert(decl_links(parsed@, dir@, decls@.subrange(0, d + 1))
                        == decl_links(parsed@, dir@, decls@.subrange(0, d as int)));
                },
            }
            d = d + 1;
            proof {
                let links = decl_links(parsed@, dir@, decls@.subrange(0, d as int));
                assert forall|k: int| 0 <= k < children@.len() implies {
                    &&& (#[trigger] children@[k]).0@ == links[k].0
                    &&& 0 <= links[k].1 < parsed@.len()
                    &&& children@[k].1 == parsed@[links[k].1].id
                } by {
                    if k < before.len() {
                        assert(children@[k] == before[k]);
                    }
                }
            }
        }
        assert(decls@.subrange(0, decls@.len() as int) =~= decls@);
        let module = Module {
            id: parsed[i].id.clone_id(),
            items: Vec::new(),
            children,
            mod_path: String::new(),
        };
        let ghost old_modules = modules@;
        modules.push(module);
        proof {
            assert(children_linked(modules@[i as int].children@, parsed@, i as int));
            assert forall|m: int| 0 <= m < i + 1 implies {
                &&& (#[trigger] modules@[m]).id == parsed@[m].id
                &&& modules@[m].items@.len() == 0
                &&& modules@[m].mod_path@.len() == 0
                &&& children_linked(modules@[m].children@, parsed@, m)
            } by {
                if m < i {
                    assert(modules@[m] == old_modules[m]);
                }
            }
        }
        i = i + 1;
    }
    modules
}


/// A copy of a module's children.
fn clone_children(children: &Vec<(String, ModuleId)>) -> (c: Vec<(String, ModuleId)>)
    ensures
        c@ == children@,
{
    let mut c: Vec<(String, ModuleId)> = Vec::new();
    let mut k: usize = 0;
    while k < children.len()
        invariant
            k <= children@.len(),
            c@ == children@.subrange(0, k as int),
        decreases children.len() - k,
    {
        let (name, id) = &children[k];
        c.push((name.clone(), id.clone_id()));
        k = k + 1;
        assert(c@ =~= children@.subrange(0, k as int));
    }
    assert(children@.subrange(0, children@.len() as int) =~= children@);
    c
}

/// `kept[x]` is the module of parsed file `idx[x]`, for the reached files
/// in increasing order, with the path the walk gave it.
pub(crate) open spec fn kept_from(
    kept: Seq<Module>,
    parsed: Seq<ParsedFile>,
    modules: Seq<Module>,
    reached: Seq<bool>,
    paths: Seq<String>,
    idx: Seq<int>,
    upto: int,
) -> bool {
    &&& idx.len() == kept.len()
    &&& forall|x: int, y: int| 0 <= x < y < idx.len() ==> (#[trigger] idx[x]) < (#[trigger] idx[y])
    &&& forall|x: int| 0 <= x < idx.len() ==> {
        &&& 0 <= (#[trigger] idx[x]) < upto
        &&& reached[idx[x]]
        &&& kept[x].id == parsed[idx[x]].id
        &&& kept[x].mod_path@ == paths[idx[x]]@
        &&& kept[x].children@ == modules[idx[x]].children@
    }
    &&& forall|i: int| 0 <= i < upto && #[trigger] reached[i] ==> exists|x: int| 0 <= x < idx.len() && idx[x] == i
}

/// Some enumeration of the reached files gives `kept`, as `kept_from` says.
pub(crate) open spec fn kept_reached(
    kept: Seq<Module>,
    parsed: Seq<ParsedFile>,
    modules: Seq<Module>,
    reached: Seq<bool>,
    paths: Seq<String>,
) -> bool {
    exists|idx: Seq<int>| kept_from(kept, parsed, modules, reached, paths, idx, parsed.len() as int)
}

/// The name the item table gives what is read off `item`: the identifier
/// of its node for the kinds the walk reads, `unhandled` for every other
/// kind; none for an impl block or a `mod name;` declaration.
pub open spec fn item_name_of(item: syn::Item) -> Option<Seq<char>> {
    match item_class(item) {
        ItemClass::Fn => Some(fn_header_of(fn_node_of(item)).0),
        ItemClass::Enum => Some(enum_header_of(enum_node_of(item)).0),
        ItemClass::Struct => Some(struct_header_of(struct_node_of(item)).0),
        ItemClass::Trait => Some(trait_header_of(trait_node_of(item)).0),
        ItemClass::Const => Some(const_header_of(const_node_of(item)).0),
        ItemClass::Mod => if mod_is_decl(mod_node_of(item)) {
            None
        } else {
            Some(mod_header_of(mod_node_of(item)).0)
        },
        ItemClass::Impl => None,
        _ => Some(unhandled_name()),
    }
}

/// Some item entry is named `name`.
pub(crate) open spec fn has_item_entry(entries: Seq<FileEntry>, name: Seq<char>) -> bool {
    exists|e: int| 0 <= e < entries.len() && (#[trigger] entries[e] matches FileEntry::Item(src) && src.name@ == name)
}

/// Reading a file keeps an item entry, under the item's name, for every
/// item the table names.
proof fn lemma_read_ok_names(items: Seq<syn::Item>, entries: Seq<FileEntry>, decls: Seq<String>, id: ModuleId)
    requires
        read_ok(items, entries, decls, id),
    ensures
        forall|j: int| 0 <= j < items.len() && (#[trigger] item_name_of(items[j])) is Some
            ==> has_item_entry(entries, item_name_of(items[j])->0),
    decreases items.len(),
{
    if items.len() > 0 {
        let it = items.last();
        let d = items.drop_last();
        if entries.len() > 0 && entry_read(entries.last(), id) && entry_matches(entries.last(), it)
            && read_ok(d, entries.drop_last(), decls, id) {
            lemma_read_ok_names(d, entries.drop_last(), decls, id);
            assert forall|j: int| 0 <= j < items.len() && (#[trigger] item_name_of(items[j])) is Some
                implies has_item_entry(entries, item_name_of(items[j])->0) by {
                if j < d.len() {
                    assert(items[j] == d[j]);
                    assert(item_name_of(d[j]) is Some);
                    let e = choose|e: int| 0 <= e < entries.drop_last().len()
                        && (#[trigger] entries.drop_last()[e] matches FileEntry::Item(src) && src.name@ == item_name_of(d[j])->0);
                    assert(entries[e] == entries.drop_last()[e]);
                } else {
                    assert(items[j] == it);
                    assert(entries[entries.len() - 1] == entries.last());
                }
            }
        } else {
            lemma_read_ok_names(d, entries, decls.drop_last(), id);
            assert forall|j: int| 0 <= j < items.len() && (#[trigger] item_name_of(items[j])) is Some
                implies has_item_entry(entries, item_name_of(items[j])->0) by {
                if j < d.len() {
                    assert(items[j] == d[j]);
                    assert(item_name_of(d[j]) is Some);
                } else {
                    assert(items[j] == it);
                }
            }
        }
    }
}

/// Every item entry among the first `upto` has an item of the table under
/// the id of its name in the module with path `path`.
pub(crate) open spec fn names_kept(ents: Seq<FileEntry>, upto: int, items: Seq<ModuleItem>, path: Seq<char>) -> bool {
    forall|e: int| 0 <= e < upto ==> (#[trigger] ents[e] matches FileEntry::Item(src)
        ==> table_has(items, spec_item_id(path, src.name@)))
}

proof fn lemma_names_kept_mono(ents: Seq<FileEntry>, upto: int, a: Seq<ModuleItem>, b: Seq<ModuleItem>, path: Seq<char>)
    requires
        names_kept(ents, upto, a, path),
        forall|id: ItemId| table_has(a, id) ==> table_has(b, id),
    ensures
        names_kept(ents, upto, b, path),
{
    assert forall|e: int| 0 <= e < upto implies (#[trigger] ents[e] matches FileEntry::Item(src)
        ==> table_has(b, spec_item_id(path, src.name@))) by {
        match ents[e] {
            FileEntry::Item(src) => {
                assert(table_has(a, spec_item_id(path, src.name@)));
            },
            _ => {},
        }
    }
}

/// Some source of module `m` parses, and every item of its text that the
/// table names has an item of the table under the id of that name in `m`.
pub(crate) open spec fn module_items_read(m: Module, sources: Seq<SourceText>, items: Seq<ModuleItem>) -> bool {
    exists|k: int| 0 <= k < sources.len() && (#[trigger] sources[k]).path@ == m.id.file() && parses_as_file(sources[k].content@)
        && source_items_named(source_items(sources[k].content@), items, m.mod_path@)
}

/// Every item of `its` that the table names has an item of the table under
/// the id of that name in the module with path `path`.
pub open spec fn source_items_named(its: Seq<syn::Item>, items: Seq<ModuleItem>, path: Seq<char>) -> bool {
    forall|j: int| 0 <= j < its.len() && (#[trigger] item_name_of(its[j])) is Some
        ==> table_has(items, spec_item_id(path, item_name_of(its[j])->0))
}

/// Some raw impl found in module `id` has the impl block `node`.
pub(crate) open spec fn raw_with_node(raws: Seq<RawImpl>, node: syn::ItemImpl, id: ModuleId) -> bool {
    exists|w: int| 0 <= w < raws.len() && (#[trigger] raws[w]).node == node && raws[w].found_in_module == id
}

/// Every impl block of the source text `content` has a raw impl found in
/// module `id`.
pub(crate) open spec fn source_impls_raw(content: Seq<char>, raws: Seq<RawImpl>, id: ModuleId) -> bool {
    forall|j: int| 0 <= j < source_items(content).len() && (#[trigger] item_class(source_items(content)[j])) is Impl
        ==> raw_with_node(raws, impl_node_of(source_items(content)[j]), id)
}

/// Some source of module `m` parses and has every impl block of its text
/// among the raw impls found in `m`.
pub(crate) open spec fn module_impls_read(m: Module, sources: Seq<SourceText>, raws: Seq<RawImpl>) -> bool {
    exists|k: int| 0 <= k < sources.len() && (#[trigger] sources[k]).path@ == m.id.file() && parses_as_file(sources[k].content@)
        && source_impls_raw(sources[k].content@, raws, m.id)
}

/// Every impl entry among the first `upto` entries is one of `raws`.
pub(crate) open spec fn impls_kept(ents: Seq<FileEntry>, upto: int, raws: Seq<RawImpl>) -> bool {
    forall|e: int| 0 <= e < upto ==> (#[trigger] ents[e] matches FileEntry::Impl(r) ==> raws.contains(r))
}

proof fn lemma_impls_kept_extend(ents: Seq<FileEntry>, upto: int, raws: Seq<RawImpl>, more: Seq<RawImpl>)
    requires
        impls_kept(ents, upto, raws),
        more.len() >= raws.len(),
        more.take(raws.len() as int) == raws,
    ensures
        impls_kept(ents, upto, more),
{
    assert forall|e: int| 0 <= e < upto implies (#[trigger] ents[e] matches FileEntry::Impl(r) ==> more.contains(r)) by {
        match ents[e] {
            FileEntry::Impl(r) => {
                let w = choose|w: int| 0 <= w < raws.len() && raws[w] == r;
                assert(more[w] == more.take(raws.len() as int)[w]);
            },
            _ => {},
        }
    }
}

/// The impl block `node` is the node of some entry.
pub(crate) open spec fn has_impl_entry(entries: Seq<FileEntry>, node: syn::ItemImpl) -> bool {
    exists|e: int| 0 <= e < entries.len() && (#[trigger] entries[e] matches FileEntry::Impl(r) && r.node == node)
}

/// Reading a file keeps an entry for every impl item.
proof fn lemma_read_ok_impls(items: Seq<syn::Item>, entries: Seq<FileEntry>, decls: Seq<String>, id: ModuleId)
    requires
        read_ok(items, entries, decls, id),
    ensures
        forall|j: int| 0 <= j < items.len() && (#[trigger] item_class(items[j])) is Impl
            ==> has_impl_entry(entries, impl_node_of(items[j])),
    decreases items.len(),
{
    if items.len() > 0 {
        let it = items.last();
        let d = items.drop_last();
        if entries.len() > 0 && entry_read(entries.last(), id) && entry_matches(entries.last(), it)
            && read_ok(d, entries.drop_last(), decls, id) {
            lemma_read_ok_impls(d, entries.drop_last(), decls, id);
            assert forall|j: int| 0 <= j < items.len() && (#[trigger] item_class(items[j])) is Impl
                implies has_impl_entry(entries, impl_node_of(items[j])) by {
                if j < d.len() {
                    assert(items[j] == d[j]);
                    assert(item_class(d[j]) is Impl);
                    let e = choose|e: int| 0 <= e < entries.drop_last().len()
                        && (#[trigger] entries.drop_last()[e] matches FileEntry::Impl(r) && r.node == impl_node_of(d[j]));
                    assert(entries[e] == entries.drop_last()[e]);
                } else {
                    assert(items[j] == it);
                    assert(entries[entries.len() - 1] == entries.last());
                }
            }
        } else {
            lemma_read_ok_impls(d, entries, decls.drop_last(), id);
            assert forall|j: int| 0 <= j < items.len() && (#[trigger] item_class(items[j])) is Impl
                implies has_impl_entry(entries, impl_node_of(items[j])) by {
                if j < d.len() {
                    assert(items[j] == d[j]);
                    assert(item_class(d[j]) is Impl);
                } else {
                    assert(items[j] == it);
                }
            }
        }
    }
}

/// Pass 4: for each reached file, in order, the module with its path and the
/// ids of its items; the items themselves, placed in their modules; and the
/// impl blocks, still unresolved.
#[verifier::rlimit(30)]
fn lower_modules(parsed: Vec<ParsedFile>, modules: &Vec<Module>, reached: &Vec<bool>, paths: &Vec<String>)
    -> (r: (Vec<Module>, Vec<RawImpl>, Vec<ModuleItem>))
    requires
        modules@.len() == parsed@.len(),
        reached@.len() == parsed@.len(),
        paths@.len() == parsed@.len(),
        files_wf(parsed@),
        forall|i: int| 0 <= i < modules@.len() ==> (#[trigger] modules@[i]).id == parsed@[i].id,
    ensures
        kept_reached(r.0@, parsed@, modules@, reached@, paths@),
        items_consistent(r.0@, r.2@),
        items_listed(r.0@, r.2@),
        raws_placed(r.0@, r.1@),
        forall|t: int| 0 <= t < r.2@.len() ==> item_agrees(#[trigger] r.2@[t]),
        forall|k: int| 0 <= k < r.1@.len() ==> raw_agrees(#[trigger] r.1@[k], r.1@[k].found_in_module),
        forall|i: int| 0 <= i < parsed@.len() && #[trigger] reached@[i]
            ==> impls_kept(parsed@[i].entries@, parsed@[i].entries@.len() as int, r.1@),
        forall|i: int| 0 <= i < parsed@.len() && #[trigger] reached@[i]
            ==> names_kept(parsed@[i].entries@, parsed@[i].entries@.len() as int, r.2@, paths@[i]@),
{
    let ghost ps = parsed@;
    let n = parsed.len();
    let mut kept: Vec<Module> = Vec::new();
    let mut raws: Vec<RawImpl> = Vec::new();
    let mut items: Vec<ModuleItem> = Vec::new();
    let ghost mut idx: Seq<int> = Seq::empty();
    let mut i: usize = 0;
    for pf in it: parsed
        invariant
            ps == it.seq(),
            i == it.index(),
            ps.len() == n,
            ps.len() == modules@.len(),
            reached@.len() == ps.len(),
            paths@.len() == ps.len(),
            files_wf(ps),
            forall|m: int| 0 <= m < modules@.len() ==> (#[trigger] modules@[m]).id == ps[m].id,
            kept_from(kept@, ps, modules@, reached@, paths@, idx, i as int),
            items_consistent(kept@, items@),
            items_listed(kept@, items@),
            raws_placed(kept@, raws@),
            forall|t: int| 0 <= t < items@.len() ==> item_agrees(#[trigger] items@[t]),
            forall|k: int| 0 <= k < raws@.len() ==> raw_agrees(#[trigger] raws@[k], raws@[k].found_in_module),
            forall|i2: int| 0 <= i2 < i && #[trigger] reached@[i2]
                ==> impls_kept(ps[i2].entries@, ps[i2].entries@.len() as int, raws@),
            forall|i2: int| 0 <= i2 < i && #[trigger] reached@[i2]
                ==> names_kept(ps[i2].entries@, ps[i2].entries@.len() as int, items@, paths@[i2]@),
    {
        assert(ps[i as int] == pf);
        let ghost raws_start = raws@;
        if reached[i] {
            let ParsedFile { id, path: _, decls: _, entries } = pf;
            let mod_path = paths[i].clone();
            let ghost x_new = kept@.len() as int;
            let mut item_ids: Vec<ItemId> = Vec::new();
            let ghost kept_old = kept@;
            let ghost module_id = id;
            assert(impls_found_in(entries@, id));
            assert(entries_agree(entries@, id));
            let ghost ents = entries@;
            assert(ents == ps[i as int].entries@);
            for e in it2: entries
                invariant
                    ents == it2.seq(),
                    raws@.len() >= raws_start.len(),
                    raws@.take(raws_start.len() as int) == raws_start,
                    impls_kept(ents, it2.index() as int, raws@),
                    names_kept(ents, it2.index() as int, items@, mod_path@),
                    forall|i2: int| 0 <= i2 < i && #[trigger] reached@[i2]
                        ==> names_kept(ps[i2].entries@, ps[i2].entries@.len() as int, items@, paths@[i2]@),
                    impls_found_in(ents, module_id),
                    entries_agree(ents, module_id),
                    forall|t: int| 0 <= t < items@.len() ==> item_agrees(#[trigger] items@[t]),
                    forall|k: int| 0 <= k < raws@.len() ==> raw_agrees(#[trigger] raws@[k], raws@[k].found_in_module),
                    id == module_id,
                    mod_path@ == paths@[i as int]@,
                    ids_distinct(items@),
                    forall|t: int| 0 <= t < items@.len() ==> {
                        ||| item_placed(kept_old, #[trigger] items@[t])
                        ||| (items@[t].parent == module_id && items@[t].mod_path@ == mod_path@
                            && items@[t].id == spec_item_id(items@[t].mod_path@, items@[t].name@))
                    },
                    forall|x: int, k: int| 0 <= x < kept_old.len() && 0 <= k < kept_old[x].items@.len()
                        ==> table_has(items@, (#[trigger] kept_old[x].items@[k])),
                    forall|k: int| 0 <= k < item_ids@.len() ==> table_has(items@, #[trigger] item_ids@[k]),
                    forall|t: int| 0 <= t < items@.len() ==> {
                        ||| exists|x: int| 0 <= x < kept_old.len()
                            && (#[trigger] kept_old[x]).id == (#[trigger] items@[t]).parent && kept_old[x].items@.contains(items@[t].id)
                        ||| (items@[t].parent == module_id && item_ids@.contains(items@[t].id))
                    },
                    forall|r: int| 0 <= r < raws@.len() ==> {
                        ||| has_module(kept_old, (#[trigger] raws@[r]).found_in_module.id_hash())
                        ||| raws@[r].found_in_module == module_id
                    },
            {
                let ghost k_e = it2.index();
                assert(ents[k_e] == e);
                match e {
                    FileEntry::Impl(raw) => {
                        assert(raw.found_in_module == module_id);
                        let ghost old_raws = raws@;
                        assert(entry_read(ents[k_e], module_id));
                        let ghost raw_v = raw;
                        raws.push(raw);
                        proof {
                            assert(old_raws.push(raw_v) == raws@);
                            assert(raws@.take(raws_start.len() as int) =~= old_raws.take(raws_start.len() as int));
                            assert(raws@.take(old_raws.len() as int) =~= old_raws);
                            lemma_impls_kept_extend(ents, k_e as int, old_raws, raws@);
                            assert(raws@[old_raws.len() as int] == raw_v);
                            assert forall|e2: int| 0 <= e2 < k_e + 1 implies (#[trigger] ents[e2] matches FileEntry::Impl(r) ==> raws@.contains(r)) by {
                                if e2 == k_e {
                                    assert(ents[e2] == FileEntry::Impl(raw_v));
                                }
                            }
                        }
                        assert forall|k: int| 0 <= k < raws@.len() implies raw_agrees(#[trigger] raws@[k], raws@[k].found_in_module) by {
                            if k < old_raws.len() {
                                assert(raws@[k] == old_raws[k]);
                            }
                        }
                        assert forall|r: int| 0 <= r < raws@.len() implies {
                            ||| has_module(kept_old, (#[trigger] raws@[r]).found_in_module.id_hash())
                            ||| raws@[r].found_in_module == module_id
                        } by {
                            if r < old_raws.len() {
                                assert(raws@[r] == old_raws[r]);
                            }
                        }
                    },
                    FileEntry::Item(src) => {
                        assert(entry_read(ents[k_e], module_id));
                        let item = lower_items(src, &id, mod_path.as_str());
                        let ghost old_items = items@;
                        let ghost new_item = item;
                        assert(item_agrees(new_item));
                        let ghost old_ids = item_ids@;
                        item_ids.push(item.id);
                        insert_item(&mut items, item);
                        proof {
                            lemma_names_kept_mono(ents, k_e as int, old_items, items@, mod_path@);
                            assert forall|i2: int| 0 <= i2 < i && #[trigger] reached@[i2]
                                implies names_kept(ps[i2].entries@, ps[i2].entries@.len() as int, items@, paths@[i2]@) by {
                                lemma_names_kept_mono(ps[i2].entries@, ps[i2].entries@.len() as int, old_items, items@, paths@[i2]@);
                            }
                            assert forall|e2: int| 0 <= e2 < k_e + 1 implies (#[trigger] ents[e2] matches FileEntry::Item(s2)
                                ==> table_has(items@, spec_item_id(mod_path@, s2.name@))) by {
                                if e2 == k_e {
                                    assert(table_has(items@, new_item.id));
                                }
                            }
                        }
                        assert forall|t: int| 0 <= t < items@.len() implies {
                            ||| item_placed(kept_old, #[trigger] items@[t])
                            ||| (items@[t].parent == module_id && items@[t].mod_path@ == mod_path@
                                && items@[t].id == spec_item_id(items@[t].mod_path@, items@[t].name@))
                        } by {
                            if items@[t] != new_item {
                                assert(old_items.contains(items@[t]));
                                let w = choose|w: int| 0 <= w < old_items.len() && old_items[w] == items@[t];
                                assert(old_items[w] == items@[t]);
                            }
                        }
                        assert forall|t: int| 0 <= t < items@.len() implies item_agrees(#[trigger] items@[t]) by {
                            if items@[t] != new_item {
                                assert(old_items.contains(items@[t]));
                                let w = choose|w: int| 0 <= w < old_items.len() && old_items[w] == items@[t];
                                assert(item_agrees(old_items[w]));
                            }
                        }
                        assert(item_ids@[item_ids@.len() - 1] == new_item.id);
                        assert forall|t: int| 0 <= t < items@.len() implies {
                            ||| exists|x: int| 0 <= x < kept_old.len()
                                && (#[trigger] kept_old[x]).id == (#[trigger] items@[t]).parent && kept_old[x].items@.contains(items@[t].id)
                            ||| (items@[t].parent == module_id && item_ids@.contains(items@[t].id))
                        } by {
                            if items@[t] == new_item {
                                assert(item_ids@.contains(new_item.id));
                            } else {
                                assert(old_items.contains(items@[t]));
                                let w = choose|w: int| 0 <= w < old_items.len() && old_items[w] == items@[t];
                                assert(old_items[w] == items@[t]);
                                if old_items[w].parent == module_id && old_ids.contains(old_items[w].id) {
                                    let j = choose|j: int| 0 <= j < old_ids.len() && old_ids[j] == old_items[w].id;
                                    assert(item_ids@[j] == old_ids[j]);
                                    assert(item_ids@.contains(items@[t].id));
                                }
                            }
                        }
                        assert forall|k: int| 0 <= k < item_ids@.len() implies table_has(items@, #[trigger] item_ids@[k]) by {
                            if k < old_ids.len() {
                                assert(item_ids@[k] == old_ids[k]);
                                assert(table_has(old_items, old_ids[k]));
                            }
                        }
                        assert forall|x: int, k: int| 0 <= x < kept_old.len() && 0 <= k < kept_old[x].items@.len()
                            implies table_has(items@, (#[trigger] kept_old[x].items@[k])) by {
                            assert(table_has(old_items, kept_old[x].items@[k]));
                        }
                    },
                }
            }
            let module = Module {
                id,
                items: item_ids,
                children: clone_children(&modules[i].children),
                mod_path,
            };
            let ghost new_module = module;
            kept.push(module);
            proof {
                let idx_old = idx;
                idx = idx.push(i as int);
                assert(kept@ == kept_old.push(new_module));
                assert(has_module(kept@, module_id.id_hash())) by {
                    assert(kept@[x_new].id == module_id);
                }
                assert forall|r: int| 0 <= r < raws@.len() implies has_module(kept@, (#[trigger] raws@[r]).found_in_module.id_hash()) by {
                    if has_module(kept_old, raws@[r].found_in_module.id_hash()) {
                        let w = choose|w: int| 0 <= w < kept_old.len() && (#[trigger] kept_old[w]).id.id_hash() == raws@[r].found_in_module.id_hash();
                        assert(kept@[w] == kept_old[w]);
                    }
                }
                assert forall|t: int| 0 <= t < items@.len() implies item_placed(kept@, #[trigger] items@[t]) by {
                    if item_placed(kept_old, items@[t]) {
                        let w = choose|w: int| 0 <= w < kept_old.len() && (#[trigger] kept_old[w]).id == items@[t].parent && kept_old[w].mod_path@ == items@[t].mod_path@;
                        assert(kept@[w] == kept_old[w]);
                    } else {
                        assert(kept@[x_new].id == items@[t].parent);
                    }
                }
                assert forall|x: int, k: int| 0 <= x < kept@.len() && 0 <= k < kept@[x].items@.len()
                    implies table_has(items@, (#[trigger] kept@[x].items@[k])) by {
                    if x < kept_old.len() {
                        assert(kept@[x] == kept_old[x]);
                    }
                }
                assert forall|t: int| 0 <= t < items@.len() implies exists|x: int| 0 <= x < kept@.len()
                    && (#[trigger] kept@[x]).id == (#[trigger] items@[t]).parent && kept@[x].items@.contains(items@[t].id) by {
                    if exists|x: int| 0 <= x < kept_old.len()
                        && (#[trigger] kept_old[x]).id == (#[trigger] items@[t]).parent && kept_old[x].items@.contains(items@[t].id) {
                        let x = choose|x: int| 0 <= x < kept_old.len()
                            && (#[trigger] kept_old[x]).id == (#[trigger] items@[t]).parent && kept_old[x].items@.contains(items@[t].id);
                        assert(kept@[x] == kept_old[x]);
                    } else {
                        assert(kept@[x_new] == new_module);
                    }
                }
                assert forall|j: int| 0 <= j < i + 1 && #[trigger] reached@[j] implies exists|x: int| 0 <= x < idx.len() && idx[x] == j by {
                    if j == i {
                        assert(idx[x_new] == j);
                    } else {
                        let w = choose|w: int| 0 <= w < idx_old.len() && idx_old[w] == j;
                        assert(idx[w] == j);
                    }
                }
                assert(kept_from(kept@, ps, modules@, reached@, paths@, idx, i + 1));
            }
        } else {
            proof {
                assert forall|j: int| 0 <= j < i + 1 && #[trigger] reached@[j] implies exists|x: int| 0 <= x < idx.len() && idx[x] == j by {
                    assert(j != i);
                }
            }
        }
        i = i + 1;
    }
    proof {
        assert(kept_from(kept@, parsed@, modules@, reached@, paths@, idx, parsed@.len() as int));
        assert(kept_reached(kept@, parsed@, modules@, reached@, paths@));
    }
    (kept, raws, items)
}


/// The modules kept after the walk form the module tree rooted at the entry.
proof fn lemma_kept_tree(
    parsed: Seq<ParsedFile>,
    modules: Seq<Module>,
    reached: Seq<bool>,
    paths: Seq<String>,
    entry: int,
    kept: Seq<Module>,
)
    requires
        ids_unique(parsed),
        modules.len() == parsed.len(),
        0 <= entry < parsed.len(),
        forall|i: int| 0 <= i < modules.len() ==> {
            &&& (#[trigger] modules[i]).id == parsed[i].id
            &&& children_linked(modules[i].children@, parsed, i)
        },
        walk_done(parsed, reached, paths, entry),
        kept_reached(kept, parsed, modules, reached, paths),
    ensures
        module_tree(kept, parsed[entry].id.id_hash()),
{
    let n = parsed.len();
    let root = parsed[entry].id.id_hash();
    let idx = choose|idx: Seq<int>| kept_from(kept, parsed, modules, reached, paths, idx, n as int);
    let (par, via, depth) = choose|par: Seq<int>, via: Seq<int>, depth: Seq<nat>| tree_ok(parsed, reached, paths, entry, par, via, depth)
        && bfs_ok(parsed, reached, entry, par, depth);
    // ids are distinct
    assert forall|x: int, y: int| 0 <= x < y < kept.len() implies (#[trigger] kept[x]).id.id_hash() != (#[trigger] kept[y]).id.id_hash() by {
        assert(idx[x] < idx[y]);
    }
    // the root is present, with the empty path
    let xr = choose|x: int| 0 <= x < idx.len() && idx[x] == entry;
    assert(kept[xr].id.id_hash() == root);
    assert forall|x: int| 0 <= x < kept.len() && (#[trigger] kept[x]).id.id_hash() == root implies kept[x].mod_path@.len() == 0 by {
        if idx[x] != entry {
            if idx[x] < entry {
                assert(parsed[idx[x]].id.id_hash() != parsed[entry].id.id_hash());
            } else {
                assert(parsed[entry].id.id_hash() != parsed[idx[x]].id.id_hash());
            }
        }
    }
    // every declared child is present
    assert forall|x: int, k: int| 0 <= x < kept.len() && 0 <= k < kept[x].children@.len()
        implies has_module(kept, (#[trigger] kept[x].children@[k]).1.id_hash()) by {
        let i = idx[x];
        assert(children_linked(modules[i].children@, parsed, i));
        let l = links_of(parsed, i)[k].1;
        assert(modules[i].children@[k].1 == parsed[l].id);
        assert(closed_at(parsed, reached, i));
        assert(reached[l]);
        let y = choose|y: int| 0 <= y < idx.len() && idx[y] == l;
        assert(kept[y].id == parsed[l].id);
    }
    // every other module hangs below its parent
    let kd = Seq::new(kept.len(), |x: int| depth[idx[x]]);
    assert forall|x: int| 0 <= x < kept.len() && (#[trigger] kept[x]).id.id_hash() != root implies
        exists|y: int, k: int| #[trigger] child_of(kept, x, y, k) && kd[y] < kd[x] by {
        let j = idx[x];
        assert(j != entry);
        assert(parent_ok(parsed, reached, paths, par, via, depth, j));
        let p = par[j];
        let k = via[j];
        let y = choose|y: int| 0 <= y < idx.len() && idx[y] == p;
        assert(children_linked(modules[p].children@, parsed, p));
        assert(kept[y].children@[k] == modules[p].children@[k]);
        assert(child_of(kept, x, y, k));
    }
    assert(hangs_below(kept, root, kd));
    lemma_kept_bfs(parsed, modules, reached, paths, entry, kept, idx, par, via, depth);
    assert(parents_first_reached(kept, root, kd));
}

/// The modules kept after the walk have the parents a breadth-first walk
/// from the entry gives.
#[verifier::rlimit(40)]
proof fn lemma_kept_bfs(
    parsed: Seq<ParsedFile>,
    modules: Seq<Module>,
    reached: Seq<bool>,
    paths: Seq<String>,
    entry: int,
    kept: Seq<Module>,
    idx: Seq<int>,
    par: Seq<int>,
    via: Seq<int>,
    depth: Seq<nat>,
)
    requires
        ids_unique(parsed),
        modules.len() == parsed.len(),
        0 <= entry < parsed.len(),
        reached.len() == parsed.len(),
        forall|i: int| 0 <= i < modules.len() ==> {
            &&& (#[trigger] modules[i]).id == parsed[i].id
            &&& children_linked(modules[i].children@, parsed, i)
        },
        kept_from(kept, parsed, modules, reached, paths, idx, parsed.len() as int),
        tree_ok(parsed, reached, paths, entry, par, via, depth),
        bfs_ok(parsed, reached, entry, par, depth),
    ensures
        parents_first_reached(kept, parsed[entry].id.id_hash(), Seq::new(kept.len(), |x: int| depth[idx[x]])),
{
    let root = parsed[entry].id.id_hash();
    let kd = Seq::new(kept.len(), |x: int| depth[idx[x]]);
    assert forall|x: int| 0 <= x < kept.len() && (#[trigger] kept[x]).id.id_hash() == root implies kd[x] == 0 by {
        if idx[x] != entry {
            if idx[x] < entry {
                assert(parsed[idx[x]].id.id_hash() != parsed[entry].id.id_hash());
            } else {
                assert(parsed[entry].id.id_hash() != parsed[idx[x]].id.id_hash());
            }
        }
    }
    assert forall|x: int| 0 <= x < kept.len() && (#[trigger] kept[x]).id.id_hash() != root implies
        exists|y: int, k: int| #[trigger] child_of(kept, x, y, k) && kd[x] == kd[y] + 1
            && forall|y2: int, k2: int| #[trigger] declares(kept, y2, k2, x) ==> kd[y] <= kd[y2] by {
        let j = idx[x];
        assert(j != entry);
        assert(parent_ok(parsed, reached, paths, par, via, depth, j));
        let p = par[j];
        let k = via[j];
        let y = choose|y: int| 0 <= y < idx.len() && idx[y] == p;
        assert(children_linked(modules[p].children@, parsed, p));
        assert(kept[y].children@[k] == modules[p].children@[k]);
        assert(child_of(kept, x, y, k));
        assert forall|y2: int, k2: int| #[trigger] declares(kept, y2, k2, x) implies kd[y] <= kd[y2] by {
            let i2 = idx[y2];
            assert(children_linked(modules[i2].children@, parsed, i2));
            assert(kept[y2].children@[k2] == modules[i2].children@[k2]);
            let l = links_of(parsed, i2)[k2].1;
            assert(modules[i2].children@[k2].1 == parsed[l].id);
            assert(parsed[l].id == parsed[j].id);
            if l != j {
                if l < j {
                    assert(parsed[l].id.id_hash() != parsed[j].id.id_hash());
                } else {
                    assert(parsed[j].id.id_hash() != parsed[l].id.id_hash());
                }
            }
            assert(reached[i2]);
            assert(links_of(parsed, i2)[k2].1 != entry);
        }
    }
    assert(parents_first_reached(kept, root, kd));
}

/// Why resolving a crate target failed.
pub enum ResolveError {
    /// The entry file was not among the files that were read and parsed.
    EntryNotFound { entry: String, src_dir: String },
}

impl ResolveError {
    /// The entry file the error names.
    pub open spec fn entry_view(&self) -> Seq<char> {
        match self {
            ResolveError::EntryNotFound { entry, src_dir } => entry@,
        }
    }

    /// The source directory the error names.
    pub open spec fn src_dir_view(&self) -> Seq<char> {
        match self {
            ResolveError::EntryNotFound { entry, src_dir } => src_dir@,
        }
    }

    /// The error as a sentence.
    pub fn message(&self) -> (m: String)
        ensures
            m@ == "entry file "@ + self.entry_view() + " was not found under "@ + self.src_dir_view()
                + " (or failed to read/parse)"@,
    {
        match self {
            ResolveError::EntryNotFound { entry, src_dir } => {
                let mut m = String::from_str("entry file ");
                m.append(entry.as_str());
                m.append(" was not found under ");
                m.append(src_dir.as_str());
                m.append(" (or failed to read/parse)");
                m
            },
        }
    }
}

/// Some source that parses has the module id of the entry file.
pub open spec fn entry_parses(sources: Seq<SourceText>, entry_file: Seq<char>) -> bool {
    exists|k: int| 0 <= k < sources.len() && parses_as_file((#[trigger] sources[k]).content@)
        && str_hash(sources[k].path@) == str_hash(entry_file)
}

/// Each module was parsed from one of the sources.
pub open spec fn modules_from(mods: Seq<Module>, sources: Seq<SourceText>) -> bool {
    forall|x: int| 0 <= x < mods.len() ==> exists|k: int| 0 <= k < sources.len()
        && (#[trigger] sources[k]).path@ == (#[trigger] mods[x]).id.file() && parses_as_file(sources[k].content@)
}

/// Parses every source and resolves the module tree rooted at `entry_file`:
/// files that do not parse are skipped; the entry file must be among those
/// that parsed; `mod name;` declarations link to files by name; modules the
/// walk from the entry does not reach are left out; items get ids from their
/// module path and name.
pub(crate) fn parse_files(sources: Vec<SourceText>, src_dir: &str, entry_file: &str)
    -> (r: Result<(Vec<Module>, Vec<RawImpl>, Vec<ModuleItem>), ResolveError>)
    ensures
        r is Err <==> !entry_parses(sources@, entry_file@),
        r matches Err(e) ==> e.entry_view() == entry_file@ && e.src_dir_view() == src_dir@,
        r matches Ok(t) ==> {
            &&& module_tree(t.0@, str_hash(entry_file@))
            &&& modules_from(t.0@, sources@)
            &&& items_consistent(t.0@, t.2@)
            &&& items_listed(t.0@, t.2@)
            &&& raws_placed(t.0@, t.1@)
            &&& forall|k: int| 0 <= k < t.2@.len() ==> item_agrees(#[trigger] t.2@[k])
            &&& forall|k: int| 0 <= k < t.1@.len() ==> raw_agrees(#[trigger] t.1@[k], t.1@[k].found_in_module)
            &&& forall|x: int| 0 <= x < t.0@.len() ==> #[trigger] children_declared(t.0@[x], sources@)
            &&& forall|x: int| 0 <= x < t.0@.len() ==> #[trigger] module_impls_read(t.0@[x], sources@, t.1@)
            &&& forall|x: int| 0 <= x < t.0@.len() ==> #[trigger] module_items_read(t.0@[x], sources@, t.2@)
        },
{
    let ghost srcs = sources@;
    let parsed = parse_sources(sources);
    let entry_id = ModuleId::from(String::from_str(entry_file));
    let entry = match find_file(&parsed, entry_id.hash_value()) {
        Some(e) => e,
        None => {
            proof {
                if entry_parses(srcs, entry_file@) {
                    let k = choose|k: int| 0 <= k < srcs.len() && parses_as_file((#[trigger] srcs[k]).content@)
                        && str_hash(srcs[k].path@) == str_hash(entry_file@);
                    assert(has_file(parsed@, str_hash(srcs[k].path@)));
                }
            }
            return Err(ResolveError::EntryNotFound {
                entry: String::from_str(entry_file),
                src_dir: String::from_str(src_dir),
            });
        },
    };
    proof {
        assert(parsed_from(parsed@[entry as int], srcs));
        let k = choose|k: int| 0 <= k < srcs.len() && (#[trigger] srcs[k]).path@ == parsed@[entry as int].path@
            && parses_as_file(srcs[k].content@);
        assert(str_hash(srcs[k].path@) == str_hash(entry_file@));
    }
    let modules = link_modules(&parsed);
    let (reached, paths) = assign_paths(&parsed, &modules, entry);
    let ghost ps = parsed@;
    let (kept, raws, items) = lower_modules(parsed, &modules, &reached, &paths);
    proof {
        lemma_kept_tree(ps, modules@, reached@, paths@, entry as int, kept@);
        let idx = choose|idx: Seq<int>| kept_from(kept@, ps, modules@, reached@, paths@, idx, ps.len() as int);
        assert forall|x: int| 0 <= x < kept@.len() implies exists|k: int| 0 <= k < srcs.len()
            && (#[trigger] srcs[k]).path@ == (#[trigger] kept@[x]).id.file() && parses_as_file(srcs[k].content@) by {
            assert(parsed_from(ps[idx[x]], srcs));
        }
        assert forall|x: int| 0 <= x < kept@.len() implies #[trigger] module_items_read(kept@[x], srcs, items@) by {
            let i = idx[x];
            assert(parsed_from(ps[i], srcs));
            let k = choose|k: int| 0 <= k < srcs.len() && (#[trigger] srcs[k]).path@ == ps[i].path@ && parses_as_file(srcs[k].content@)
                && read_ok(source_items(srcs[k].content@), ps[i].entries@, ps[i].decls@, ps[i].id);
            let items_k = source_items(srcs[k].content@);
            lemma_read_ok_names(items_k, ps[i].entries@, ps[i].decls@, ps[i].id);
            assert(names_kept(ps[i].entries@, ps[i].entries@.len() as int, items@, paths@[i]@));
            assert forall|j: int| 0 <= j < items_k.len() && (#[trigger] item_name_of(items_k[j])) is Some
                implies table_has(items@, spec_item_id(kept@[x].mod_path@, item_name_of(items_k[j])->0)) by {
                assert(has_item_entry(ps[i].entries@, item_name_of(items_k[j])->0));
                let e = choose|e: int| 0 <= e < ps[i].entries@.len()
                    && (#[trigger] ps[i].entries@[e] matches FileEntry::Item(src) && src.name@ == item_name_of(items_k[j])->0);
                match ps[i].entries@[e] {
                    FileEntry::Item(src) => {
                        assert(table_has(items@, spec_item_id(paths@[i]@, src.name@)));
                    },
                    _ => {},
                }
            }
            assert(ps[i].id.file() == ps[i].path@);
            assert(source_items_named(items_k, items@, kept@[x].mod_path@));
        }
        assert forall|x: int| 0 <= x < kept@.len() implies #[trigger] module_impls_read(kept@[x], srcs, raws@) by {
            let i = idx[x];
            assert(parsed_from(ps[i], srcs));
            let k = choose|k: int| 0 <= k < srcs.len() && (#[trigger] srcs[k]).path@ == ps[i].path@ && parses_as_file(srcs[k].content@)
                && read_ok(source_items(srcs[k].content@), ps[i].entries@, ps[i].decls@, ps[i].id);
            let items_k = source_items(srcs[k].content@);
            lemma_read_ok_impls(items_k, ps[i].entries@, ps[i].decls@, ps[i].id);
            assert(impls_kept(ps[i].entries@, ps[i].entries@.len() as int, raws@));
            assert(entries_agree(ps[i].entries@, ps[i].id));
            assert forall|j: int| 0 <= j < items_k.len() && (#[trigger] item_class(items_k[j])) is Impl
                implies raw_with_node(raws@, impl_node_of(items_k[j]), kept@[x].id) by {
                assert(has_impl_entry(ps[i].entries@, impl_node_of(items_k[j])));
                let e = choose|e: int| 0 <= e < ps[i].entries@.len()
                    && (#[trigger] ps[i].entries@[e] matches FileEntry::Impl(r) && r.node == impl_node_of(items_k[j]));
                match ps[i].entries@[e] {
                    FileEntry::Impl(r) => {
                        assert(raws@.contains(r));
                        assert(entry_read(ps[i].entries@[e], ps[i].id));
                        let w = choose|w: int| 0 <= w < raws@.len() && raws@[w] == r;
                        assert(raws@[w].node == impl_node_of(items_k[j]) && raws@[w].found_in_module == kept@[x].id);
                    },
                    _ => {},
                }
            }
            assert(ps[i].id.file() == ps[i].path@);
            assert(source_impls_raw(srcs[k].content@, raws@, kept@[x].id));
        }
        assert forall|x: int| 0 <= x < kept@.len() implies #[trigger] children_declared(kept@[x], srcs) by {
            let i = idx[x];
            assert(parsed_from(ps[i], srcs));
            let k = choose|k: int| 0 <= k < srcs.len() && (#[trigger] srcs[k]).path@ == ps[i].path@ && parses_as_file(srcs[k].content@)
                && read_ok(source_items(srcs[k].content@), ps[i].entries@, ps[i].decls@, ps[i].id);
            lemma_read_ok_decls(source_items(srcs[k].content@), ps[i].entries@, ps[i].decls@, ps[i].id);
            let dir = dir_prefix(ps[i].path@);
            lemma_links_resolve(ps, srcs, dir, ps[i].decls@);
            assert(children_linked(modules@[i].children@, ps, i));
            assert(ps[i].id.file() == ps[i].path@);
            let links = links_of(ps, i);
            let ch = kept@[x].children@;
            assert(ch == modules@[i].children@);
            assert(child_links(ch) =~= links.map_values(|l: (Seq<char>, int)| (l.0, ps[l.1].id.id_hash())));
        }
    }
    Ok((kept, raws, items))
}

} // verus!
