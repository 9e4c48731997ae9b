//! The boundary with `syn` and `quote`: the syntax-tree types that the
//! library carries through, and the calls that parse source text and read
//! plain values out of the resulting trees. Everything else in the library
//! works on those plain values.

use vstd::prelude::*;
use quote::ToTokens;
use crate::types::MethodInfo;

verus! {

#[verifier::external_type_specification]
#[verifier::external_body]
pub struct ExSynItem(syn::Item);

#[verifier::external_type_specification]
#[verifier::external_body]
pub struct ExSynItemFn(syn::ItemFn);

#[verifier::external_type_specification]
#[verifier::external_body]
pub struct ExSynItemEnum(syn::ItemEnum);

#[verifier::external_type_specification]
#[verifier::external_body]
pub struct ExSynItemStruct(syn::ItemStruct);

#[verifier::external_type_specification]
#[verifier::external_body]
pub struct ExSynItemTrait(syn::ItemTrait);

#[verifier::external_type_specification]
#[verifier::external_body]
pub struct ExSynItemConst(syn::ItemConst);

#[verifier::external_type_specification]
#[verifier::external_body]
pub struct ExSynItemMod(syn::ItemMod);

#[verifier::external_type_specification]
#[verifier::external_body]
pub struct ExSynItemImpl(syn::ItemImpl);

#[verifier::external_type_specification]
#[verifier::external_body]
pub struct ExSynType(syn::Type);

#[verifier::external_type_specification]
#[verifier::external_body]
pub struct ExSynPath(syn::Path);

#[verifier::external_type_specification]
#[verifier::external_body]
pub struct ExSynAttribute(syn::Attribute);

#[verifier::external_type_specification]
#[verifier::external_body]
pub struct ExSynExprCall(syn::ExprCall);

#[verifier::external_type_specification]
#[verifier::external_body]
pub struct ExSynExprMethodCall(syn::ExprMethodCall);

/// Whether `syn::parse_file` accepts the given source text as a Rust file.
pub uninterp spec fn parses_as_file(source: Seq<char>) -> bool;

/// The top-level items, in source order, of the file `syn::parse_file`
/// reads from the given text; a property of the text alone.
pub uninterp spec fn source_items(source: Seq<char>) -> Seq<syn::Item>;

/// Calls `syn::parse_file` and takes the top-level items out of the file.
/// Claimed: the parse succeeds exactly when `parses_as_file` holds of the
/// text, and the items are `source_items` of the text.
#[verifier::external_body]
pub(crate) fn parse_items(content: &str) -> (items: Option<Vec<syn::Item>>)
    ensures
        items is Some <==> parses_as_file(content@),
        items matches Some(v) ==> v@ == source_items(content@),
{
    syn::parse_file(content).ok().map(|file| file.items)
}

/// The kind of a top-level item, one variant per variant of `syn::Item`,
/// and `Other` for a variant added after this list was written.
pub enum ItemClass {
    Const,
    Enum,
    ExternCrate,
    Fn,
    ForeignMod,
    Impl,
    Macro,
    Mod,
    Static,
    Struct,
    Trait,
    TraitAlias,
    Type,
    Union,
    Use,
    Verbatim,
    Other,
}

/// The kind of a top-level item; a property of the item alone.
pub uninterp spec fn item_class(item: syn::Item) -> ItemClass;

/// A top-level `syn::Item` with the node of each kind that the module walk
/// reads moved out, and every other kind told apart by name.
pub enum SynItem {
    Fn(syn::ItemFn),
    Enum(syn::ItemEnum),
    Struct(syn::ItemStruct),
    Trait(syn::ItemTrait),
    Const(syn::ItemConst),
    Mod(syn::ItemMod),
    Impl(syn::ItemImpl),
    Other(ItemClass),
}

/// The kind of a `SynItem`.
pub open spec fn class_of(s: SynItem) -> ItemClass {
    match s {
        SynItem::Fn(_) => ItemClass::Fn,
        SynItem::Enum(_) => ItemClass::Enum,
        SynItem::Struct(_) => ItemClass::Struct,
        SynItem::Trait(_) => ItemClass::Trait,
        SynItem::Const(_) => ItemClass::Const,
        SynItem::Mod(_) => ItemClass::Mod,
        SynItem::Impl(_) => ItemClass::Impl,
        SynItem::Other(c) => c,
    }
}

/// The kind the module walk reads a node of.
pub open spec fn read_kind(c: ItemClass) -> bool {
    c is Fn || c is Enum || c is Struct || c is Trait || c is Const || c is Mod || c is Impl
}

/// The kind of an item of a kind the module walk does not read, telling the
/// remaining variants of `syn::Item` apart, one arm each. Claimed: the kind
/// is `item_class` of the item.
#[verifier::external_body]
fn other_class(item: &syn::Item) -> (r: ItemClass)
    requires
        !read_kind(item_class(*item)),
    ensures
        r == item_class(*item),
{
    match item {
        syn::Item::ExternCrate(_) => ItemClass::ExternCrate,
        syn::Item::ForeignMod(_) => ItemClass::ForeignMod,
        syn::Item::Macro(_) => ItemClass::Macro,
        syn::Item::Static(_) => ItemClass::Static,
        syn::Item::TraitAlias(_) => ItemClass::TraitAlias,
        syn::Item::Type(_) => ItemClass::Type,
        syn::Item::Union(_) => ItemClass::Union,
        syn::Item::Use(_) => ItemClass::Use,
        syn::Item::Verbatim(_) => ItemClass::Verbatim,
        _ => ItemClass::Other,
    }
}

/// The impl block an item of kind `Impl` holds.
pub uninterp spec fn impl_node_of(item: syn::Item) -> syn::ItemImpl;

/// The function an item of kind `Fn` holds.
pub uninterp spec fn fn_node_of(item: syn::Item) -> syn::ItemFn;

/// The enum an item of kind `Enum` holds.
pub uninterp spec fn enum_node_of(item: syn::Item) -> syn::ItemEnum;

/// The struct an item of kind `Struct` holds.
pub uninterp spec fn struct_node_of(item: syn::Item) -> syn::ItemStruct;

/// The trait an item of kind `Trait` holds.
pub uninterp spec fn trait_node_of(item: syn::Item) -> syn::ItemTrait;

/// The constant an item of kind `Const` holds.
pub uninterp spec fn const_node_of(item: syn::Item) -> syn::ItemConst;

/// The module an item of kind `Mod` holds.
pub uninterp spec fn mod_node_of(item: syn::Item) -> syn::ItemMod;

/// Moves the node out of an item of the kinds the module walk reads, one
/// arm each; any other item comes back whole. Claimed: a node comes out
/// exactly for those kinds, with the kind `item_class` gives, and it is the
/// node the item holds (`fn_node_of`, ..., `impl_node_of`).
#[verifier::external_body]
fn take_node(item: syn::Item) -> (r: Result<SynItem, syn::Item>)
    ensures
        match r {
            Ok(n) => class_of(n) == item_class(item) && !(n is Other),
            Err(back) => back == item && !read_kind(item_class(item)),
        },
        r matches Ok(SynItem::Fn(f)) ==> f == fn_node_of(item),
        r matches Ok(SynItem::Enum(e)) ==> e == enum_node_of(item),
        r matches Ok(SynItem::Struct(st)) ==> st == struct_node_of(item),
        r matches Ok(SynItem::Trait(t)) ==> t == trait_node_of(item),
        r matches Ok(SynItem::Const(c)) ==> c == const_node_of(item),
        r matches Ok(SynItem::Mod(m)) ==> m == mod_node_of(item),
        r matches Ok(SynItem::Impl(i)) ==> i == impl_node_of(item),
{
    match item {
        syn::Item::Const(c) => Ok(SynItem::Const(c)),
        syn::Item::Enum(e) => Ok(SynItem::Enum(e)),
        syn::Item::Fn(f) => Ok(SynItem::Fn(f)),
        syn::Item::Impl(i) => Ok(SynItem::Impl(i)),
        syn::Item::Mod(m) => Ok(SynItem::Mod(m)),
        syn::Item::Struct(s) => Ok(SynItem::Struct(s)),
        syn::Item::Trait(t) => Ok(SynItem::Trait(t)),
        other => Err(other),
    }
}

/// Tells a top-level item's kind and moves out the node of the kinds the
/// module walk reads; every other kind is kept by name only.
pub(crate) fn classify_item(item: syn::Item) -> (r: SynItem)
    ensures
        class_of(r) == item_class(item),
        r matches SynItem::Other(c) ==> !read_kind(c),
        r matches SynItem::Fn(f) ==> f == fn_node_of(item),
        r matches SynItem::Enum(e) ==> e == enum_node_of(item),
        r matches SynItem::Struct(st) ==> st == struct_node_of(item),
        r matches SynItem::Trait(t) ==> t == trait_node_of(item),
        r matches SynItem::Const(c) ==> c == const_node_of(item),
        r matches SynItem::Mod(m) ==> m == mod_node_of(item),
        r matches SynItem::Impl(i) ==> i == impl_node_of(item),
{
    match take_node(item) {
        Ok(n) => n,
        Err(back) => SynItem::Other(other_class(&back)),
    }
}

/// A visibility, one variant per variant of `syn::Visibility`: `pub`,
/// restricted (`pub(crate)`, `pub(super)`, `pub(in path)`), or inherited.
pub enum Vis {
    Public,
    Restricted,
    Inherited,
}

/// The identifier, visibility and attributes of a `fn` item.
pub uninterp spec fn fn_header_of(f: syn::ItemFn) -> (Seq<char>, Vis, Seq<syn::Attribute>);

/// Reads the identifier (`Ident::to_string`), the visibility and the
/// attributes of a `fn` item. Claimed: they are `fn_header_of` of the node.
#[verifier::external_body]
pub(crate) fn fn_header(f: &syn::ItemFn) -> (r: (String, Vis, &Vec<syn::Attribute>))
    ensures
        (r.0@, r.1, r.2@) == fn_header_of(*f),
{
    let vis = match &f.vis {
        syn::Visibility::Public(_) => Vis::Public,
        syn::Visibility::Restricted(_) => Vis::Restricted,
        syn::Visibility::Inherited => Vis::Inherited,
    };
    (f.sig.ident.to_string(), vis, &f.attrs)
}

/// The identifier, visibility and attributes of an `enum` item.
pub uninterp spec fn enum_header_of(e: syn::ItemEnum) -> (Seq<char>, Vis, Seq<syn::Attribute>);

/// Reads the identifier (`Ident::to_string`), the visibility and the
/// attributes of an `enum` item. Claimed: they are `enum_header_of` of the node.
#[verifier::external_body]
pub(crate) fn enum_header(e: &syn::ItemEnum) -> (r: (String, Vis, &Vec<syn::Attribute>))
    ensures
        (r.0@, r.1, r.2@) == enum_header_of(*e),
{
    let vis = match &e.vis {
        syn::Visibility::Public(_) => Vis::Public,
        syn::Visibility::Restricted(_) => Vis::Restricted,
        syn::Visibility::Inherited => Vis::Inherited,
    };
    (e.ident.to_string(), vis, &e.attrs)
}

/// The identifier, visibility and attributes of a `struct` item.
pub uninterp spec fn struct_header_of(s: syn::ItemStruct) -> (Seq<char>, Vis, Seq<syn::Attribute>);

/// Reads the identifier (`Ident::to_string`), the visibility and the
/// attributes of a `struct` item. Claimed: they are `struct_header_of` of the node.
#[verifier::external_body]
pub(crate) fn struct_header(s: &syn::ItemStruct) -> (r: (String, Vis, &Vec<syn::Attribute>))
    ensures
        (r.0@, r.1, r.2@) == struct_header_of(*s),
{
    let vis = match &s.vis {
        syn::Visibility::Public(_) => Vis::Public,
        syn::Visibility::Restricted(_) => Vis::Restricted,
        syn::Visibility::Inherited => Vis::Inherited,
    };
    (s.ident.to_string(), vis, &s.attrs)
}

/// The identifier, visibility and attributes of a `trait` item.
pub uninterp spec fn trait_header_of(t: syn::ItemTrait) -> (Seq<char>, Vis, Seq<syn::Attribute>);

/// Reads the identifier (`Ident::to_string`), the visibility and the
/// attributes of a `trait` item. Claimed: they are `trait_header_of` of the node.
#[verifier::external_body]
pub(crate) fn trait_header(t: &syn::ItemTrait) -> (r: (String, Vis, &Vec<syn::Attribute>))
    ensures
        (r.0@, r.1, r.2@) == trait_header_of(*t),
{
    let vis = match &t.vis {
        syn::Visibility::Public(_) => Vis::Public,
        syn::Visibility::Restricted(_) => Vis::Restricted,
        syn::Visibility::Inherited => Vis::Inherited,
    };
    (t.ident.to_string(), vis, &t.attrs)
}

/// The identifier, visibility and attributes of a `const` item.
pub uninterp spec fn const_header_of(c: syn::ItemConst) -> (Seq<char>, Vis, Seq<syn::Attribute>);

/// Reads the identifier (`Ident::to_string`), the visibility and the
/// attributes of a `const` item. Claimed: they are `const_header_of` of the node.
#[verifier::external_body]
pub(crate) fn const_header(c: &syn::ItemConst) -> (r: (String, Vis, &Vec<syn::Attribute>))
    ensures
        (r.0@, r.1, r.2@) == const_header_of(*c),
{
    let vis = match &c.vis {
        syn::Visibility::Public(_) => Vis::Public,
        syn::Visibility::Restricted(_) => Vis::Restricted,
        syn::Visibility::Inherited => Vis::Inherited,
    };
    (c.ident.to_string(), vis, &c.attrs)
}

/// The identifier, visibility and attributes of a `mod` item.
pub uninterp spec fn mod_header_of(m: syn::ItemMod) -> (Seq<char>, Vis, Seq<syn::Attribute>);

/// Reads the identifier (`Ident::to_string`), the visibility and the
/// attributes of a `mod` item. Claimed: they are `mod_header_of` of the node.
#[verifier::external_body]
pub(crate) fn mod_header(m: &syn::ItemMod) -> (r: (String, Vis, &Vec<syn::Attribute>))
    ensures
        (r.0@, r.1, r.2@) == mod_header_of(*m),
{
    let vis = match &m.vis {
        syn::Visibility::Public(_) => Vis::Public,
        syn::Visibility::Restricted(_) => Vis::Restricted,
        syn::Visibility::Inherited => Vis::Inherited,
    };
    (m.ident.to_string(), vis, &m.attrs)
}

/// Whether a `mod` item is a declaration `mod name;` (no inline content).
pub uninterp spec fn mod_is_decl(m: syn::ItemMod) -> bool;

/// Whether a `mod` item has no inline content. Claimed: the answer is
/// `mod_is_decl` of the node.
#[verifier::external_body]
pub(crate) fn mod_is_declaration(m: &syn::ItemMod) -> (r: bool)
    ensures
        r == mod_is_decl(*m),
{
    m.content.is_none()
}

/// The identifiers of an enum's variants, in order.
pub uninterp spec fn variant_names_of(e: syn::ItemEnum) -> Seq<Seq<char>>;

/// The identifiers of an enum's variants, in order, as `Ident::to_string`
/// gives them. Claimed: they are `variant_names_of` of the node.
#[verifier::external_body]
pub(crate) fn enum_variant_names(e: &syn::ItemEnum) -> (r: Vec<String>)
    ensures
        string_views(r@) == variant_names_of(*e),
{
    e.variants.iter().map(|v| v.ident.to_string()).collect()
}

/// The identifier an attribute's path consists of, when the path is a single
/// plain identifier.
pub uninterp spec fn attr_path_ident(a: syn::Attribute) -> Option<Seq<char>>;

/// `syn::Path::get_ident` of an attribute's path, as a string: the
/// identifier when the path is a single plain identifier, else `None`.
/// `Path::is_ident` answers through the same `get_ident`. Claimed: the
/// result is `attr_path_ident` of the attribute.
#[verifier::external_body]
pub(crate) fn attr_ident(a: &syn::Attribute) -> (r: Option<String>)
    ensures
        attr_path_ident(*a) == (match r {
            Some(s) => Some(s@),
            None => None::<Seq<char>>,
        }),
{
    match a.path().get_ident() {
        Some(ident) => Some(ident.to_string()),
        None => None,
    }
}

/// The segment identifiers of an impl's self type when it is a path type.
pub uninterp spec fn impl_target_of(i: syn::ItemImpl) -> Option<Seq<Seq<char>>>;

/// The segment identifiers of an impl's self type when it is a path type
/// (`syn::Type::Path`), else `None`. Claimed: the result is
/// `impl_target_of` of the node.
#[verifier::external_body]
pub(crate) fn impl_target_segments(i: &syn::ItemImpl) -> (r: Option<Vec<String>>)
    ensures
        impl_target_of(*i) == (match r {
            Some(v) => Some(string_views(v@)),
            None => None::<Seq<Seq<char>>>,
        }),
{
    match &*i.self_ty {
        syn::Type::Path(tp) => Some(tp.path.segments.iter().map(|s| s.ident.to_string()).collect()),
        _ => None,
    }
}

/// The segment identifiers of the trait path of a trait impl.
pub uninterp spec fn impl_trait_path_of(i: syn::ItemImpl) -> Option<Seq<Seq<char>>>;

/// The segment identifiers of the trait path of a trait impl, `None` for an
/// inherent impl. Claimed: the result is `impl_trait_path_of` of the node.
#[verifier::external_body]
pub(crate) fn impl_trait_segments(i: &syn::ItemImpl) -> (r: Option<Vec<String>>)
    ensures
        impl_trait_path_of(*i) == (match r {
            Some(v) => Some(string_views(v@)),
            None => None::<Seq<Seq<char>>>,
        }),
{
    match &i.trait_ {
        Some((_, path, _)) => Some(path.segments.iter().map(|s| s.ident.to_string()).collect()),
        None => None,
    }
}

/// A method's signature facts as plain values: name, parameter count,
/// `async`, `unsafe`.
pub open spec fn method_facts(m: MethodInfo) -> (Seq<char>, usize, bool, bool) {
    (m.name@, m.params, m.is_async, m.is_unsafe)
}

/// For each member of an impl block, in order, the signature facts of a
/// `fn` member, `None` for any other member.
pub uninterp spec fn impl_members_of(i: syn::ItemImpl) -> Seq<Option<(Seq<char>, usize, bool, bool)>>;

/// One entry per member of an impl block, in order: the signature facts of a
/// `fn` member (identifier, number of inputs, `async`, `unsafe`), `None` for
/// any other member. Claimed: they are `impl_members_of` of the node.
#[verifier::external_body]
pub(crate) fn impl_members(i: &syn::ItemImpl) -> (r: Vec<Option<MethodInfo>>)
    ensures
        r@.map_values(|m: Option<MethodInfo>| match m {
            Some(x) => Some(method_facts(x)),
            None => None,
        }) == impl_members_of(*i),
{
    i.items.iter().map(|item| match item {
        syn::ImplItem::Fn(f) => Some(MethodInfo {
            name: f.sig.ident.to_string(),
            params: f.sig.inputs.len(),
            is_async: f.sig.asyncness.is_some(),
            is_unsafe: f.sig.unsafety.is_some(),
        }),
        _ => None,
    }).collect()
}

/// The attributes of an impl block.
pub uninterp spec fn impl_attrs_of(i: syn::ItemImpl) -> Seq<syn::Attribute>;

/// The attributes of an impl block. Claimed: they are `impl_attrs_of` of
/// the node.
#[verifier::external_body]
pub(crate) fn impl_attrs(i: &syn::ItemImpl) -> (r: &Vec<syn::Attribute>)
    ensures
        r@ == impl_attrs_of(*i),
{
    &i.attrs
}

/// The self type of an impl block as `quote` prints it.
pub uninterp spec fn impl_self_written(i: syn::ItemImpl) -> Seq<char>;

/// The self type of an impl block as `quote` prints it (`ToTokens`, then
/// `TokenStream::to_string`), and a copy of its syntax tree. Claimed: the
/// text is `impl_self_written` of the node; nothing is claimed of the copy.
#[verifier::external_body]
pub(crate) fn impl_self_ty(i: &syn::ItemImpl) -> (r: (String, syn::Type))
    ensures
        r.0@ == impl_self_written(*i),
{
    (i.self_ty.to_token_stream().to_string(), (*i.self_ty).clone())
}

/// The trait path of a trait impl as `quote` prints it.
pub uninterp spec fn impl_trait_written(i: syn::ItemImpl) -> Option<Seq<char>>;

/// The trait path of a trait impl as `quote` prints it, and a copy of its
/// syntax tree; `None` for an inherent impl. Claimed: the text is
/// `impl_trait_written` of the node, and there is one exactly when the
/// impl has a trait path (`impl_trait_path_of` is `Some`), as both read the
/// same `trait_` field.
#[verifier::external_body]
pub(crate) fn impl_trait(i: &syn::ItemImpl) -> (r: Option<(String, syn::Path)>)
    ensures
        impl_trait_written(*i) == (match r {
            Some(t) => Some(t.0@),
            None => None::<Seq<char>>,
        }),
        r is Some <==> impl_trait_path_of(*i) is Some,
{
    match &i.trait_ {
        Some((_, path, _)) => Some((path.to_token_stream().to_string(), path.clone())),
        None => None,
    }
}

/// The text of each string, in order.
pub open spec fn string_views(v: Seq<String>) -> Seq<Seq<char>> {
    v.map_values(|s: String| s@)
}

/// The segment identifiers of a call's callee when the callee is a path
/// expression, else `None`; a property of the call node alone.
pub uninterp spec fn callee_segments(node: syn::ExprCall) -> Option<Seq<Seq<char>>>;

/// Reads the callee of a call: when it is a path expression
/// (`syn::Expr::Path`), the identifiers of its segments (`Ident::to_string`).
/// Claimed: the result is `callee_segments` of the node.
#[verifier::external_body]
pub(crate) fn call_path_segments(node: &syn::ExprCall) -> (r: Option<Vec<String>>)
    ensures
        callee_segments(*node) == (match r {
            Some(v) => Some(string_views(v@)),
            None => None::<Seq<Seq<char>>>,
        }),
{
    match &*node.func {
        syn::Expr::Path(ep) => Some(ep.path.segments.iter().map(|s| s.ident.to_string()).collect()),
        _ => None,
    }
}

/// The method identifier of a method call; a property of the node alone.
pub uninterp spec fn method_name(node: syn::ExprMethodCall) -> Seq<char>;

/// The method identifier of a method call, as `Ident::to_string` gives it.
/// Claimed: the result is `method_name` of the node.
#[verifier::external_body]
pub(crate) fn method_call_name(node: &syn::ExprMethodCall) -> (r: String)
    ensures
        r@ == method_name(*node),
{
    node.method.to_string()
}

} // verus!
