//! Chainable queries over the items of a workspace.

use vstd::prelude::*;
use vstd::std_specs::iter::IteratorSpec;
use crate::resolve::ids::ItemId;
use crate::syntax::{
    attr_ident, attr_path_ident, Vis, enum_header, enum_header_of, fn_header, fn_header_of, impl_attrs, impl_attrs_of, struct_header, struct_header_of,
    trait_header, trait_header_of,
};
use crate::text::{matches_module, module_matches, same_text};
use crate::types::{ResolvedEnum, ResolvedFunction, ResolvedImpl, ResolvedStruct, ResolvedTrait};
use crate::workspaces::Workspace;

verus! {

/// What every queryable item offers.
pub trait SemaItem {
    spec fn spec_id(&self) -> ItemId;

    spec fn spec_mod_path(&self) -> Seq<char>;

    spec fn spec_file(&self) -> Seq<char>;

    spec fn spec_name(&self) -> Seq<char>;

    spec fn spec_is_public(&self) -> bool;

    spec fn spec_attrs(&self) -> Seq<syn::Attribute>;

    /// The item's attributes, as written.
    fn attrs(&self) -> (r: &Vec<syn::Attribute>)
        ensures
            r@ == self.spec_attrs(),
    ;

    /// The crate-qualified path of the module the item is in, such as
    /// `crate::motor`; empty at the crate root.
    fn mod_path(&self) -> (r: String)
        ensures
            r@ == self.spec_mod_path(),
    ;

    fn id(&self) -> (r: ItemId)
        ensures
            r == self.spec_id(),
    ;

    /// The source file the item is in.
    fn file(&self) -> (r: &str)
        ensures
            r@ == self.spec_file(),
    ;

    fn name(&self) -> (r: String)
        ensures
            r@ == self.spec_name(),
    ;

    fn is_public(&self) -> (r: bool)
        ensures
            r == self.spec_is_public(),
    ;
}

impl SemaItem for ResolvedStruct {
    open spec fn spec_attrs(&self) -> Seq<syn::Attribute> {
        struct_header_of(self.node).2
    }

    open spec fn spec_id(&self) -> ItemId {
        self.id
    }

    open spec fn spec_mod_path(&self) -> Seq<char> {
        self.mod_path@
    }

    open spec fn spec_file(&self) -> Seq<char> {
        self.file@
    }

    open spec fn spec_name(&self) -> Seq<char> {
        struct_header_of(self.node).0
    }

    open spec fn spec_is_public(&self) -> bool {
        struct_header_of(self.node).1 is Public
    }

    fn attrs(&self) -> (r: &Vec<syn::Attribute>) {
        struct_header(&self.node).2
    }

    fn mod_path(&self) -> (r: String) {
        self.mod_path.clone()
    }

    fn id(&self) -> (r: ItemId) {
        self.id
    }

    fn file(&self) -> (r: &str) {
        self.file.as_str()
    }

    fn name(&self) -> (r: String) {
        struct_header(&self.node).0
    }

    fn is_public(&self) -> (r: bool) {
        match struct_header(&self.node).1 {
            Vis::Public => true,
            _ => false,
        }
    }
}

impl SemaItem for ResolvedFunction {
    open spec fn spec_attrs(&self) -> Seq<syn::Attribute> {
        fn_header_of(self.node).2
    }

    open spec fn spec_id(&self) -> ItemId {
        self.id
    }

    open spec fn spec_mod_path(&self) -> Seq<char> {
        self.mod_path@
    }

    open spec fn spec_file(&self) -> Seq<char> {
        self.file@
    }

    open spec fn spec_name(&self) -> Seq<char> {
        fn_header_of(self.node).0
    }

    open spec fn spec_is_public(&self) -> bool {
        fn_header_of(self.node).1 is Public
    }

    fn attrs(&self) -> (r: &Vec<syn::Attribute>) {
        fn_header(&self.node).2
    }

    fn mod_path(&self) -> (r: String) {
        self.mod_path.clone()
    }

    fn id(&self) -> (r: ItemId) {
        self.id
    }

    fn file(&self) -> (r: &str) {
        self.file.as_str()
    }

    fn name(&self) -> (r: String) {
        fn_header(&self.node).0
    }

    fn is_public(&self) -> (r: bool) {
        match fn_header(&self.node).1 {
            Vis::Public => true,
            _ => false,
        }
    }
}

impl SemaItem for ResolvedEnum {
    open spec fn spec_attrs(&self) -> Seq<syn::Attribute> {
        enum_header_of(self.node).2
    }

    open spec fn spec_id(&self) -> ItemId {
        self.id
    }

    open spec fn spec_mod_path(&self) -> Seq<char> {
        self.mod_path@
    }

    open spec fn spec_file(&self) -> Seq<char> {
        self.file@
    }

    open spec fn spec_name(&self) -> Seq<char> {
        enum_header_of(self.node).0
    }

    open spec fn spec_is_public(&self) -> bool {
        enum_header_of(self.node).1 is Public
    }

    fn attrs(&self) -> (r: &Vec<syn::Attribute>) {
        enum_header(&self.node).2
    }

    fn mod_path(&self) -> (r: String) {
        self.mod_path.clone()
    }

    fn id(&self) -> (r: ItemId) {
        self.id
    }

    fn file(&self) -> (r: &str) {
        self.file.as_str()
    }

    fn name(&self) -> (r: String) {
        enum_header(&self.node).0
    }

    fn is_public(&self) -> (r: bool) {
        match enum_header(&self.node).1 {
            Vis::Public => true,
            _ => false,
        }
    }
}

impl SemaItem for ResolvedTrait {
    open spec fn spec_attrs(&self) -> Seq<syn::Attribute> {
        trait_header_of(self.node).2
    }

    open spec fn spec_id(&self) -> ItemId {
        self.id
    }

    open spec fn spec_mod_path(&self) -> Seq<char> {
        self.mod_path@
    }

    open spec fn spec_file(&self) -> Seq<char> {
        self.file@
    }

    open spec fn spec_name(&self) -> Seq<char> {
        trait_header_of(self.node).0
    }

    open spec fn spec_is_public(&self) -> bool {
        trait_header_of(self.node).1 is Public
    }

    fn attrs(&self) -> (r: &Vec<syn::Attribute>) {
        trait_header(&self.node).2
    }

    fn mod_path(&self) -> (r: String) {
        self.mod_path.clone()
    }

    fn id(&self) -> (r: ItemId) {
        self.id
    }

    fn file(&self) -> (r: &str) {
        self.file.as_str()
    }

    fn name(&self) -> (r: String) {
        trait_header(&self.node).0
    }

    fn is_public(&self) -> (r: bool) {
        match trait_header(&self.node).1 {
            Vis::Public => true,
            _ => false,
        }
    }
}

/// The name an impl block answers to: `impl` followed by its module path.
pub open spec fn impl_name(mod_path: Seq<char>) -> Seq<char> {
    seq!['i', 'm', 'p', 'l'] + mod_path
}

impl SemaItem for ResolvedImpl {
    open spec fn spec_attrs(&self) -> Seq<syn::Attribute> {
        impl_attrs_of(self.node)
    }

    open spec fn spec_id(&self) -> ItemId {
        self.id
    }

    open spec fn spec_mod_path(&self) -> Seq<char> {
        self.mod_path@
    }

    open spec fn spec_file(&self) -> Seq<char> {
        self.file@
    }

    open spec fn spec_name(&self) -> Seq<char> {
        impl_name(self.mod_path@)
    }

    /// Impl blocks have no visibility of their own; they count as not public.
    open spec fn spec_is_public(&self) -> bool {
        false
    }

    fn attrs(&self) -> (r: &Vec<syn::Attribute>) {
        impl_attrs(&self.node)
    }

    fn mod_path(&self) -> (r: String) {
        self.mod_path.clone()
    }

    fn id(&self) -> (r: ItemId) {
        self.id
    }

    fn file(&self) -> (r: &str) {
        self.file.as_str()
    }

    fn name(&self) -> (r: String) {
        let mut n = String::from_str("impl");
        n.append(self.mod_path.as_str());
        proof {
            reveal_strlit("impl");
        }
        n
    }

    fn is_public(&self) -> (r: bool) {
        false
    }
}

impl<'a, T: SemaItem> SemaItem for &'a T {
    open spec fn spec_attrs(&self) -> Seq<syn::Attribute> {
        (**self).spec_attrs()
    }

    open spec fn spec_id(&self) -> ItemId {
        (**self).spec_id()
    }

    open spec fn spec_mod_path(&self) -> Seq<char> {
        (**self).spec_mod_path()
    }

    open spec fn spec_file(&self) -> Seq<char> {
        (**self).spec_file()
    }

    open spec fn spec_name(&self) -> Seq<char> {
        (**self).spec_name()
    }

    open spec fn spec_is_public(&self) -> bool {
        (**self).spec_is_public()
    }

    fn attrs(&self) -> (r: &Vec<syn::Attribute>) {
        (**self).attrs()
    }

    fn mod_path(&self) -> (r: String) {
        (**self).mod_path()
    }

    fn id(&self) -> (r: ItemId) {
        (**self).id()
    }

    fn file(&self) -> (r: &str) {
        (**self).file()
    }

    fn name(&self) -> (r: String) {
        (**self).name()
    }

    fn is_public(&self) -> (r: bool) {
        (**self).is_public()
    }
}


/// Any item of a workspace: what `Workspace::all_items` yields, and the
/// free functions, which `Workspace::by_id` searches as well.
#[derive(Clone, Copy)]
pub enum AnyItem<'a> {
    Struct(&'a ResolvedStruct),
    Enum(&'a ResolvedEnum),
    Trait(&'a ResolvedTrait),
    Impl(&'a ResolvedImpl),
    Function(&'a ResolvedFunction),
}

impl<'a> SemaItem for AnyItem<'a> {
    open spec fn spec_attrs(&self) -> Seq<syn::Attribute> {
        match *self {
            AnyItem::Struct(x) => x.spec_attrs(),
            AnyItem::Enum(x) => x.spec_attrs(),
            AnyItem::Trait(x) => x.spec_attrs(),
            AnyItem::Impl(x) => x.spec_attrs(),
            AnyItem::Function(x) => x.spec_attrs(),
        }
    }

    open spec fn spec_id(&self) -> ItemId {
        match *self {
            AnyItem::Struct(x) => x.spec_id(),
            AnyItem::Enum(x) => x.spec_id(),
            AnyItem::Trait(x) => x.spec_id(),
            AnyItem::Impl(x) => x.spec_id(),
            AnyItem::Function(x) => x.spec_id(),
        }
    }

    open spec fn spec_mod_path(&self) -> Seq<char> {
        match *self {
            AnyItem::Struct(x) => x.spec_mod_path(),
            AnyItem::Enum(x) => x.spec_mod_path(),
            AnyItem::Trait(x) => x.spec_mod_path(),
            AnyItem::Impl(x) => x.spec_mod_path(),
            AnyItem::Function(x) => x.spec_mod_path(),
        }
    }

    open spec fn spec_file(&self) -> Seq<char> {
        match *self {
            AnyItem::Struct(x) => x.spec_file(),
            AnyItem::Enum(x) => x.spec_file(),
            AnyItem::Trait(x) => x.spec_file(),
            AnyItem::Impl(x) => x.spec_file(),
            AnyItem::Function(x) => x.spec_file(),
        }
    }

    open spec fn spec_name(&self) -> Seq<char> {
        match *self {
            AnyItem::Struct(x) => x.spec_name(),
            AnyItem::Enum(x) => x.spec_name(),
            AnyItem::Trait(x) => x.spec_name(),
            AnyItem::Impl(x) => x.spec_name(),
            AnyItem::Function(x) => x.spec_name(),
        }
    }

    open spec fn spec_is_public(&self) -> bool {
        match *self {
            AnyItem::Struct(x) => x.spec_is_public(),
            AnyItem::Enum(x) => x.spec_is_public(),
            AnyItem::Trait(x) => x.spec_is_public(),
            AnyItem::Impl(x) => x.spec_is_public(),
            AnyItem::Function(x) => x.spec_is_public(),
        }
    }


    fn attrs(&self) -> (r: &Vec<syn::Attribute>) {
        match *self {
            AnyItem::Struct(x) => x.attrs(),
            AnyItem::Enum(x) => x.attrs(),
            AnyItem::Trait(x) => x.attrs(),
            AnyItem::Impl(x) => x.attrs(),
            AnyItem::Function(x) => x.attrs(),
        }
    }


    fn mod_path(&self) -> (r: String) {
        match *self {
            AnyItem::Struct(x) => x.mod_path(),
            AnyItem::Enum(x) => x.mod_path(),
            AnyItem::Trait(x) => x.mod_path(),
            AnyItem::Impl(x) => x.mod_path(),
            AnyItem::Function(x) => x.mod_path(),
        }
    }

    fn id(&self) -> (r: ItemId) {
        match *self {
            AnyItem::Struct(x) => x.id(),
            AnyItem::Enum(x) => x.id(),
            AnyItem::Trait(x) => x.id(),
            AnyItem::Impl(x) => x.id(),
            AnyItem::Function(x) => x.id(),
        }
    }

    fn file(&self) -> (r: &str) {
        match *self {
            AnyItem::Struct(x) => x.file(),
            AnyItem::Enum(x) => x.file(),
            AnyItem::Trait(x) => x.file(),
            AnyItem::Impl(x) => x.file(),
            AnyItem::Function(x) => x.file(),
        }
    }

    fn name(&self) -> (r: String) {
        match *self {
            AnyItem::Struct(x) => x.name(),
            AnyItem::Enum(x) => x.name(),
            AnyItem::Trait(x) => x.name(),
            AnyItem::Impl(x) => x.name(),
            AnyItem::Function(x) => x.name(),
        }
    }

    fn is_public(&self) -> (r: bool) {
        match *self {
            AnyItem::Struct(x) => x.is_public(),
            AnyItem::Enum(x) => x.is_public(),
            AnyItem::Trait(x) => x.is_public(),
            AnyItem::Impl(x) => x.is_public(),
            AnyItem::Function(x) => x.is_public(),
        }
    }
}

/// The items for which `pred` holds, in order.
pub open spec fn select<T>(items: Seq<T>, pred: spec_fn(T) -> bool) -> Seq<T>
    decreases items.len(),
{
    if items.len() == 0 {
        Seq::empty()
    } else {
        let prev = select(items.drop_last(), pred);
        if pred(items.last()) {
            prev.push(items.last())
        } else {
            prev
        }
    }
}

/// The items whose flag in `keep` is set, in order.
pub open spec fn keep_where<T>(items: Seq<T>, keep: Seq<bool>) -> Seq<T>
    decreases items.len(),
{
    if items.len() == 0 {
        Seq::empty()
    } else {
        let prev = keep_where(items.drop_last(), keep);
        if keep[items.len() - 1] {
            prev.push(items.last())
        } else {
            prev
        }
    }
}

/// Some attribute's path is the single identifier `name`.
pub open spec fn has_attr(attrs: Seq<syn::Attribute>, name: Seq<char>) -> bool {
    exists|j: int| 0 <= j < attrs.len() && attr_path_ident(#[trigger] attrs[j]) == Some(name)
}

/// The items that `f` answered `true` for, in order, with `f` called on
/// each item once.
pub open spec fn filtered_by<T, F: Fn(&T) -> bool>(items: Seq<T>, result: Seq<T>, f: F) -> bool {
    exists|keep: Seq<bool>| {
        &&& keep.len() == items.len()
        &&& forall|i: int| 0 <= i < items.len() ==> call_ensures(f, (&items[i],), #[trigger] keep[i])
        &&& result == keep_where(items, keep)
    }
}

/// The items whose name `f` answered `true` for, in order.
pub open spec fn name_matched_by<T: SemaItem, F: Fn(&str) -> bool>(items: Seq<T>, result: Seq<T>, f: F) -> bool {
    exists|keep: Seq<bool>| {
        &&& keep.len() == items.len()
        &&& forall|i: int| 0 <= i < items.len() ==> name_answer(f, items[i], #[trigger] keep[i])
        &&& result == keep_where(items, keep)
    }
}

/// An item is public exactly when its syntax tree declares it plain `pub`:
/// a restricted visibility (`pub(crate)`, `pub(super)`, `pub(in path)`) and
/// the inherited (private) one are not public, for structs, enums, traits
/// and free functions alike; impl blocks are never public.
pub proof fn lemma_public_is_plain_pub(
    s: ResolvedStruct,
    e: ResolvedEnum,
    t: ResolvedTrait,
    f: ResolvedFunction,
    i: ResolvedImpl,
)
    ensures
        s.spec_is_public() <==> struct_header_of(s.node).1 == Vis::Public,
        e.spec_is_public() <==> enum_header_of(e.node).1 == Vis::Public,
        t.spec_is_public() <==> trait_header_of(t.node).1 == Vis::Public,
        f.spec_is_public() <==> fn_header_of(f.node).1 == Vis::Public,
        !i.spec_is_public(),
        !(struct_header_of(s.node).1 == Vis::Inherited && s.spec_is_public()),
        !(trait_header_of(t.node).1 == Vis::Inherited && t.spec_is_public()),
        !(trait_header_of(t.node).1 == Vis::Restricted && t.spec_is_public()),
{
}

/// `public` keeps, in order, exactly the items declared plain `pub`.
pub proof fn lemma_public_keeps_plain_pub<T: SemaItem>(items: Seq<T>)
    ensures
        forall|x: T| select(items, is_public_item::<T>()).contains(x) <==> items.contains(x) && x.spec_is_public(),
{
    lemma_select_members(items, is_public_item::<T>());
}

/// A query over the structs of a workspace.
pub type StructQuery<'a> = Query<&'a ResolvedStruct>;

/// A chainable query over items; each filter keeps the order of the items.
pub struct Query<T> {
    items: Vec<T>,
}

impl<T> View for Query<T> {
    type V = Seq<T>;

    closed spec fn view(&self) -> Seq<T> {
        self.items@
    }
}

pub(crate) proof fn lemma_select_step<T>(items: Seq<T>, pred: spec_fn(T) -> bool, k: int)
    requires
        0 <= k < items.len(),
    ensures
        select(items.take(k + 1), pred) == if pred(items[k]) {
            select(items.take(k), pred).push(items[k])
        } else {
            select(items.take(k), pred)
        },
{
    assert(items.take(k + 1).drop_last() =~= items.take(k));
}

proof fn lemma_keep_step<T>(items: Seq<T>, keep: Seq<bool>, k: int)
    requires
        0 <= k < items.len(),
        keep.len() == items.len(),
    ensures
        keep_where(items.take(k + 1), keep) == if keep[k] {
            keep_where(items.take(k), keep).push(items[k])
        } else {
            keep_where(items.take(k), keep)
        },
{
    assert(items.take(k + 1).drop_last() =~= items.take(k));
}

impl<T: SemaItem> Query<T> {
    /// A query over the given items.
    pub fn new(items: Vec<T>) -> (q: Self)
        ensures
            q@ == items@,
    {
        Query { items }
    }

    /// Keeps the items that `f` answers `true` for.
    pub fn filter<F: Fn(&T) -> bool>(self, f: F) -> (q: Self)
        requires
            forall|i: int| 0 <= i < self@.len() ==> call_requires(f, (&self@[i],)),
        ensures
            filtered_by(self@, q@, f),
    {
        let ghost items = self.items@;
        assert forall|i: int| 0 <= i < items.len() implies call_requires(f, (&items[i],)) by {
            assert(items[i] == self@[i]);
        }
        let mut out: Vec<T> = Vec::new();
        let ghost mut keep: Seq<bool> = Seq::new(items.len(), |i: int| false);
        for item in it: self.items
            invariant
                items == it.seq(),
                keep.len() == items.len(),
                forall|i: int| 0 <= i < items.len() ==> call_requires(f, (&items[i],)),
                forall|i: int| 0 <= i < it.index() ==> call_ensures(f, (&items[i],), #[trigger] keep[i]),
                out@ == keep_where(items.take(it.index() as int), keep),
        {
            let ghost k = it.index();
            assert(items[k] == item);
            let b = f(&item);
            proof {
                let prev = keep;
                keep = keep.update(k, b);
                lemma_keep_step(items, keep, k);
                lemma_keep_where_prefix(items, prev, keep, k);
            }
            if b {
                out.push(item);
            }
        }
        proof {
            assert(items.take(items.len() as int) =~= items);
        }
        Query { items: out }
    }
}

/// The item carries an attribute whose path is the single identifier `name`.
pub open spec fn attr_is<T: SemaItem>(name: Seq<char>) -> spec_fn(T) -> bool {
    |x: T| has_attr(x.spec_attrs(), name)
}

/// The item's name is `name`.
pub open spec fn name_is<T: SemaItem>(name: Seq<char>) -> spec_fn(T) -> bool {
    |x: T| x.spec_name() == name
}

/// The item is public.
pub open spec fn is_public_item<T: SemaItem>() -> spec_fn(T) -> bool {
    |x: T| x.spec_is_public()
}

/// The item lies in the module `path` or below it, by whole path segments;
/// `path` may be written crate-qualified or relative to the crate root.
pub open spec fn in_module_of<T: SemaItem>(path: Seq<char>) -> spec_fn(T) -> bool {
    |x: T| module_matches(x.spec_mod_path(), path)
}

/// `f`, called on the item's name, may answer `b`.
pub open spec fn name_answer<T: SemaItem, F: Fn(&str) -> bool>(f: F, item: T, b: bool) -> bool {
    exists|s: &str| s@ == item.spec_name() && call_ensures(f, (s,), b)
}

/// Whether some attribute's path is the single identifier `name`.
fn attrs_contain(attrs: &Vec<syn::Attribute>, name: &str) -> (b: bool)
    ensures
        b == has_attr(attrs@, name@),
{
    let mut j: usize = 0;
    while j < attrs.len()
        invariant
            j <= attrs.len(),
            forall|k: int| 0 <= k < j ==> attr_path_ident(#[trigger] attrs@[k]) != Some(name@),
        decreases attrs.len() - j,
    {
        match attr_ident(&attrs[j]) {
            Some(a) => {
                if same_text(a.as_str(), name) {
                    return true;
                }
            },
            None => {},
        }
        j = j + 1;
    }
    false
}

impl<T: SemaItem> Query<T> {
    /// Keeps the items that carry an attribute whose path is the single
    /// identifier `name`.
    pub fn with_attribute(self, name: &str) -> (q: Self)
        ensures
            q@ == select(self@, attr_is::<T>(name@)),
    {
        let ghost items = self.items@;
        let ghost pred = attr_is::<T>(name@);
        let mut out: Vec<T> = Vec::new();
        for item in it: self.items
            invariant
                items == it.seq(),
                pred == attr_is::<T>(name@),
                out@ == select(items.take(it.index() as int), pred),
        {
            proof {
                lemma_select_step(items, pred, it.index() as int);
            }
            let keep = attrs_contain(item.attrs(), name);
            if keep {
                out.push(item);
            }
        }
        proof {
            assert(items.take(items.len() as int) =~= items);
        }
        Query { items: out }
    }

    /// Keeps the items named exactly `name` (the identifier of the item's
    /// syntax tree; `impl` and the module path for an impl block).
    pub fn named(self, name: &str) -> (q: Self)
        ensures
            q@ == select(self@, name_is::<T>(name@)),
    {
        let ghost items = self.items@;
        let ghost pred = name_is::<T>(name@);
        let mut out: Vec<T> = Vec::new();
        for item in it: self.items
            invariant
                items == it.seq(),
                pred == name_is::<T>(name@),
                out@ == select(items.take(it.index() as int), pred),
        {
            proof {
                lemma_select_step(items, pred, it.index() as int);
            }
            let n = item.name();
            if same_text(n.as_str(), name) {
                out.push(item);
            }
        }
        proof {
            assert(items.take(items.len() as int) =~= items);
        }
        Query { items: out }
    }

    /// Keeps the items declared plain `pub` in their syntax tree; a
    /// restricted visibility such as `pub(crate)` is not public, and impl
    /// blocks never are.
    pub fn public(self) -> (q: Self)
        ensures
            q@ == select(self@, is_public_item::<T>()),
    {
        let ghost items = self.items@;
        let ghost pred = is_public_item::<T>();
        let mut out: Vec<T> = Vec::new();
        for item in it: self.items
            invariant
                items == it.seq(),
                pred == is_public_item::<T>(),
                out@ == select(items.take(it.index() as int), pred),
        {
            proof {
                lemma_select_step(items, pred, it.index() as int);
            }
            if item.is_public() {
                out.push(item);
            }
        }
        proof {
            assert(items.take(items.len() as int) =~= items);
        }
        Query { items: out }
    }

    /// Keeps the items of the module `path` and of the modules below it:
    /// `in_module("motor")` and `in_module("crate::motor")` both keep the
    /// items of `crate::motor` and `crate::motor::state`, not those of
    /// `crate::motorbike`.
    pub fn in_module(self, path: &str) -> (q: Self)
        ensures
            q@ == select(self@, in_module_of::<T>(path@)),
    {
        let ghost items = self.items@;
        let ghost pred = in_module_of::<T>(path@);
        let mut out: Vec<T> = Vec::new();
        for item in it: self.items
            invariant
                items == it.seq(),
                pred == in_module_of::<T>(path@),
                out@ == select(items.take(it.index() as int), pred),
        {
            proof {
                lemma_select_step(items, pred, it.index() as int);
            }
            let m = item.mod_path();
            if matches_module(m.as_str(), path) {
                out.push(item);
            }
        }
        proof {
            assert(items.take(items.len() as int) =~= items);
        }
        Query { items: out }
    }

    /// Keeps the items whose name `f` answers `true` for.
    pub fn named_matching<F: Fn(&str) -> bool>(self, f: F) -> (q: Self)
        requires
            forall|s: &str| call_requires(f, (s,)),
        ensures
            name_matched_by(self@, q@, f),
    {
        let ghost items = self.items@;
        let mut out: Vec<T> = Vec::new();
        let ghost mut keep: Seq<bool> = Seq::new(items.len(), |i: int| false);
        for item in it: self.items
            invariant
                items == it.seq(),
                keep.len() == items.len(),
                forall|s: &str| call_requires(f, (s,)),
                forall|i: int| 0 <= i < it.index() ==> name_answer(f, items[i], #[trigger] keep[i]),
                out@ == keep_where(items.take(it.index() as int), keep),
        {
            let ghost k = it.index();
            let n = item.name();
            let b = f(n.as_str());
            proof {
                let prev = keep;
                keep = keep.update(k, b);
                assert(name_answer(f, items[k], b));
                lemma_keep_step(items, keep, k);
                lemma_keep_where_prefix(items, prev, keep, k);
            }
            if b {
                out.push(item);
            }
        }
        proof {
            assert(items.take(items.len() as int) =~= items);
        }
        Query { items: out }
    }

    /// The items left, in order.
    pub fn collect(self) -> (v: Vec<T>)
        ensures
            v@ == self@,
    {
        self.items
    }

    /// The first item left, if any.
    pub fn first(self) -> (r: Option<T>)
        ensures
            r == (if self@.len() > 0 { Some(self@[0]) } else { None::<T> }),
    {
        let mut v = self.items;
        if v.len() == 0 {
            None
        } else {
            Some(v.remove(0))
        }
    }

    /// How many items are left.
    pub fn count(self) -> (n: usize)
        ensures
            n == self@.len(),
    {
        self.items.len()
    }

    /// Whether any item is left.
    pub fn any(self) -> (b: bool)
        ensures
            b == (self@.len() > 0),
    {
        self.items.len() > 0
    }

    /// Keeps every item; the workspace is not consulted.
    pub fn with_impl(self, workspace: &Workspace) -> (q: Self)
        ensures
            q@ == self@,
    {
        self
    }

    /// The items left, as an iterator.
    pub fn into_iter(self) -> (it: std::vec::IntoIter<T>)
        ensures
            it.remaining() == self@,
    {
        self.items.into_iter()
    }
}


/// `select` on a sequence with one more item at the end.
proof fn lemma_select_push<T>(items: Seq<T>, a: T, pred: spec_fn(T) -> bool)
    ensures
        select(items.push(a), pred) == if pred(a) { select(items, pred).push(a) } else { select(items, pred) },
{
    assert(items.push(a).drop_last() =~= items);
}

/// A filter keeps exactly the items for which its predicate holds, in their
/// order: every kept item satisfies it and is one of the items, no more items
/// come out than went in, and every item that satisfies it is kept.
pub proof fn lemma_select_members<T>(items: Seq<T>, pred: spec_fn(T) -> bool)
    ensures
        select(items, pred).len() <= items.len(),
        forall|i: int| 0 <= i < select(items, pred).len()
            ==> pred(#[trigger] select(items, pred)[i]) && items.contains(select(items, pred)[i]),
        forall|i: int| 0 <= i < items.len() && pred(#[trigger] items[i]) ==> select(items, pred).contains(items[i]),
    decreases items.len(),
{
    if items.len() > 0 {
        let d = items.drop_last();
        lemma_select_members(d, pred);
        let prev = select(d, pred);
        let cur = select(items, pred);
        assert forall|i: int| 0 <= i < cur.len() implies pred(#[trigger] cur[i]) && items.contains(cur[i]) by {
            if i < prev.len() {
                assert(cur[i] == prev[i]);
                let j = choose|j: int| 0 <= j < d.len() && d[j] == prev[i];
                assert(items[j] == prev[i]);
            } else {
                assert(items[items.len() - 1] == cur[i]);
            }
        }
        assert forall|i: int| 0 <= i < items.len() && pred(#[trigger] items[i]) implies cur.contains(items[i]) by {
            if i < d.len() {
                assert(d[i] == items[i]);
                let j = choose|j: int| 0 <= j < prev.len() && prev[j] == d[i];
                assert(cur[j] == prev[j]);
            } else {
                assert(cur[cur.len() - 1] == items[i]);
            }
        }
    }
}

/// Two filters give the same items whichever runs first.
pub proof fn lemma_select_commutes<T>(items: Seq<T>, p: spec_fn(T) -> bool, q: spec_fn(T) -> bool)
    ensures
        select(select(items, p), q) == select(select(items, q), p),
    decreases items.len(),
{
    if items.len() > 0 {
        let d = items.drop_last();
        let a = items.last();
        lemma_select_commutes(d, p, q);
        assert(d.push(a) =~= items);
        lemma_select_push(d, a, p);
        lemma_select_push(d, a, q);
        lemma_select_push(select(d, p), a, q);
        lemma_select_push(select(d, q), a, p);
    }
}

/// Keeping the items whose flag is set, where each flag is `p` of its
/// item, is selecting by `p`.
proof fn lemma_keep_where_select<T>(items: Seq<T>, keep: Seq<bool>, p: spec_fn(T) -> bool)
    requires
        keep.len() >= items.len(),
        forall|i: int| 0 <= i < items.len() ==> keep[i] == p(#[trigger] items[i]),
    ensures
        keep_where(items, keep) == select(items, p),
    decreases items.len(),
{
    if items.len() > 0 {
        let d = items.drop_last();
        assert forall|i: int| 0 <= i < d.len() implies keep[i] == p(#[trigger] d[i]) by {
            assert(d[i] == items[i]);
        }
        lemma_keep_where_select(d, keep, p);
        assert(keep[items.len() - 1] == p(items[items.len() - 1]));
    }
}

/// The closure answers every item in at most one way.
pub open spec fn answers_once<T, F: Fn(&T) -> bool>(f: F) -> bool {
    forall|x: &T, a: bool, b: bool| call_ensures(f, (x,), a) && call_ensures(f, (x,), b) ==> a == b
}

/// The items the closure answers `true` for.
pub open spec fn answered_true<T, F: Fn(&T) -> bool>(f: F) -> spec_fn(T) -> bool {
    |x: T| call_ensures(f, (&x,), true)
}

/// With a closure that answers each item in one way only, filtering by it
/// selects the items it answers `true` for.
proof fn lemma_filtered_selects<T, F: Fn(&T) -> bool>(items: Seq<T>, result: Seq<T>, f: F)
    requires
        answers_once(f),
        filtered_by(items, result, f),
    ensures
        result == select(items, answered_true::<T, F>(f)),
{
    let keep = choose|keep: Seq<bool>| {
        &&& keep.len() == items.len()
        &&& forall|i: int| 0 <= i < items.len() ==> call_ensures(f, (&items[i],), #[trigger] keep[i])
        &&& result == keep_where(items, keep)
    };
    assert forall|i: int| 0 <= i < items.len() implies keep[i] == answered_true::<T, F>(f)(#[trigger] items[i]) by {
        assert(call_ensures(f, (&items[i],), keep[i]));
    }
    lemma_keep_where_select(items, keep, answered_true::<T, F>(f));
}

/// Two filters commute when each closure answers every item in one way
/// only: filtering by `f` then `g` keeps the same items, in the same order,
/// as filtering by `g` then `f`. (A closure that may answer an item both
/// ways, say one that reads a clock, can make the two orders differ.)
pub proof fn lemma_filters_commute<T, F: Fn(&T) -> bool, G: Fn(&T) -> bool>(
    items: Seq<T>,
    f: F,
    g: G,
    by_f: Seq<T>,
    by_f_then_g: Seq<T>,
    by_g: Seq<T>,
    by_g_then_f: Seq<T>,
)
    requires
        answers_once(f),
        answers_once(g),
        filtered_by(items, by_f, f),
        filtered_by(by_f, by_f_then_g, g),
        filtered_by(items, by_g, g),
        filtered_by(by_g, by_g_then_f, f),
    ensures
        by_f_then_g == by_g_then_f,
{
    lemma_filtered_selects(items, by_f, f);
    lemma_filtered_selects(by_f, by_f_then_g, g);
    lemma_filtered_selects(items, by_g, g);
    lemma_filtered_selects(by_g, by_g_then_f, f);
    lemma_select_commutes(items, answered_true::<T, F>(f), answered_true::<T, G>(g));
}

/// Filtering twice by the same predicate is filtering once.
pub proof fn lemma_select_idempotent<T>(items: Seq<T>, p: spec_fn(T) -> bool)
    ensures
        select(select(items, p), p) == select(items, p),
    decreases items.len(),
{
    if items.len() > 0 {
        let d = items.drop_last();
        let a = items.last();
        lemma_select_idempotent(d, p);
        assert(d.push(a) =~= items);
        lemma_select_push(d, a, p);
        lemma_select_push(select(d, p), a, p);
    }
}

/// `keep_where` over a prefix depends only on the flags of that prefix.
proof fn lemma_keep_where_prefix<T>(items: Seq<T>, k1: Seq<bool>, k2: Seq<bool>, n: int)
    requires
        0 <= n <= items.len(),
        k1.len() == items.len(),
        k2.len() == items.len(),
        forall|i: int| 0 <= i < n ==> k1[i] == k2[i],
    ensures
        keep_where(items.take(n), k1) == keep_where(items.take(n), k2),
    decreases n,
{
    if n > 0 {
        lemma_keep_where_prefix(items, k1, k2, n - 1);
        assert(items.take(n).drop_last() =~= items.take(n - 1));
    }
}

} // verus!
