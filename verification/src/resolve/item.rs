use vstd::prelude::*;
use crate::resolve::ids::{spec_item_id, ItemId, ModuleId};

verus! {

/// A name-addressable top-level item of a module.
pub struct ModuleItem {
    pub name: String,
    pub id: ItemId,
    pub kind: ItemKind,
    pub is_pub: bool,
    pub parent: ModuleId,
    pub mod_path: String,
    /// For each attribute, its path when that path is a single identifier.
    pub attr_names: Vec<Option<String>>,
    /// The names of the variants when the item is an enum; empty otherwise.
    pub variants: Vec<String>,
}

/// What kind of item a `ModuleItem` is, with its syntax tree.
pub enum ItemKind {
    Fn(syn::ItemFn),
    Enum(syn::ItemEnum),
    Struct(syn::ItemStruct),
    Trait(syn::ItemTrait),
    Const(syn::ItemConst),
    Module(syn::ItemMod),
    Unhandled,
}

/// A top-level item of a file as read from its syntax tree, before the
/// module it belongs to has a path.
pub struct ItemSource {
    pub name: String,
    pub is_pub: bool,
    pub attr_names: Vec<Option<String>>,
    pub variants: Vec<String>,
    pub kind: ItemKind,
}

/// `item` is `src` placed in the module `parent` whose path is `mod_path`.
pub open spec fn lowered_from(item: ModuleItem, src: ItemSource, parent: ModuleId, mod_path: Seq<char>) -> bool {
    &&& item.name@ == src.name@
    &&& item.id == spec_item_id(mod_path, src.name@)
    &&& item.kind == src.kind
    &&& item.is_pub == src.is_pub
    &&& item.parent == parent
    &&& item.mod_path@ == mod_path
    &&& item.attr_names == src.attr_names
    &&& item.variants == src.variants
}

/// Places an item read from a file into its module: the item's id is
/// derived from the module path and the item's name.
pub(crate) fn lower_items(src: ItemSource, parent: &ModuleId, mod_path: &str) -> (item: ModuleItem)
    ensures
        lowered_from(item, src, *parent, mod_path@),
{
    let id = ItemId::from(mod_path, src.name.as_str());
    ModuleItem {
        name: src.name,
        id,
        kind: src.kind,
        is_pub: src.is_pub,
        parent: parent.clone_id(),
        mod_path: String::from_str(mod_path),
        attr_names: src.attr_names,
        variants: src.variants,
    }
}


/// No two items of the table share an id.
pub open spec fn ids_distinct(items: Seq<ModuleItem>) -> bool {
    forall|i: int, j: int| 0 <= i < j < items.len() ==> (#[trigger] items[i]).id != (#[trigger] items[j]).id
}

/// The table has an item with this id.
pub open spec fn table_has(items: Seq<ModuleItem>, id: ItemId) -> bool {
    exists|i: int| 0 <= i < items.len() && (#[trigger] items[i]).id == id
}

/// Position of the item with this id in the table.
pub(crate) fn find_item(items: &Vec<ModuleItem>, id: ItemId) -> (r: Option<usize>)
    ensures
        match r {
            Some(i) => i < items@.len() && items@[i as int].id == id,
            None => !table_has(items@, id),
        },
{
    let mut i: usize = 0;
    while i < items.len()
        invariant
            i <= items@.len(),
            forall|k: int| 0 <= k < i ==> (#[trigger] items@[k]).id != id,
        decreases items.len() - i,
    {
        if items[i].id == id {
            return Some(i);
        }
        i = i + 1;
    }
    None
}

/// Adds an item to the table; an item with the same id is replaced in place.
pub(crate) fn insert_item(items: &mut Vec<ModuleItem>, item: ModuleItem)
    requires
        ids_distinct(old(items)@),
    ensures
        ids_distinct(final(items)@),
        table_has(final(items)@, item.id),
        forall|id: ItemId| table_has(old(items)@, id) ==> table_has(final(items)@, id),
        forall|k: int| 0 <= k < final(items)@.len() ==> (#[trigger] final(items)@[k] == item || old(items)@.contains(final(items)@[k])),
        table_has(old(items)@, item.id) ==> exists|i: int| 0 <= i < old(items)@.len() && (#[trigger] old(items)@[i]).id == item.id
            && final(items)@ == old(items)@.update(i, item),
        !table_has(old(items)@, item.id) ==> final(items)@ == old(items)@.push(item),
{
    let ghost before = items@;
    let ghost it = item;
    match find_item(items, item.id) {
        Some(i) => {
            items.set(i, item);
            assert(items@ == before.update(i as int, it));
            assert(items@[i as int] == it);
            assert forall|id: ItemId| table_has(before, id) implies table_has(items@, id) by {
                let w = choose|w: int| 0 <= w < before.len() && before[w].id == id;
                assert(items@[w].id == id);
            }
            assert forall|k: int| 0 <= k < items@.len() implies (#[trigger] items@[k] == it || before.contains(items@[k])) by {
                if k != i {
                    assert(items@[k] == before[k]);
                }
            }
        },
        None => {
            items.push(item);
            assert(items@[before.len() as int] == it);
            assert forall|id: ItemId| table_has(before, id) implies table_has(items@, id) by {
                let w = choose|w: int| 0 <= w < before.len() && before[w].id == id;
                assert(items@[w].id == id);
            }
            assert forall|k: int| 0 <= k < items@.len() implies (#[trigger] items@[k] == it || before.contains(items@[k])) by {
                if k < before.len() {
                    assert(items@[k] == before[k]);
                }
            }
        },
    }
}

} // verus!
