//! The analysed crate: every resolved item, and the indexes that link impl
//! blocks to the types and traits they belong to.

use vstd::prelude::*;
use std::collections::HashMap;
use crate::resolve::db::index_push;
use crate::resolve::ids::ItemId;
use crate::query::{lemma_select_members, select, AnyItem, Query, SemaItem};
use crate::types::{ResolvedEnum, ResolvedFunction, ResolvedImpl, ResolvedStruct, ResolvedTrait};

verus! {

/// The ids of a list of structs.
pub open spec fn struct_ids(s: Seq<ResolvedStruct>) -> Seq<ItemId> {
    s.map_values(|x: ResolvedStruct| x.id)
}

/// The ids of a list of traits.
pub open spec fn trait_ids(t: Seq<ResolvedTrait>) -> Seq<ItemId> {
    t.map_values(|x: ResolvedTrait| x.id)
}

/// The position of the last id whose raw value is `k`.
pub open spec fn last_with(ids: Seq<ItemId>, k: u64) -> Option<int>
    decreases ids.len(),
{
    if ids.len() == 0 {
        None
    } else if ids.last().raw() == k {
        Some(ids.len() - 1)
    } else {
        last_with(ids.drop_last(), k)
    }
}

/// The trait with this id, the last one when several share it.
pub open spec fn trait_with(traits: Seq<ResolvedTrait>, id: ItemId) -> Option<ResolvedTrait> {
    match last_with(trait_ids(traits), id.raw()) {
        Some(i) => Some(traits[i]),
        None => None,
    }
}

/// What each impl's self type resolved to.
pub open spec fn self_refs(impls: Seq<ResolvedImpl>) -> Seq<Option<ItemId>> {
    impls.map_values(|i: ResolvedImpl| i.self_ty.resolved)
}

/// What each impl's trait resolved to (`None` for an inherent impl).
pub open spec fn trait_refs(impls: Seq<ResolvedImpl>) -> Seq<Option<ItemId>> {
    impls.map_values(|i: ResolvedImpl| match i.trait_ {
        Some(t) => t.resolved,
        None => None,
    })
}

/// The positions, in order, of the references that resolved to raw id `k`.
pub open spec fn positions(refs: Seq<Option<ItemId>>, k: u64) -> Seq<usize>
    decreases refs.len(),
{
    if refs.len() == 0 {
        Seq::empty()
    } else {
        let prev = positions(refs.drop_last(), k);
        match refs.last() {
            Some(id) => if id.raw() == k {
                prev.push((refs.len() - 1) as usize)
            } else {
                prev
            },
            None => prev,
        }
    }
}

/// The impls whose self type resolved to `id`, in order.
pub open spec fn impls_for(impls: Seq<ResolvedImpl>, id: ItemId) -> Seq<ResolvedImpl>
    decreases impls.len(),
{
    if impls.len() == 0 {
        Seq::empty()
    } else {
        let prev = impls_for(impls.drop_last(), id);
        if impls.last().self_ty.resolved == Some(id) {
            prev.push(impls.last())
        } else {
            prev
        }
    }
}

/// The impls whose trait resolved to `id`, in order.
pub open spec fn impls_of(impls: Seq<ResolvedImpl>, id: ItemId) -> Seq<ResolvedImpl>
    decreases impls.len(),
{
    if impls.len() == 0 {
        Seq::empty()
    } else {
        let prev = impls_of(impls.drop_last(), id);
        if (match impls.last().trait_ {
            Some(t) => t.resolved == Some(id),
            None => false,
        }) {
            prev.push(impls.last())
        } else {
            prev
        }
    }
}

/// A by-id index agrees with `last_with`.
pub open spec fn id_index_ok(map: Map<u64, usize>, ids: Seq<ItemId>) -> bool {
    forall|k: u64| #[trigger] map.contains_key(k) == (last_with(ids, k) is Some)
        && (map.contains_key(k) ==> map[k] as int == last_with(ids, k)->0)
}

/// A by-target index agrees with `positions`.
pub open spec fn ref_index_ok(map: Map<u64, Vec<usize>>, refs: Seq<Option<ItemId>>) -> bool {
    forall|k: u64| #[trigger] map.contains_key(k) == (positions(refs, k).len() > 0)
        && (map.contains_key(k) ==> map[k]@ == positions(refs, k))
}

proof fn lemma_last_with_bounds(ids: Seq<ItemId>, k: u64)
    ensures
        last_with(ids, k) matches Some(i) ==> 0 <= i < ids.len() && ids[i].raw() == k,
        last_with(ids, k) is None ==> forall|i: int| 0 <= i < ids.len() ==> ids[i].raw() != k,
    decreases ids.len(),
{
    if ids.len() > 0 {
        lemma_last_with_bounds(ids.drop_last(), k);
        assert forall|i: int| 0 <= i < ids.len() - 1 implies ids.drop_last()[i] == ids[i] by {}
    }
}

proof fn lemma_positions_bounds(refs: Seq<Option<ItemId>>, k: u64)
    requires
        refs.len() <= usize::MAX,
    ensures
        forall|j: int| 0 <= j < positions(refs, k).len() ==> (#[trigger] positions(refs, k)[j]) < refs.len(),
    decreases refs.len(),
{
    if refs.len() > 0 {
        lemma_positions_bounds(refs.drop_last(), k);
        let prev = positions(refs.drop_last(), k);
        let n1 = (refs.len() - 1) as usize;
        assert(n1 as int == refs.len() - 1);
        assert forall|j: int| 0 <= j < positions(refs, k).len() implies (#[trigger] positions(refs, k)[j]) < refs.len() by {
            if j < prev.len() {
                assert(positions(refs, k)[j] == prev[j]);
            }
        }
    }
}

proof fn lemma_impls_for_positions(impls: Seq<ResolvedImpl>, id: ItemId)
    requires
        impls.len() <= usize::MAX,
    ensures
        positions(self_refs(impls), id.raw()).map_values(|j: usize| impls[j as int]) == impls_for(impls, id),
    decreases impls.len(),
{
    ItemId::lemma_raw_injective_all();
    if impls.len() > 0 {
        let d = impls.drop_last();
        lemma_impls_for_positions(d, id);
        assert(self_refs(impls).drop_last() =~= self_refs(d));
        lemma_positions_bounds(self_refs(d), id.raw());
        let pd = positions(self_refs(d), id.raw());
        assert(pd.map_values(|j: usize| impls[j as int]) =~= pd.map_values(|j: usize| d[j as int]));
        let refs = self_refs(impls);
        assert(refs.drop_last() =~= self_refs(d));
        let n1 = (impls.len() - 1) as usize;
        assert(n1 as int == impls.len() - 1);
        match refs.last() {
            Some(x) => {
                if x.raw() == id.raw() {
                    assert(x == id);
                    assert(positions(refs, id.raw()) == pd.push(n1));
                    assert(positions(refs, id.raw()).map_values(|j: usize| impls[j as int])
                        =~= pd.map_values(|j: usize| impls[j as int]).push(impls[n1 as int]));
                } else {
                    assert(x != id);
                    assert(positions(refs, id.raw()) == pd);
                }
            },
            None => {
                assert(positions(refs, id.raw()) == pd);
            },
        }
        assert(positions(self_refs(impls), id.raw()).map_values(|j: usize| impls[j as int]) =~= impls_for(impls, id));
    }
}

proof fn lemma_impls_of_positions(impls: Seq<ResolvedImpl>, id: ItemId)
    requires
        impls.len() <= usize::MAX,
    ensures
        positions(trait_refs(impls), id.raw()).map_values(|j: usize| impls[j as int]) == impls_of(impls, id),
    decreases impls.len(),
{
    ItemId::lemma_raw_injective_all();
    if impls.len() > 0 {
        let d = impls.drop_last();
        lemma_impls_of_positions(d, id);
        assert(trait_refs(impls).drop_last() =~= trait_refs(d));
        lemma_positions_bounds(trait_refs(d), id.raw());
        let pd = positions(trait_refs(d), id.raw());
        assert(pd.map_values(|j: usize| impls[j as int]) =~= pd.map_values(|j: usize| d[j as int]));
        let refs = trait_refs(impls);
        assert(refs.drop_last() =~= trait_refs(d));
        let n1 = (impls.len() - 1) as usize;
        assert(n1 as int == impls.len() - 1);
        match refs.last() {
            Some(x) => {
                if x.raw() == id.raw() {
                    assert(x == id);
                    assert(positions(refs, id.raw()) == pd.push(n1));
                    assert(positions(refs, id.raw()).map_values(|j: usize| impls[j as int])
                        =~= pd.map_values(|j: usize| impls[j as int]).push(impls[n1 as int]));
                } else {
                    assert(x != id);
                    assert(positions(refs, id.raw()) == pd);
                }
            },
            None => {
                assert(positions(refs, id.raw()) == pd);
            },
        }
        assert(positions(trait_refs(impls), id.raw()).map_values(|j: usize| impls[j as int]) =~= impls_of(impls, id));
    }
}


/// Every resolved item of the crate, and the indexes that relate impl
/// blocks to the types and traits they belong to.
pub struct Workspace {
    structs: Vec<ResolvedStruct>,
    enums: Vec<ResolvedEnum>,
    traits: Vec<ResolvedTrait>,
    impls: Vec<ResolvedImpl>,
    files: Vec<String>,
    functions: Vec<ResolvedFunction>,
    struct_by_id: HashMap<u64, usize>,
    trait_by_id: HashMap<u64, usize>,
    impls_by_self_ty: HashMap<u64, Vec<usize>>,
    impls_by_trait: HashMap<u64, Vec<usize>>,
}

impl Workspace {
    pub closed spec fn structs_view(&self) -> Seq<ResolvedStruct> {
        self.structs@
    }

    pub closed spec fn enums_view(&self) -> Seq<ResolvedEnum> {
        self.enums@
    }

    pub closed spec fn traits_view(&self) -> Seq<ResolvedTrait> {
        self.traits@
    }

    pub closed spec fn impls_view(&self) -> Seq<ResolvedImpl> {
        self.impls@
    }

    pub closed spec fn files_view(&self) -> Seq<String> {
        self.files@
    }

    pub closed spec fn functions_view(&self) -> Seq<ResolvedFunction> {
        self.functions@
    }

    #[verifier::type_invariant]
    spec fn wf(self) -> bool {
        &&& id_index_ok(self.struct_by_id@, struct_ids(self.structs@))
        &&& id_index_ok(self.trait_by_id@, trait_ids(self.traits@))
        &&& ref_index_ok(self.impls_by_self_ty@, self_refs(self.impls@))
        &&& ref_index_ok(self.impls_by_trait@, trait_refs(self.impls@))
        &&& self.impls@.len() <= usize::MAX
    }

    /// Indexes the resolved items: structs and traits by id (the last one
    /// wins when two share an id), impl blocks by the id their self type
    /// resolved to and by the id their trait resolved to.
    pub(crate) fn new(
        structs: Vec<ResolvedStruct>,
        enums: Vec<ResolvedEnum>,
        traits: Vec<ResolvedTrait>,
        impls: Vec<ResolvedImpl>,
        files: Vec<String>,
        functions: Vec<ResolvedFunction>,
    ) -> (ws: Self)
        ensures
            ws.structs_view() == structs@,
            ws.enums_view() == enums@,
            ws.traits_view() == traits@,
            ws.impls_view() == impls@,
            ws.files_view() == files@,
            ws.functions_view() == functions@,
    {
        broadcast use vstd::std_specs::hash::group_hash_axioms;
        let mut struct_by_id: HashMap<u64, usize> = HashMap::new();
        let mut trait_by_id: HashMap<u64, usize> = HashMap::new();
        let mut impls_by_self_ty: HashMap<u64, Vec<usize>> = HashMap::new();
        let mut impls_by_trait: HashMap<u64, Vec<usize>> = HashMap::new();

        let mut idx: usize = 0;
        while idx < structs.len()
            invariant
                idx <= structs@.len(),
                id_index_ok(struct_by_id@, struct_ids(structs@.take(idx as int))),
            decreases structs.len() - idx,
        {
            let ghost old_map = struct_by_id@;
            struct_by_id.insert(structs[idx].id.value(), idx);
            proof {
                assert(struct_ids(structs@.take(idx + 1)).drop_last() =~= struct_ids(structs@.take(idx as int)));
            }
            idx = idx + 1;
        }
        assert(structs@.take(structs@.len() as int) =~= structs@);

        let mut idx: usize = 0;
        while idx < traits.len()
            invariant
                idx <= traits@.len(),
                id_index_ok(trait_by_id@, trait_ids(traits@.take(idx as int))),
            decreases traits.len() - idx,
        {
            trait_by_id.insert(traits[idx].id.value(), idx);
            proof {
                assert(trait_ids(traits@.take(idx + 1)).drop_last() =~= trait_ids(traits@.take(idx as int)));
            }
            idx = idx + 1;
        }
        assert(traits@.take(traits@.len() as int) =~= traits@);

        let mut idx: usize = 0;
        while idx < impls.len()
            invariant
                idx <= impls@.len(),
                ref_index_ok(impls_by_self_ty@, self_refs(impls@.take(idx as int))),
                ref_index_ok(impls_by_trait@, trait_refs(impls@.take(idx as int))),
            decreases impls.len() - idx,
        {
            let ghost old_self = impls_by_self_ty@;
            let ghost old_trait = impls_by_trait@;
            let ghost pre = impls@.take(idx as int);
            let ghost post = impls@.take(idx + 1);
            assert(self_refs(post).drop_last() =~= self_refs(pre));
            assert(trait_refs(post).drop_last() =~= trait_refs(pre));
            let i = &impls[idx];
            match i.self_ty.resolved {
                Some(id) => {
                    index_push(&mut impls_by_self_ty, id.value(), idx);
                    proof {
                        assert forall|k: u64| #[trigger] impls_by_self_ty@.contains_key(k) == (positions(self_refs(post), k).len() > 0)
                            && (impls_by_self_ty@.contains_key(k) ==> impls_by_self_ty@[k]@ == positions(self_refs(post), k)) by {
                            if k != id.raw() {
                                assert(positions(self_refs(post), k) == positions(self_refs(pre), k));
                                assert(old_self.contains_key(k) == (positions(self_refs(pre), k).len() > 0));
                            } else {
                                assert(old_self.contains_key(k) == (positions(self_refs(pre), k).len() > 0));
                            }
                        }
                    }
                },
                None => {
                    proof {
                        assert forall|k: u64| #[trigger] impls_by_self_ty@.contains_key(k) == (positions(self_refs(post), k).len() > 0)
                            && (impls_by_self_ty@.contains_key(k) ==> impls_by_self_ty@[k]@ == positions(self_refs(post), k)) by {
                            assert(positions(self_refs(post), k) == positions(self_refs(pre), k));
                            assert(old_self.contains_key(k) == (positions(self_refs(pre), k).len() > 0));
                        }
                    }
                },
            }
            let trait_resolved = match &i.trait_ {
                Some(t) => t.resolved,
                None => None,
            };
            match trait_resolved {
                Some(id) => {
                    index_push(&mut impls_by_trait, id.value(), idx);
                    proof {
                        assert forall|k: u64| #[trigger] impls_by_trait@.contains_key(k) == (positions(trait_refs(post), k).len() > 0)
                            && (impls_by_trait@.contains_key(k) ==> impls_by_trait@[k]@ == positions(trait_refs(post), k)) by {
                            if k != id.raw() {
                                assert(positions(trait_refs(post), k) == positions(trait_refs(pre), k));
                                assert(old_trait.contains_key(k) == (positions(trait_refs(pre), k).len() > 0));
                            } else {
                                assert(old_trait.contains_key(k) == (positions(trait_refs(pre), k).len() > 0));
                            }
                        }
                    }
                },
                None => {
                    proof {
                        assert forall|k: u64| #[trigger] impls_by_trait@.contains_key(k) == (positions(trait_refs(post), k).len() > 0)
                            && (impls_by_trait@.contains_key(k) ==> impls_by_trait@[k]@ == positions(trait_refs(post), k)) by {
                            assert(positions(trait_refs(post), k) == positions(trait_refs(pre), k));
                            assert(old_trait.contains_key(k) == (positions(trait_refs(pre), k).len() > 0));
                        }
                    }
                },
            }
            idx = idx + 1;
        }
        assert(impls@.take(impls@.len() as int) =~= impls@);
        assert(impls@.len() <= usize::MAX) by {
            let n = impls.len();
        }

        Workspace {
            structs,
            enums,
            traits,
            impls,
            files,
            functions,
            struct_by_id,
            trait_by_id,
            impls_by_self_ty,
            impls_by_trait,
        }
    }

    /// The impls at the given positions, in order.
    fn impls_at(&self, indices: &Vec<usize>) -> (r: Vec<&ResolvedImpl>)
        requires
            forall|j: int| 0 <= j < indices@.len() ==> (#[trigger] indices@[j]) < self.impls_view().len(),
        ensures
            r@.map_values(|p: &ResolvedImpl| *p) == indices@.map_values(|j: usize| self.impls_view()[j as int]),
    {
        let mut r: Vec<&ResolvedImpl> = Vec::new();
        let mut k: usize = 0;
        while k < indices.len()
            invariant
                k <= indices@.len(),
                forall|j: int| 0 <= j < indices@.len() ==> (#[trigger] indices@[j]) < self.impls_view().len(),
                r@.map_values(|p: &ResolvedImpl| *p) == indices@.take(k as int).map_values(|j: usize| self.impls_view()[j as int]),
            decreases indices.len() - k,
        {
            let ghost old_r = r@;
            let ghost j = indices@[k as int];
            r.push(&self.impls[indices[k]]);
            proof {
                assert(indices@.take(k + 1) =~= indices@.take(k as int).push(j));
                assert(r@ =~= old_r.push(&self.impls@[j as int]));
                assert(r@.map_values(|p: &ResolvedImpl| *p) =~= old_r.map_values(|p: &ResolvedImpl| *p).push(self.impls@[j as int]));
                assert(indices@.take(k + 1).map_values(|j: usize| self.impls_view()[j as int])
                    =~= indices@.take(k as int).map_values(|j: usize| self.impls_view()[j as int]).push(self.impls@[j as int]));
            }
            k = k + 1;
        }
        assert(indices@.take(indices@.len() as int) =~= indices@);
        r
    }

    /// The impl blocks whose self type resolved to `struct_id`, in order.
    pub fn impls_for_struct(&self, struct_id: ItemId) -> (r: Vec<&ResolvedImpl>)
        ensures
            r@.map_values(|p: &ResolvedImpl| *p) == impls_for(self.impls_view(), struct_id),
    {
        broadcast use vstd::std_specs::hash::group_hash_axioms;
        proof {
            use_type_invariant(self);
            lemma_impls_for_positions(self.impls@, struct_id);
            lemma_positions_bounds(self_refs(self.impls@), struct_id.raw());
        }
        match self.impls_by_self_ty.get(&struct_id.value()) {
            Some(indices) => self.impls_at(indices),
            None => {
                let r: Vec<&ResolvedImpl> = Vec::new();
                assert(r@.map_values(|p: &ResolvedImpl| *p) =~= impls_for(self.impls_view(), struct_id));
                r
            },
        }
    }

    /// The impl blocks whose trait resolved to `trait_id`, in order.
    pub fn impls_of_trait(&self, trait_id: ItemId) -> (r: Vec<&ResolvedImpl>)
        ensures
            r@.map_values(|p: &ResolvedImpl| *p) == impls_of(self.impls_view(), trait_id),
    {
        broadcast use vstd::std_specs::hash::group_hash_axioms;
        proof {
            use_type_invariant(self);
            lemma_impls_of_positions(self.impls@, trait_id);
            lemma_positions_bounds(trait_refs(self.impls@), trait_id.raw());
        }
        match self.impls_by_trait.get(&trait_id.value()) {
            Some(indices) => self.impls_at(indices),
            None => {
                let r: Vec<&ResolvedImpl> = Vec::new();
                assert(r@.map_values(|p: &ResolvedImpl| *p) =~= impls_of(self.impls_view(), trait_id));
                r
            },
        }
    }

    /// The trait with this id; the last one when several share it.
    pub fn trait_by_id(&self, id: ItemId) -> (r: Option<&ResolvedTrait>)
        ensures
            r == (match trait_with(self.traits_view(), id) {
                Some(t) => Some(&t),
                None => None::<&ResolvedTrait>,
            }),
            r matches Some(t) ==> t.id == id,
    {
        broadcast use vstd::std_specs::hash::group_hash_axioms;
        proof {
            use_type_invariant(self);
            lemma_last_with_bounds(trait_ids(self.traits@), id.raw());
            ItemId::lemma_raw_injective_all();
        }
        match self.trait_by_id.get(&id.value()) {
            Some(idx) => {
                if *idx < self.traits.len() {
                    Some(&self.traits[*idx])
                } else {
                    None
                }
            },
            None => None,
        }
    }

    /// The struct with this id; the last one when several share it.
    pub fn struct_by_id(&self, id: ItemId) -> (r: Option<&ResolvedStruct>)
        ensures
            r == (match last_with(struct_ids(self.structs_view()), id.raw()) {
                Some(i) => Some(&self.structs_view()[i]),
                None => None::<&ResolvedStruct>,
            }),
            r matches Some(s) ==> s.id == id,
    {
        broadcast use vstd::std_specs::hash::group_hash_axioms;
        proof {
            use_type_invariant(self);
            lemma_last_with_bounds(struct_ids(self.structs@), id.raw());
            ItemId::lemma_raw_injective_all();
        }
        match self.struct_by_id.get(&id.value()) {
            Some(idx) => {
                if *idx < self.structs.len() {
                    Some(&self.structs[*idx])
                } else {
                    None
                }
            },
            None => None,
        }
    }

    /// True if any impl block targets this id as its self type (struct or enum).
    pub fn has_impls_for(&self, id: ItemId) -> (b: bool)
        ensures
            b == (impls_for(self.impls_view(), id).len() > 0),
    {
        broadcast use vstd::std_specs::hash::group_hash_axioms;
        proof {
            use_type_invariant(self);
            lemma_impls_for_positions(self.impls@, id);
        }
        self.impls_by_self_ty.contains_key(&id.value())
    }

    /// True if at least one impl block implements this trait.
    pub fn has_implementors(&self, trait_id: ItemId) -> (b: bool)
        ensures
            b == (impls_of(self.impls_view(), trait_id).len() > 0),
    {
        broadcast use vstd::std_specs::hash::group_hash_axioms;
        proof {
            use_type_invariant(self);
            lemma_impls_of_positions(self.impls@, trait_id);
        }
        self.impls_by_trait.contains_key(&trait_id.value())
    }
}


/// References to each element of `v`, in order.
fn refs_of<T>(v: &Vec<T>) -> (r: Vec<&T>)
    ensures
        r@.map_values(|p: &T| *p) == v@,
{
    let mut r: Vec<&T> = Vec::new();
    let mut k: usize = 0;
    while k < v.len()
        invariant
            k <= v@.len(),
            r@.map_values(|p: &T| *p) == v@.take(k as int),
        decreases v.len() - k,
    {
        let ghost old_r = r@;
        r.push(&v[k]);
        proof {
            assert(r@.map_values(|p: &T| *p) =~= old_r.map_values(|p: &T| *p).push(v@[k as int]));
            assert(v@.take(k + 1) =~= v@.take(k as int).push(v@[k as int]));
        }
        k = k + 1;
    }
    assert(v@.take(v@.len() as int) =~= v@);
    r
}

/// The first item for which `pred` holds.
pub open spec fn first_where<T>(items: Seq<T>, pred: spec_fn(T) -> bool) -> Option<T>
    decreases items.len(),
{
    if items.len() == 0 {
        None
    } else if pred(items[0]) {
        Some(items[0])
    } else {
        first_where(items.drop_first(), pred)
    }
}

/// The item's id is `id`.
pub open spec fn id_is<T: SemaItem>(id: ItemId) -> spec_fn(T) -> bool {
    |x: T| x.spec_id() == id
}

/// The prefix of every rerun directive.
pub open spec fn rerun_prefix() -> Seq<char> {
    "cargo:rerun-if-changed="@
}

impl Workspace {
    /// Every struct, enum, trait and impl block, in that order; functions are
    /// not among them.
    pub open spec fn all_items_view<'a>(&'a self) -> Seq<AnyItem<'a>> {
        self.structs_view().map_values(|x: ResolvedStruct| AnyItem::Struct(&x))
            + self.enums_view().map_values(|x: ResolvedEnum| AnyItem::Enum(&x))
            + self.traits_view().map_values(|x: ResolvedTrait| AnyItem::Trait(&x))
            + self.impls_view().map_values(|x: ResolvedImpl| AnyItem::Impl(&x))
    }

    /// Every item that lookup by id searches: the items of `all_items`, in
    /// that order, then the free functions.
    pub open spec fn id_items_view<'a>(&'a self) -> Seq<AnyItem<'a>> {
        self.all_items_view() + self.functions_view().map_values(|x: ResolvedFunction| AnyItem::Function(&x))
    }

    /// A query over every struct, enum, trait and impl block.
    pub fn all_items(&self) -> (q: Query<AnyItem<'_>>)
        ensures
            q@ == self.all_items_view(),
    {
        let mut v: Vec<AnyItem<'_>> = Vec::new();
        let ghost structs = self.structs@.map_values(|x: ResolvedStruct| AnyItem::Struct(&x));
        let ghost enums = self.enums@.map_values(|x: ResolvedEnum| AnyItem::Enum(&x));
        let ghost traits = self.traits@.map_values(|x: ResolvedTrait| AnyItem::Trait(&x));
        let ghost impls = self.impls@.map_values(|x: ResolvedImpl| AnyItem::Impl(&x));
        let mut k: usize = 0;
        while k < self.structs.len()
            invariant
                k <= self.structs@.len(),
                structs == self.structs@.map_values(|x: ResolvedStruct| AnyItem::Struct(&x)),
                v@ == structs.take(k as int),
            decreases self.structs.len() - k,
        {
            v.push(AnyItem::Struct(&self.structs[k]));
            assert(structs.take(k + 1) =~= structs.take(k as int).push(structs[k as int]));
            k = k + 1;
        }
        assert(structs.take(structs.len() as int) =~= structs);
        let mut k: usize = 0;
        while k < self.enums.len()
            invariant
                k <= self.enums@.len(),
                enums == self.enums@.map_values(|x: ResolvedEnum| AnyItem::Enum(&x)),
                v@ == structs + enums.take(k as int),
            decreases self.enums.len() - k,
        {
            v.push(AnyItem::Enum(&self.enums[k]));
            assert(enums.take(k + 1) =~= enums.take(k as int).push(enums[k as int]));
            assert(structs + enums.take(k + 1) =~= (structs + enums.take(k as int)).push(enums[k as int]));
            k = k + 1;
        }
        assert(enums.take(enums.len() as int) =~= enums);
        let mut k: usize = 0;
        while k < self.traits.len()
            invariant
                k <= self.traits@.len(),
                traits == self.traits@.map_values(|x: ResolvedTrait| AnyItem::Trait(&x)),
                v@ == structs + enums + traits.take(k as int),
            decreases self.traits.len() - k,
        {
            v.push(AnyItem::Trait(&self.traits[k]));
            assert(traits.take(k + 1) =~= traits.take(k as int).push(traits[k as int]));
            assert(structs + enums + traits.take(k + 1) =~= (structs + enums + traits.take(k as int)).push(traits[k as int]));
            k = k + 1;
        }
        assert(traits.take(traits.len() as int) =~= traits);
        let mut k: usize = 0;
        while k < self.impls.len()
            invariant
                k <= self.impls@.len(),
                impls == self.impls@.map_values(|x: ResolvedImpl| AnyItem::Impl(&x)),
                v@ == structs + enums + traits + impls.take(k as int),
            decreases self.impls.len() - k,
        {
            v.push(AnyItem::Impl(&self.impls[k]));
            assert(impls.take(k + 1) =~= impls.take(k as int).push(impls[k as int]));
            assert(structs + enums + traits + impls.take(k + 1) =~= (structs + enums + traits + impls.take(k as int)).push(impls[k as int]));
            k = k + 1;
        }
        assert(impls.take(impls.len() as int) =~= impls);
        Query::new(v)
    }

    /// The first item of any kind whose id is `id`: structs, enums, traits
    /// and impl blocks in the order of `all_items`, then free functions.
    pub fn by_id(&self, id: ItemId) -> (r: Option<AnyItem<'_>>)
        ensures
            r == first_where(self.id_items_view(), id_is::<AnyItem<'_>>(id)),
    {
        let q = self.all_items();
        let mut v = q.collect();
        let ghost head = v@;
        let ghost fns = self.functions@.map_values(|x: ResolvedFunction| AnyItem::Function(&x));
        let mut j: usize = 0;
        while j < self.functions.len()
            invariant
                j <= self.functions@.len(),
                fns == self.functions@.map_values(|x: ResolvedFunction| AnyItem::Function(&x)),
                v@ == head + fns.take(j as int),
            decreases self.functions.len() - j,
        {
            v.push(AnyItem::Function(&self.functions[j]));
            assert(fns.take(j + 1) =~= fns.take(j as int).push(fns[j as int]));
            assert(head + fns.take(j + 1) =~= (head + fns.take(j as int)).push(fns[j as int]));
            j = j + 1;
        }
        assert(fns.take(fns.len() as int) =~= fns);
        let ghost items = v@;
        let ghost pred = id_is::<AnyItem<'_>>(id);

        let mut k: usize = 0;
        assert(items.skip(0) =~= items);
        while k < v.len()
            invariant
                k <= items.len(),
                items == v@,
                items == self.id_items_view(),
                pred == id_is::<AnyItem<'_>>(id),
                first_where(items, pred) == first_where(items.skip(k as int), pred),
            decreases v.len() - k,
        {
            assert(items.skip(k as int).drop_first() =~= items.skip(k + 1));
            assert(items.skip(k as int)[0] == items[k as int]);
            let found = v[k].id() == id;
            if found {
                let item = v[k];
                assert(pred(items[k as int]));
                return Some(item);
            }
            k = k + 1;
        }
        assert(items.skip(k as int).len() == 0);
        None
    }

    /// A query over the free functions.
    pub fn functions(&self) -> (q: Query<&ResolvedFunction>)
        ensures
            q@.map_values(|p: &ResolvedFunction| *p) == self.functions_view(),
    {
        Query::new(refs_of(&self.functions))
    }

    /// A query over the structs.
    pub fn structs(&self) -> (q: Query<&ResolvedStruct>)
        ensures
            q@.map_values(|p: &ResolvedStruct| *p) == self.structs_view(),
    {
        Query::new(refs_of(&self.structs))
    }

    /// A query over the enums.
    pub fn enums(&self) -> (q: Query<&ResolvedEnum>)
        ensures
            q@.map_values(|p: &ResolvedEnum| *p) == self.enums_view(),
    {
        Query::new(refs_of(&self.enums))
    }

    /// A query over the traits.
    pub fn traits(&self) -> (q: Query<&ResolvedTrait>)
        ensures
            q@.map_values(|p: &ResolvedTrait| *p) == self.traits_view(),
    {
        Query::new(refs_of(&self.traits))
    }

    /// A query over the impl blocks.
    pub fn impls(&self) -> (q: Query<&ResolvedImpl>)
        ensures
            q@.map_values(|p: &ResolvedImpl| *p) == self.impls_view(),
    {
        Query::new(refs_of(&self.impls))
    }

    /// The lines that tell cargo to rerun a build script when the manifest
    /// or any source file of the workspace changes.
    pub fn rerun_directives(&self) -> (lines: Vec<String>)
        ensures
            lines@.len() == self.files_view().len() + 1,
            lines@[0]@ == rerun_prefix() + "Cargo.toml"@,
            forall|i: int| 0 <= i < self.files_view().len()
                ==> (#[trigger] lines@[i + 1])@ == rerun_prefix() + self.files_view()[i]@,
    {
        let mut lines: Vec<String> = Vec::new();
        let mut first = String::from_str("cargo:rerun-if-changed=");
        first.append("Cargo.toml");
        lines.push(first);
        let mut k: usize = 0;
        while k < self.files.len()
            invariant
                k <= self.files@.len(),
                lines@.len() == k + 1,
                lines@[0]@ == rerun_prefix() + "Cargo.toml"@,
                forall|i: int| 0 <= i < k ==> (#[trigger] lines@[i + 1])@ == rerun_prefix() + self.files@[i]@,
            decreases self.files.len() - k,
        {
            let mut line = String::from_str("cargo:rerun-if-changed=");
            line.append(self.files[k].as_str());
            lines.push(line);
            k = k + 1;
        }
        lines
    }
}


/// An impl block whose self type resolved to `id`.
pub open spec fn self_resolves_to(id: ItemId) -> spec_fn(ResolvedImpl) -> bool {
    |i: ResolvedImpl| i.self_ty.resolved == Some(id)
}

/// An impl block whose trait resolved to `id`.
pub open spec fn trait_resolves_to(id: ItemId) -> spec_fn(ResolvedImpl) -> bool {
    |i: ResolvedImpl| match i.trait_ {
        Some(t) => t.resolved == Some(id),
        None => false,
    }
}

proof fn lemma_impls_for_select(impls: Seq<ResolvedImpl>, id: ItemId)
    ensures
        impls_for(impls, id) == select(impls, self_resolves_to(id)),
    decreases impls.len(),
{
    if impls.len() > 0 {
        lemma_impls_for_select(impls.drop_last(), id);
    }
}

proof fn lemma_impls_of_select(impls: Seq<ResolvedImpl>, id: ItemId)
    ensures
        impls_of(impls, id) == select(impls, trait_resolves_to(id)),
    decreases impls.len(),
{
    if impls.len() > 0 {
        lemma_impls_of_select(impls.drop_last(), id);
    }
}

/// The impl blocks found for a type id are exactly the impl blocks of the
/// workspace whose self type resolved to that id: each one found resolved
/// to it, each one that resolved to it is found, and some are found exactly
/// when some impl block resolved to it.
pub proof fn lemma_impls_for_members(ws: Workspace, id: ItemId)
    ensures
        forall|i: int| 0 <= i < impls_for(ws.impls_view(), id).len()
            ==> (#[trigger] impls_for(ws.impls_view(), id)[i]).self_ty.resolved == Some(id)
                && ws.impls_view().contains(impls_for(ws.impls_view(), id)[i]),
        forall|i: int| 0 <= i < ws.impls_view().len() && (#[trigger] ws.impls_view()[i]).self_ty.resolved == Some(id)
            ==> impls_for(ws.impls_view(), id).contains(ws.impls_view()[i]),
        (impls_for(ws.impls_view(), id).len() > 0)
            <==> exists|i: int| 0 <= i < ws.impls_view().len() && (#[trigger] ws.impls_view()[i]).self_ty.resolved == Some(id),
{
    let impls = ws.impls_view();
    lemma_impls_for_select(impls, id);
    lemma_select_members(impls, self_resolves_to(id));
    let found = impls_for(impls, id);
    assert forall|i: int| 0 <= i < impls.len() && (#[trigger] impls[i]).self_ty.resolved == Some(id)
        implies found.contains(impls[i]) by {
        assert(self_resolves_to(id)(impls[i]));
    }
    if found.len() > 0 {
        assert(self_resolves_to(id)(found[0]));
        let j = choose|j: int| 0 <= j < impls.len() && impls[j] == found[0];
        assert(impls[j].self_ty.resolved == Some(id));
    }
    if exists|i: int| 0 <= i < impls.len() && (#[trigger] impls[i]).self_ty.resolved == Some(id) {
        let i = choose|i: int| 0 <= i < impls.len() && (#[trigger] impls[i]).self_ty.resolved == Some(id);
        assert(found.contains(impls[i]));
    }
}

/// The impl blocks found for a trait id are exactly the impl blocks of the
/// workspace whose trait resolved to that id: each one found resolved to it,
/// each one that resolved to it is found, and some are found exactly when
/// some impl block resolved to it.
pub proof fn lemma_impls_of_members(ws: Workspace, id: ItemId)
    ensures
        forall|i: int| 0 <= i < impls_of(ws.impls_view(), id).len()
            ==> trait_resolves_to(id)(#[trigger] impls_of(ws.impls_view(), id)[i])
                && ws.impls_view().contains(impls_of(ws.impls_view(), id)[i]),
        forall|i: int| 0 <= i < ws.impls_view().len() && trait_resolves_to(id)(#[trigger] ws.impls_view()[i])
            ==> impls_of(ws.impls_view(), id).contains(ws.impls_view()[i]),
        (impls_of(ws.impls_view(), id).len() > 0)
            <==> exists|i: int| 0 <= i < ws.impls_view().len() && trait_resolves_to(id)(#[trigger] ws.impls_view()[i]),
{
    let impls = ws.impls_view();
    lemma_impls_of_select(impls, id);
    lemma_select_members(impls, trait_resolves_to(id));
    let found = impls_of(impls, id);
    if found.len() > 0 {
        assert(trait_resolves_to(id)(found[0]));
        let j = choose|j: int| 0 <= j < impls.len() && impls[j] == found[0];
        assert(trait_resolves_to(id)(impls[j]));
    }
    if exists|i: int| 0 <= i < impls.len() && trait_resolves_to(id)(#[trigger] impls[i]) {
        let i = choose|i: int| 0 <= i < impls.len() && trait_resolves_to(id)(#[trigger] impls[i]);
        assert(found.contains(impls[i]));
    }
}

/// Looking up a struct by id finds one exactly when the workspace has a
/// struct with that id.
pub proof fn lemma_struct_lookup_complete(ws: Workspace, id: ItemId)
    ensures
        (last_with(struct_ids(ws.structs_view()), id.raw()) is Some)
            <==> exists|i: int| 0 <= i < ws.structs_view().len() && (#[trigger] ws.structs_view()[i]).id == id,
{
    let ids = struct_ids(ws.structs_view());
    lemma_last_with_bounds(ids, id.raw());
    ItemId::lemma_raw_injective_all();
    if exists|i: int| 0 <= i < ws.structs_view().len() && (#[trigger] ws.structs_view()[i]).id == id {
        let i = choose|i: int| 0 <= i < ws.structs_view().len() && (#[trigger] ws.structs_view()[i]).id == id;
        assert(ids[i].raw() == id.raw());
    }
    if last_with(ids, id.raw()) is Some {
        let i = last_with(ids, id.raw())->0;
        assert(ids[i] == ws.structs_view()[i].id);
    }
}

/// Looking up a trait by id finds one exactly when the workspace has a trait
/// with that id.
pub proof fn lemma_trait_lookup_complete(ws: Workspace, id: ItemId)
    ensures
        (trait_with(ws.traits_view(), id) is Some)
            <==> exists|i: int| 0 <= i < ws.traits_view().len() && (#[trigger] ws.traits_view()[i]).id == id,
{
    let ids = trait_ids(ws.traits_view());
    lemma_last_with_bounds(ids, id.raw());
    ItemId::lemma_raw_injective_all();
    if exists|i: int| 0 <= i < ws.traits_view().len() && (#[trigger] ws.traits_view()[i]).id == id {
        let i = choose|i: int| 0 <= i < ws.traits_view().len() && (#[trigger] ws.traits_view()[i]).id == id;
        assert(ids[i].raw() == id.raw());
    }
    if last_with(ids, id.raw()) is Some {
        let i = last_with(ids, id.raw())->0;
        assert(ids[i] == ws.traits_view()[i].id);
    }
}

/// `first_where` gives an item that satisfies the predicate, one of the
/// items; it gives nothing exactly when no item satisfies it.
pub proof fn lemma_first_where<T>(items: Seq<T>, pred: spec_fn(T) -> bool)
    ensures
        first_where(items, pred) matches Some(x) ==> pred(x) && items.contains(x),
        (first_where(items, pred) is None) <==> forall|i: int| 0 <= i < items.len() ==> !pred(#[trigger] items[i]),
    decreases items.len(),
{
    if items.len() > 0 {
        let d = items.drop_first();
        lemma_first_where(d, pred);
        if !pred(items[0]) {
            match first_where(d, pred) {
                Some(x) => {
                    let j = choose|j: int| 0 <= j < d.len() && d[j] == x;
                    assert(items[j + 1] == x);
                },
                None => {},
            }
            if first_where(d, pred) is None {
                assert forall|i: int| 0 <= i < items.len() implies !pred(#[trigger] items[i]) by {
                    if i > 0 {
                        assert(items[i] == d[i - 1]);
                    }
                }
            } else {
                if forall|i: int| 0 <= i < items.len() ==> !pred(#[trigger] items[i]) {
                    assert forall|i: int| 0 <= i < d.len() implies !pred(#[trigger] d[i]) by {
                        assert(d[i] == items[i + 1]);
                    }
                }
            }
        } else {
            assert(items.contains(items[0]));
        }
    }
}

/// Looking up any item by id gives an item of the workspace with that id,
/// and gives nothing exactly when no item of any kind has that id.
pub proof fn lemma_by_id(ws: Workspace, id: ItemId)
    ensures
        first_where(ws.id_items_view(), id_is::<AnyItem>(id)) matches Some(x)
            ==> x.spec_id() == id && ws.id_items_view().contains(x),
        (first_where(ws.id_items_view(), id_is::<AnyItem>(id)) is None)
            <==> forall|i: int| 0 <= i < ws.id_items_view().len() ==> (#[trigger] ws.id_items_view()[i]).spec_id() != id,
{
    let items = ws.id_items_view();
    lemma_first_where(items, id_is::<AnyItem>(id));
    if !(forall|i: int| 0 <= i < items.len() ==> (#[trigger] items[i]).spec_id() != id) {
        let i = choose|i: int| 0 <= i < items.len() && !((#[trigger] items[i]).spec_id() != id);
        assert(id_is::<AnyItem>(id)(items[i]));
    }
}

/// Some struct, enum, trait, impl block or free function of the workspace
/// has the id `id`.
pub open spec fn has_item_with_id(ws: Workspace, id: ItemId) -> bool {
    ||| exists|k: int| 0 <= k < ws.structs_view().len() && (#[trigger] ws.structs_view()[k]).id == id
    ||| exists|k: int| 0 <= k < ws.enums_view().len() && (#[trigger] ws.enums_view()[k]).id == id
    ||| exists|k: int| 0 <= k < ws.traits_view().len() && (#[trigger] ws.traits_view()[k]).id == id
    ||| exists|k: int| 0 <= k < ws.impls_view().len() && (#[trigger] ws.impls_view()[k]).id == id
    ||| exists|k: int| 0 <= k < ws.functions_view().len() && (#[trigger] ws.functions_view()[k]).id == id
}

/// Lookup by id covers every kind of item: it finds an item exactly when
/// some struct, enum, trait, impl block or free function of the workspace
/// has that id, and what it finds has that id.
pub proof fn lemma_by_id_covers_every_kind(ws: Workspace, id: ItemId)
    ensures
        first_where(ws.id_items_view(), id_is::<AnyItem>(id)) is Some <==> has_item_with_id(ws, id),
        first_where(ws.id_items_view(), id_is::<AnyItem>(id)) matches Some(x) ==> x.spec_id() == id,
{
    lemma_by_id(ws, id);
    let a = ws.structs_view().map_values(|x: ResolvedStruct| AnyItem::Struct(&x));
    let b = ws.enums_view().map_values(|x: ResolvedEnum| AnyItem::Enum(&x));
    let c = ws.traits_view().map_values(|x: ResolvedTrait| AnyItem::Trait(&x));
    let d = ws.impls_view().map_values(|x: ResolvedImpl| AnyItem::Impl(&x));
    let f = ws.functions_view().map_values(|x: ResolvedFunction| AnyItem::Function(&x));
    let items = ws.id_items_view();
    assert(items =~= a + b + c + d + f);
    let oa = 0int;
    let ob = a.len() as int;
    let oc = ob + b.len();
    let od = oc + c.len();
    let of = od + d.len();
    if has_item_with_id(ws, id) {
        let i: int = if exists|k: int| 0 <= k < ws.structs_view().len() && (#[trigger] ws.structs_view()[k]).id == id {
            let k = choose|k: int| 0 <= k < ws.structs_view().len() && (#[trigger] ws.structs_view()[k]).id == id;
            assert(items[oa + k] == a[k]);
            oa + k
        } else if exists|k: int| 0 <= k < ws.enums_view().len() && (#[trigger] ws.enums_view()[k]).id == id {
            let k = choose|k: int| 0 <= k < ws.enums_view().len() && (#[trigger] ws.enums_view()[k]).id == id;
            assert(items[ob + k] == b[k]);
            ob + k
        } else if exists|k: int| 0 <= k < ws.traits_view().len() && (#[trigger] ws.traits_view()[k]).id == id {
            let k = choose|k: int| 0 <= k < ws.traits_view().len() && (#[trigger] ws.traits_view()[k]).id == id;
            assert(items[oc + k] == c[k]);
            oc + k
        } else if exists|k: int| 0 <= k < ws.impls_view().len() && (#[trigger] ws.impls_view()[k]).id == id {
            let k = choose|k: int| 0 <= k < ws.impls_view().len() && (#[trigger] ws.impls_view()[k]).id == id;
            assert(items[od + k] == d[k]);
            od + k
        } else {
            let k = choose|k: int| 0 <= k < ws.functions_view().len() && (#[trigger] ws.functions_view()[k]).id == id;
            assert(items[of + k] == f[k]);
            of + k
        };
        assert(items[i].spec_id() == id);
    }
    if first_where(items, id_is::<AnyItem>(id)) is Some {
        let i = choose|i: int| 0 <= i < items.len() && !((#[trigger] items[i]).spec_id() != id);
        if i < ob {
            assert(items[i] == a[i]);
            assert(ws.structs_view()[i].id == id);
        } else if i < oc {
            assert(items[i] == b[i - ob]);
            assert(ws.enums_view()[i - ob].id == id);
        } else if i < od {
            assert(items[i] == c[i - oc]);
            assert(ws.traits_view()[i - oc].id == id);
        } else if i < of {
            assert(items[i] == d[i - od]);
            assert(ws.impls_view()[i - od].id == id);
        } else {
            assert(items[i] == f[i - of]);
            assert(ws.functions_view()[i - of].id == id);
        }
    }
}

} // verus!
