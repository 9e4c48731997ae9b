use vstd::prelude::*;
use crate::resolve::ids::ItemId;
use crate::resolve::parse::{fn_member_facts, lemma_fn_member_facts, method_parts, opt_facts};
use crate::syntax::{impl_members, impl_members_of, method_facts};
use crate::workspaces::{impls_for, impls_of, trait_with, Workspace};

verus! {

/// What a method of an impl block looks like from outside: its name, its
/// number of parameters (a receiver counts), and its qualifiers.
#[derive(Debug, Clone)]
pub struct MethodInfo {
    pub name: String,
    pub params: usize,
    pub is_async: bool,
    pub is_unsafe: bool,
}

/// A struct of the crate, with its syntax tree.
pub struct ResolvedStruct {
    pub id: ItemId,
    /// Crate-qualified module path, such as `crate::motor::state`; empty at
    /// the root.
    pub mod_path: String,
    pub node: syn::ItemStruct,
    pub file: String,
}

/// An enum of the crate, with its syntax tree.
pub struct ResolvedEnum {
    pub id: ItemId,
    pub mod_path: String,
    pub node: syn::ItemEnum,
    pub file: String,
}

/// A free function of the crate, with its syntax tree.
pub struct ResolvedFunction {
    pub id: ItemId,
    pub mod_path: String,
    pub node: syn::ItemFn,
    pub file: String,
}

/// A trait of the crate, with its syntax tree.
pub struct ResolvedTrait {
    pub id: ItemId,
    pub mod_path: String,
    pub node: syn::ItemTrait,
    pub file: String,
}

/// An impl block of the crate: the type it is for, the trait it implements
/// if any, and its syntax tree.
pub struct ResolvedImpl {
    pub id: ItemId,
    pub self_ty: ItemRef,
    pub trait_: Option<ItemRef>,
    pub mod_path: String,
    pub node: syn::ItemImpl,
    pub file: String,
}

/// The syntax tree behind an `ItemRef`.
pub enum ItemKind {
    Type(syn::Type),
    Path(syn::Path),
}

/// A reference to a type or trait as written in the source, with the item
/// it resolves to when it resolves to one.
pub struct ItemRef {
    pub written: String,
    pub resolved: Option<ItemId>,
    pub generics: Vec<ItemRef>,
    pub kind: ItemKind,
}


/// A method's signature facts as plain values.
pub open spec fn method_view(m: MethodInfo) -> (Seq<char>, usize, bool, bool) {
    (m.name@, m.params, m.is_async, m.is_unsafe)
}

/// The signature facts of the `fn` members of a list of impl blocks, read
/// off their syntax trees, impl after impl, each in order.
pub open spec fn methods_of(impls: Seq<ResolvedImpl>) -> Seq<(Seq<char>, usize, bool, bool)>
    decreases impls.len(),
{
    if impls.len() == 0 {
        Seq::empty()
    } else {
        methods_of(impls.drop_last()) + fn_member_facts(impl_members_of(impls.last().node))
    }
}

/// The id an impl block's trait resolved to, if it has a trait and it resolved.
pub open spec fn trait_ref_of(i: ResolvedImpl) -> Option<ItemId> {
    match i.trait_ {
        Some(t) => t.resolved,
        None => None,
    }
}

/// For each impl block, in order, the trait of `traits` that its trait
/// resolved to, where there is one.
pub open spec fn traits_implemented(traits: Seq<ResolvedTrait>, impls: Seq<ResolvedImpl>) -> Seq<ResolvedTrait>
    decreases impls.len(),
{
    if impls.len() == 0 {
        Seq::empty()
    } else {
        let prev = traits_implemented(traits, impls.drop_last());
        match trait_ref_of(impls.last()) {
            Some(id) => match trait_with(traits, id) {
                Some(t) => prev.push(t),
                None => prev,
            },
            None => prev,
        }
    }
}

/// The traits one impl block contributes: the trait of the workspace its
/// trait resolved to, if it has a trait, it resolved, and the workspace has
/// a trait with that id; nothing otherwise.
pub open spec fn trait_of_impl(traits: Seq<ResolvedTrait>, i: ResolvedImpl) -> Seq<ResolvedTrait> {
    match i.trait_ {
        Some(r) => match r.resolved {
            Some(id) => match trait_with(traits, id) {
                Some(t) => seq![t],
                None => Seq::empty(),
            },
            None => Seq::empty(),
        },
        None => Seq::empty(),
    }
}

/// Every impl block counts: the traits implemented by two runs of impl
/// blocks one after the other are those of the first run followed by those
/// of the second, and a single impl block contributes the trait its trait
/// resolved to, when the workspace has it. So the traits of a struct list,
/// impl after impl, the resolved trait of each of its impl blocks.
pub proof fn lemma_traits_implemented_concat(traits: Seq<ResolvedTrait>, a: Seq<ResolvedImpl>, b: Seq<ResolvedImpl>)
    ensures
        traits_implemented(traits, a + b) == traits_implemented(traits, a) + traits_implemented(traits, b),
        forall|i: ResolvedImpl| #[trigger] traits_implemented(traits, seq![i]) == trait_of_impl(traits, i),
    decreases b.len(),
{
    assert forall|i: ResolvedImpl| #[trigger] traits_implemented(traits, seq![i]) == trait_of_impl(traits, i) by {
        let one = seq![i];
        assert(one.drop_last() =~= Seq::<ResolvedImpl>::empty());
        assert(one.last() == i);
        assert(traits_implemented(traits, Seq::<ResolvedImpl>::empty()) =~= Seq::<ResolvedTrait>::empty());
        match trait_ref_of(i) {
            Some(id) => {
                match trait_with(traits, id) {
                    Some(t) => assert(traits_implemented(traits, one) =~= seq![t]),
                    None => assert(traits_implemented(traits, one) =~= Seq::<ResolvedTrait>::empty()),
                }
            },
            None => assert(traits_implemented(traits, one) =~= Seq::<ResolvedTrait>::empty()),
        }
    }
    if b.len() == 0 {
        assert(a + b =~= a);
        assert(traits_implemented(traits, a) + traits_implemented(traits, b) =~= traits_implemented(traits, a));
    } else {
        lemma_traits_implemented_concat(traits, a, b.drop_last());
        assert((a + b).drop_last() =~= a + b.drop_last());
        assert((a + b).last() == b.last());
        let pa = traits_implemented(traits, a);
        let pb = traits_implemented(traits, b.drop_last());
        match trait_ref_of(b.last()) {
            Some(id) => match trait_with(traits, id) {
                Some(t) => {
                    assert(pa + pb.push(t) =~= (pa + pb).push(t));
                },
                None => {},
            },
            None => {},
        }
    }
}

/// A copy of a method's facts.
fn copy_method(m: &MethodInfo) -> (r: MethodInfo)
    ensures
        method_view(r) == method_view(*m),
{
    MethodInfo { name: m.name.clone(), params: m.params, is_async: m.is_async, is_unsafe: m.is_unsafe }
}

impl ResolvedStruct {
    /// The impl blocks whose self type resolved to this struct, in order.
    pub fn impls<'a>(&self, workspace: &'a Workspace) -> (r: Vec<&'a ResolvedImpl>)
        ensures
            r@.map_values(|p: &ResolvedImpl| *p) == impls_for(workspace.impls_view(), self.id),
    {
        workspace.impls_for_struct(self.id)
    }

    /// Same as `impls`.
    pub fn implementations<'a>(&self, workspace: &'a Workspace) -> (r: Vec<&'a ResolvedImpl>)
        ensures
            r@.map_values(|p: &ResolvedImpl| *p) == impls_for(workspace.impls_view(), self.id),
    {
        self.impls(workspace)
    }

    /// The methods of every impl block of this struct, impl after impl.
    pub fn methods(&self, workspace: &Workspace) -> (r: Vec<MethodInfo>)
        ensures
            r@.map_values(|m: MethodInfo| method_view(m)) == methods_of(impls_for(workspace.impls_view(), self.id)),
    {
        let impls = self.impls(workspace);
        let ghost blocks = impls@.map_values(|p: &ResolvedImpl| *p);
        let mut r: Vec<MethodInfo> = Vec::new();
        let mut k: usize = 0;
        while k < impls.len()
            invariant
                k <= impls@.len(),
                blocks == impls@.map_values(|p: &ResolvedImpl| *p),
                r@.map_values(|m: MethodInfo| method_view(m)) == methods_of(blocks.take(k as int)),
            decreases impls.len() - k,
        {
            let block = impls[k];
            let ghost before = r@.map_values(|m: MethodInfo| method_view(m));
            let members = impl_members(&block.node);
            proof {
                lemma_fn_member_facts(members@);
                assert(members@.map_values(|m: Option<MethodInfo>| opt_facts(m)) =~= impl_members_of(block.node));
            }
            let (_, infos) = method_parts(members);
            let ghost facts = infos@.map_values(|m: MethodInfo| method_facts(m));
            assert(facts == fn_member_facts(impl_members_of(block.node)));
            let mut j: usize = 0;
            while j < infos.len()
                invariant
                    j <= infos@.len(),
                    r@.map_values(|m: MethodInfo| method_view(m))
                        == before + infos@.take(j as int).map_values(|m: MethodInfo| method_view(m)),
                decreases infos.len() - j,
            {
                let ghost prev = r@;
                r.push(copy_method(&infos[j]));
                proof {
                    assert(r@.map_values(|m: MethodInfo| method_view(m))
                        =~= prev.map_values(|m: MethodInfo| method_view(m)).push(method_view(infos@[j as int])));
                    assert(infos@.take(j + 1).map_values(|m: MethodInfo| method_view(m))
                        =~= infos@.take(j as int).map_values(|m: MethodInfo| method_view(m)).push(method_view(infos@[j as int])));
                }
                j = j + 1;
            }
            proof {
                assert(infos@.take(infos@.len() as int) =~= infos@);
                assert(infos@.map_values(|m: MethodInfo| method_view(m)) =~= facts);
                assert(blocks.take(k + 1).drop_last() =~= blocks.take(k as int));
                assert(blocks.take(k + 1).last() == *block);
            }
            k = k + 1;
        }
        assert(blocks.take(blocks.len() as int) =~= blocks);
        r
    }

    /// The traits that this struct's impl blocks implement, impl after impl,
    /// for each impl whose trait resolved to a trait of the workspace.
    pub fn trait_impls<'a>(&self, workspace: &'a Workspace) -> (r: Vec<&'a ResolvedTrait>)
        ensures
            r@.map_values(|p: &ResolvedTrait| *p)
                == traits_implemented(workspace.traits_view(), impls_for(workspace.impls_view(), self.id)),
    {
        let impls = self.impls(workspace);
        let ghost blocks = impls@.map_values(|p: &ResolvedImpl| *p);
        let mut r: Vec<&'a ResolvedTrait> = Vec::new();
        let mut k: usize = 0;
        while k < impls.len()
            invariant
                k <= impls@.len(),
                blocks == impls@.map_values(|p: &ResolvedImpl| *p),
                r@.map_values(|p: &ResolvedTrait| *p) == traits_implemented(workspace.traits_view(), blocks.take(k as int)),
            decreases impls.len() - k,
        {
            let block = impls[k];
            let ghost prev = r@;
            proof {
                assert(blocks.take(k + 1).drop_last() =~= blocks.take(k as int));
                assert(blocks.take(k + 1).last() == *block);
            }
            let resolved = match &block.trait_ {
                Some(t) => t.resolved,
                None => None,
            };
            match resolved {
                Some(id) => {
                    match workspace.trait_by_id(id) {
                        Some(t) => {
                            r.push(t);
                            assert(r@.map_values(|p: &ResolvedTrait| *p) =~= prev.map_values(|p: &ResolvedTrait| *p).push(*t));
                        },
                        None => {},
                    }
                },
                None => {},
            }
            k = k + 1;
        }
        assert(blocks.take(blocks.len() as int) =~= blocks);
        r
    }
}

impl ResolvedTrait {
    /// The impl blocks whose trait resolved to this trait, in order.
    pub fn impl_blocks<'a>(&self, workspace: &'a Workspace) -> (r: Vec<&'a ResolvedImpl>)
        ensures
            r@.map_values(|p: &ResolvedImpl| *p) == impls_of(workspace.impls_view(), self.id),
    {
        workspace.impls_of_trait(self.id)
    }
}

} // verus!
