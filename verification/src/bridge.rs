//! Naming helpers over plain names: the base name of a written type, and
//! the crate-qualified path of a module given by the chain of module names from
//! that module up to the crate root, the root having no name.

use vstd::prelude::*;
use crate::text::{before_char, crate_qualifier, last_split_piece, spec_trim, split_first, split_last_sep, trim};

verus! {

/// The base name of a written type: the part before any `<`, trimmed, then
/// the last `::`-separated piece of it (not trimmed).
pub open spec fn spec_base_name(written: Seq<char>) -> Seq<char> {
    last_split_piece(spec_trim(before_char(written, '<')))
}

/// The base type name of a written type: `Vec` for `Vec<T>`, `Foo` for
/// `path::to::Foo`.
pub fn base_name(written: &str) -> (r: &str)
    ensures
        r@ == spec_base_name(written@),
{
    let without_generics = trim(split_first(written, '<'));
    split_last_sep(without_generics)
}

/// The pieces joined with `::` between each two.
pub open spec fn join_names(parts: Seq<Seq<char>>) -> Seq<char>
    decreases parts.len(),
{
    if parts.len() == 0 {
        Seq::empty()
    } else if parts.len() == 1 {
        parts[0]
    } else {
        join_names(parts.drop_last()) + seq![':', ':'] + parts.last()
    }
}

/// The names of a module chain given from a module up to the root, read from
/// the root down, the unnamed entries left out.
pub open spec fn names_from_root(chain: Seq<Option<String>>) -> Seq<Seq<char>>
    decreases chain.len(),
{
    if chain.len() == 0 {
        Seq::empty()
    } else {
        let rest = names_from_root(chain.drop_first());
        match chain[0] {
            Some(n) => rest.push(n@),
            None => rest,
        }
    }
}

/// The crate-qualified path of a module whose names, read from the root
/// down, are `parts`: `crate::` and the names joined with `::`; empty for
/// the crate root.
pub open spec fn crate_path(parts: Seq<Seq<char>>) -> Seq<char> {
    if parts.len() == 0 {
        Seq::empty()
    } else {
        crate_qualifier() + join_names(parts)
    }
}

/// The crate-qualified path of a module, such as `crate::motor::state`, from
/// the names of its chain up to the root (`path_to_root` order); empty at
/// the root.
pub fn module_path_string(chain: &Vec<Option<String>>) -> (r: String)
    ensures
        r@ == crate_path(names_from_root(chain@)),
{
    let mut r = String::new();
    let ghost mut parts: Seq<Seq<char>> = Seq::empty();
    let mut started = false;
    let mut k: usize = chain.len();
    while k > 0
        invariant
            k <= chain@.len(),
            started == (parts.len() > 0),
            parts == names_from_root(chain@.skip(k as int)),
            r@ == join_names(parts),
        decreases k,
    {
        k = k - 1;
        proof {
            assert(chain@.skip(k as int).drop_first() =~= chain@.skip(k + 1));
            assert(chain@.skip(k as int)[0] == chain@[k as int]);
        }
        match &chain[k] {
            Some(n) => {
                if started {
                    r.append("::");
                    proof {
                        reveal_strlit("::");
                    }
                }
                r.append(n.as_str());
                started = true;
                proof {
                    let old_parts = parts;
                    parts = parts.push(n@);
                    assert(parts.drop_last() =~= old_parts);
                }
            },
            None => {},
        }
    }
    proof {
        assert(chain@.skip(0) =~= chain@);
    }
    if !started {
        return r;
    }
    let mut out = String::from_str("crate::");
    out.append(r.as_str());
    proof {
        reveal_strlit("crate::");
        assert("crate::"@ =~= crate_qualifier());
    }
    out
}

} // verus!
