use vstd::prelude::*;
use std::collections::hash_map::DefaultHasher;
use std::hash::Hasher;
use fnv::FnvHasher;
use vstd::std_specs::hash::DefaultHasherAdditionalSpecFns;

verus! {

/// The `u64` that `DefaultHasher::new()` produces for a string fed to it the
/// way `Hash for str` does: the UTF-8 bytes, then the terminator byte `0xff`.
pub open spec fn str_hash(s: Seq<char>) -> u64 {
    DefaultHasher::spec_finish(seq![vstd::utf8::encode_utf8(s), seq![0xffu8]])
}

/// The crate-style qualified name `mod_path::name`.
pub open spec fn qualified_name(mod_path: Seq<char>, name: Seq<char>) -> Seq<char> {
    mod_path + seq![':', ':'] + name
}

/// Hashes a string with a fresh `DefaultHasher`, as `Hash for str` does.
fn hash_str(s: &str) -> (h: u64)
    ensures
        h == str_hash(s@),
{
    let mut hasher = DefaultHasher::new();
    let bytes = s.as_bytes();
    assert(bytes@ == vstd::utf8::encode_utf8(s@));
    hasher.write(bytes);
    let mut terminator: Vec<u8> = Vec::new();
    terminator.push(0xffu8);
    let tail = terminator.as_slice();
    assert(tail@ =~= seq![0xffu8]);
    hasher.write(tail);
    proof {
        assert(hasher@ =~= seq![vstd::utf8::encode_utf8(s@), seq![0xffu8]]);
    }
    hasher.finish()
}

/// FNV-1a over `bytes` starting from the state `key`: for each byte, xor it
/// in, then multiply by the 64-bit FNV prime, wrapping.
pub open spec fn fnv1a(key: u64, bytes: Seq<u8>) -> u64
    decreases bytes.len(),
{
    if bytes.len() == 0 {
        key
    } else {
        let h = fnv1a(key, bytes.drop_last());
        (((h ^ (bytes.last() as u64)) as nat * 0x100000001b3nat) % 0x1_0000_0000_0000_0000nat) as u64
    }
}

/// Calls `fnv::FnvHasher::with_key(key)`, `Hasher::write(bytes)` and
/// `Hasher::finish`. Claimed: the result is FNV-1a of the bytes from the state
/// `key`, which is what the crate's `write` loop computes and `finish`
/// returns.
#[verifier::external_body]
fn fnv_hash(key: u64, bytes: &[u8]) -> (h: u64)
    ensures
        h == fnv1a(key, bytes@),
{
    let mut hasher = FnvHasher::with_key(key);
    hasher.write(bytes);
    hasher.finish()
}

/// Identifies a module by the source file it was parsed from. The id is the
/// hash of the file's path; the path itself is kept alongside so that the id
/// can be turned back into the file it names.
pub struct ModuleId {
    pub(crate) hash: u64,
    pub(crate) path: String,
}

impl ModuleId {
    /// The hash that identifies the module.
    pub closed spec fn id_hash(self) -> u64 {
        self.hash
    }

    /// The path of the file the module was parsed from.
    pub closed spec fn file(self) -> Seq<char> {
        self.path@
    }

    /// The id of the module parsed from the file at `path`.
    pub fn from(path: String) -> (id: Self)
        ensures
            id.id_hash() == str_hash(path@),
            id.file() == path@,
    {
        let hash = hash_str(path.as_str());
        ModuleId { hash, path }
    }

    fn decode(&self) -> (path: String)
        ensures
            path@ == self.file(),
    {
        self.path.clone()
    }

    /// The source file this module was parsed from.
    pub fn file_path(&self) -> (path: String)
        ensures
            path@ == self.file(),
    {
        self.decode()
    }

    /// The hash that identifies the module.
    pub fn hash_value(&self) -> (h: u64)
        ensures
            h == self.id_hash(),
    {
        self.hash
    }

    /// Whether two ids name the same module.
    pub fn same_as(&self, other: &ModuleId) -> (b: bool)
        ensures
            b == (self.id_hash() == other.id_hash()),
    {
        self.hash == other.hash
    }

    /// A copy of the id.
    pub fn clone_id(&self) -> (id: ModuleId)
        ensures
            id == *self,
    {
        ModuleId { hash: self.hash, path: self.path.clone() }
    }
}

/// Identifies an item by its crate-style module path and name (for example
/// `motor` and `MotorConfig`), independently of the file it lives in.
#[derive(Clone, Copy, PartialEq, Eq, Hash, Debug, Structural)]
pub struct ItemId(pub(crate) u64);

/// The id that `ItemId::from` gives the item `name` in `mod_path`.
pub closed spec fn spec_item_id(mod_path: Seq<char>, name: Seq<char>) -> ItemId {
    ItemId(str_hash(qualified_name(mod_path, name)))
}

impl ItemId {
    /// The raw value of the id.
    pub closed spec fn raw(self) -> u64 {
        self.0
    }

    /// Deterministic id for an item given its crate-style module path and name.
    pub fn from(mod_path: &str, name: &str) -> (id: Self)
        ensures
            id == spec_item_id(mod_path@, name@),
    {
        let mut qualified = String::from_str(mod_path);
        qualified.append("::");
        qualified.append(name);
        proof {
            reveal_strlit("::");
            assert(qualified@ =~= qualified_name(mod_path@, name@));
        }
        ItemId(hash_str(qualified.as_str()))
    }

    /// The id that `ItemId::from_name` gives the item `name` in `mod_path`:
    /// FNV-1a, from the state 0, over the UTF-8 bytes of `mod_path::name`.
    pub closed spec fn spec_from_name(mod_path: Seq<char>, name: Seq<char>) -> ItemId {
        ItemId(fnv1a(0, vstd::utf8::encode_utf8(qualified_name(mod_path, name))))
    }

    /// Id for an item given its crate-style module path and name, hashed
    /// with FNV-1a.
    pub fn from_name(mod_path: &str, name: &str) -> (id: Self)
        ensures
            id == Self::spec_from_name(mod_path@, name@),
    {
        let mut full = String::from_str(mod_path);
        full.append("::");
        full.append(name);
        proof {
            reveal_strlit("::");
            assert(full@ =~= qualified_name(mod_path@, name@));
        }
        let bytes = full.as_str().as_bytes();
        ItemId(fnv_hash(0, bytes))
    }

    /// The raw value of the id `ItemId::from` gives is the `DefaultHasher`
    /// hash of the qualified name `mod_path::name`; so two items whose
    /// qualified names are the same text get the same id.
    pub proof fn lemma_item_id_value(mod_path: Seq<char>, name: Seq<char>)
        ensures
            spec_item_id(mod_path, name).raw() == str_hash(qualified_name(mod_path, name)),
            forall|m: Seq<char>, n: Seq<char>| qualified_name(m, n) == qualified_name(mod_path, name)
                ==> #[trigger] spec_item_id(m, n) == spec_item_id(mod_path, name),
    {
    }

    /// The raw value of the id `ItemId::from_name` gives is FNV-1a, from the
    /// state 0, over the UTF-8 bytes of the qualified name `mod_path::name`.
    pub proof fn lemma_from_name_value(mod_path: Seq<char>, name: Seq<char>)
        ensures
            Self::spec_from_name(mod_path, name).raw() == fnv1a(0, vstd::utf8::encode_utf8(qualified_name(mod_path, name))),
    {
    }

    /// Two ids are equal exactly when their raw values are.
    pub proof fn lemma_raw_injective(a: ItemId, b: ItemId)
        ensures
            a.raw() == b.raw() <==> a == b,
    {
    }

    /// Ids are equal exactly when their raw values are, for every pair.
    pub proof fn lemma_raw_injective_all()
        ensures
            forall|a: ItemId, b: ItemId| #[trigger] a.raw() == #[trigger] b.raw() <==> a == b,
    {
    }

    /// The raw value of the id.
    pub fn value(&self) -> (v: u64)
        ensures
            v == self.raw(),
    {
        self.0
    }
}

/// Position of an impl block in the resolved impl table.
#[derive(Clone, Copy, PartialEq, Eq, Hash, Debug, Structural)]
pub struct ImplId(pub(crate) usize);

impl ImplId {
    /// The position the id names.
    pub closed spec fn index(self) -> usize {
        self.0
    }

    /// The id of the impl at this position.
    pub closed spec fn at(i: usize) -> ImplId {
        ImplId(i)
    }

    /// The id made for a position names that position.
    pub proof fn lemma_at(i: usize)
        ensures
            Self::at(i).index() == i,
    {
    }

    /// An id is the id made for the position it names.
    pub proof fn lemma_index_at(id: ImplId)
        ensures
            Self::at(id.index()) == id,
    {
    }

    /// The position the id names.
    pub fn index_value(&self) -> (i: usize)
        ensures
            i == self.index(),
    {
        self.0
    }

    /// The id of the impl at position `i`.
    pub(crate) fn new(i: usize) -> (id: ImplId)
        ensures
            id == Self::at(i),
    {
        ImplId(i)
    }
}

} // verus!
