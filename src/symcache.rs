//! Symbol cache: bounded memoisation in front of the demangler and of the
//! frame identity hash. Both underlying functions are pure, so an eviction
//! only costs a recomputation.
use cached::Cached;
use cached::SizedCache;
use vstd::prelude::*;
use crate::ids::{content_id, content_id_of_bytes, frame_id_of, frame_preimage_bytes, opt_view};

verus! {

#[verifier::external_type_specification]
#[verifier::external_body]
#[verifier::reject_recursive_types(K)]
#[verifier::reject_recursive_types(V)]
pub struct ExSizedCache<K, V>(SizedCache<K, V>);

/// Bounded table from mangled name to display name.
pub type NameTable = SizedCache<String, String>;

/// Bounded table from hashed content bytes to identifier.
pub type IdTable = SizedCache<Vec<u8>, u64>;

/// What a demangled-name cache holds: mangled name to display name.
pub uninterp spec fn name_cache_entries(c: NameTable) -> Map<Seq<char>, Seq<char>>;

/// What a frame-id cache holds: hashed content bytes to identifier.
pub uninterp spec fn id_cache_entries(c: IdTable) -> Map<Seq<u8>, u64>;

/// The display name that the demangler gives for a mangled symbol.
pub uninterp spec fn demangled_of(mangled: Seq<char>) -> Seq<char>;

/// Relies on `symbolic_demangle::Demangle::try_demangle` of a
/// `symbolic_common::Name` with `DemangleOptions::name_only()`: the demangled
/// name, or the input itself when it cannot be demangled.
#[verifier::external_body]
fn demangle_name(mangled: &str) -> (r: String)
    ensures
        r@ == demangled_of(mangled@),
{
    let name = symbolic_common::Name::from(mangled);
    symbolic_demangle::Demangle::try_demangle(&name, symbolic_demangle::DemangleOptions::name_only()).into_owned()
}

/// Relies on `SizedCache::with_size`: an empty cache of at most `size`
/// entries (it panics on 0).
#[verifier::external_body]
fn new_name_cache(size: usize) -> (r: NameTable)
    requires
        size > 0,
    ensures
        name_cache_entries(r).dom().is_empty(),
{
    SizedCache::with_size(size)
}

/// Relies on `Cached::cache_get` of `SizedCache`: the value stored under the
/// key, if any; a lookup changes the recency order, not the entries.
#[verifier::external_body]
fn name_cache_get(c: &mut NameTable, key: &String) -> (r: Option<String>)
    ensures
        name_cache_entries(*final(c)) == name_cache_entries(*old(c)),
        match r {
            Some(v) => name_cache_entries(*old(c)).contains_key(key@) && name_cache_entries(
                *old(c),
            )[key@] == v@,
            None => !name_cache_entries(*old(c)).contains_key(key@),
        },
{
    c.cache_get(key).cloned()
}

/// Relies on `Cached::cache_set` of `SizedCache`: the pair is stored; when the
/// cache is over its size, the least recently used other entry is evicted.
#[verifier::external_body]
fn name_cache_set(c: &mut NameTable, key: String, value: String)
    ensures
        name_cache_entries(*final(c)).contains_key(key@),
        name_cache_entries(*final(c))[key@] == value@,
        name_cache_entries(*final(c)).submap_of(name_cache_entries(*old(c)).insert(key@, value@)),
{
    c.cache_set(key, value);
}

/// Relies on `SizedCache::with_size`: an empty cache of at most `size`
/// entries (it panics on 0).
#[verifier::external_body]
fn new_id_cache(size: usize) -> (r: IdTable)
    requires
        size > 0,
    ensures
        id_cache_entries(r).dom().is_empty(),
{
    SizedCache::with_size(size)
}

/// Relies on `Cached::cache_get` of `SizedCache`: the value stored under the
/// key, if any; a lookup changes the recency order, not the entries.
#[verifier::external_body]
fn id_cache_get(c: &mut IdTable, key: &Vec<u8>) -> (r: Option<u64>)
    ensures
        id_cache_entries(*final(c)) == id_cache_entries(*old(c)),
        match r {
            Some(v) => id_cache_entries(*old(c)).contains_key(key@) && id_cache_entries(
                *old(c),
            )[key@] == v,
            None => !id_cache_entries(*old(c)).contains_key(key@),
        },
{
    c.cache_get(key).copied()
}

/// Relies on `Cached::cache_set` of `SizedCache`: the pair is stored; when the
/// cache is over its size, the least recently used other entry is evicted.
#[verifier::external_body]
fn id_cache_set(c: &mut IdTable, key: Vec<u8>, value: u64)
    ensures
        id_cache_entries(*final(c)).contains_key(key@),
        id_cache_entries(*final(c))[key@] == value,
        id_cache_entries(*final(c)).submap_of(id_cache_entries(*old(c)).insert(key@, value)),
{
    c.cache_set(key, value);
}

/// Two bounded memo tables: mangled name to display name, and frame content
/// to frame id. Every entry agrees with the function it memoises.
pub struct SymbolCache {
    names: NameTable,
    ids: IdTable,
}

impl SymbolCache {
    pub closed spec fn wf(&self) -> bool {
        &&& forall|k: Seq<char>| #[trigger]
            name_cache_entries(self.names).contains_key(k) ==> name_cache_entries(self.names)[k]
                == demangled_of(k)
        &&& forall|k: Seq<u8>| #[trigger]
            id_cache_entries(self.ids).contains_key(k) ==> id_cache_entries(self.ids)[k]
                == content_id(k)
    }

    /// A cache whose two tables hold at most `capacity` entries each.
    pub fn new(capacity: usize) -> (r: SymbolCache)
        requires
            capacity > 0,
        ensures
            r.wf(),
    {
        SymbolCache { names: new_name_cache(capacity), ids: new_id_cache(capacity) }
    }

    /// The display name of a mangled symbol, from the table when present.
    pub fn demangle(&mut self, mangled: &str) -> (r: String)
        requires
            old(self).wf(),
        ensures
            final(self).wf(),
            r@ == demangled_of(mangled@),
    {
        let key = mangled.to_owned();
        match name_cache_get(&mut self.names, &key) {
            Some(hit) => hit,
            None => {
                let name = demangle_name(mangled);
                let stored = name.clone();
                let ghost before = name_cache_entries(self.names);
                name_cache_set(&mut self.names, key, stored);
                assert forall|k: Seq<char>| #[trigger]
                    name_cache_entries(self.names).contains_key(k) implies name_cache_entries(
                    self.names,
                )[k] == demangled_of(k) by {
                    assert(before.insert(mangled@, name@).contains_key(k));
                }
                name
            },
        }
    }

    /// The identity of a frame record, from the table when present.
    pub fn frame_id(
        &mut self,
        symbol: &str,
        file: &Option<String>,
        line_number: Option<u32>,
        bin_file: &Option<String>,
    ) -> (r: u64)
        requires
            old(self).wf(),
        ensures
            final(self).wf(),
            r == frame_id_of(symbol@, opt_view(*file), line_number, opt_view(*bin_file)),
    {
        let pre = frame_preimage_bytes(symbol, file, line_number, bin_file);
        match id_cache_get(&mut self.ids, &pre) {
            Some(hit) => hit,
            None => {
                let id = content_id_of_bytes(pre.as_slice());
                let ghost before = id_cache_entries(self.ids);
                let ghost key = pre@;
                id_cache_set(&mut self.ids, pre, id);
                assert forall|k: Seq<u8>| #[trigger]
                    id_cache_entries(self.ids).contains_key(k) implies id_cache_entries(self.ids)[k]
                    == content_id(k) by {
                    assert(before.insert(key, id).contains_key(k));
                }
                id
            },
        }
    }
}

} // verus!
