//! The key directory: where the latest `Put` of each live key lies in the log.
use vstd::prelude::*;
use dashmap::DashMap;

verus! {

/// Where a record lies: its log file, the offset of its first byte, and its length.
#[derive(Debug, Clone, Copy, PartialEq, Eq, Structural)]
pub struct CmdPos {
    pub file_id: u64,
    pub kv_pos: u64,
    pub len: u64,
}

#[verifier::external_type_specification]
#[verifier::external_body]
#[verifier::reject_recursive_types(K)]
#[verifier::reject_recursive_types(V)]
#[verifier::reject_recursive_types(S)]
pub struct ExDashMap<K, V, S>(DashMap<K, V, S>);

/// The entries of a concurrent map from keys to record positions.
pub uninterp spec fn dir_entries(m: DashMap<String, CmdPos>) -> Map<Seq<char>, CmdPos>;

/// A map from each live key to the position of its latest `Put` record.
pub struct KeyDir {
    map: DashMap<String, CmdPos>,
}

impl View for KeyDir {
    type V = Map<Seq<char>, CmdPos>;

    closed spec fn view(&self) -> Map<Seq<char>, CmdPos> {
        dir_entries(self.map)
    }
}

/// Relies on `DashMap::new`: the map starts empty.
#[verifier::external_body]
fn dashmap_new() -> (r: DashMap<String, CmdPos>)
    ensures
        dir_entries(r).dom().is_empty(),
{
    DashMap::new()
}

/// Relies on `DashMap::get`: the entry of the key, if any (copied out of the guard).
#[verifier::external_body]
fn dashmap_get(m: &DashMap<String, CmdPos>, key: &str) -> (r: Option<CmdPos>)
    ensures
        r == (if dir_entries(*m).contains_key(key@) {
            Some(dir_entries(*m)[key@])
        } else {
            None
        }),
{
    m.get(key).map(|e| *e.value())
}

/// Relies on `DashMap::insert`: the key now maps to the value, and the value it
/// mapped to before, if any, comes back.
#[verifier::external_body]
fn dashmap_insert(m: &mut DashMap<String, CmdPos>, key: String, pos: CmdPos) -> (r: Option<
    CmdPos,
>)
    ensures
        dir_entries(*final(m)) == dir_entries(*old(m)).insert(key@, pos),
        r == (if dir_entries(*old(m)).contains_key(key@) {
            Some(dir_entries(*old(m))[key@])
        } else {
            None
        }),
{
    m.insert(key, pos)
}

/// Relies on `DashMap::remove`: the key no longer maps to anything, and the value
/// it mapped to, if any, comes back.
#[verifier::external_body]
fn dashmap_remove(m: &mut DashMap<String, CmdPos>, key: &str) -> (r: Option<CmdPos>)
    ensures
        dir_entries(*final(m)) == dir_entries(*old(m)).remove(key@),
        r == (if dir_entries(*old(m)).contains_key(key@) {
            Some(dir_entries(*old(m))[key@])
        } else {
            None
        }),
{
    m.remove(key).map(|(_, v)| v)
}

/// Relies on `DashMap::iter`: each entry is visited once, in an order that the
/// map does not promise; the keys are copied out.
#[verifier::external_body]
fn dashmap_keys(m: &DashMap<String, CmdPos>) -> (r: Vec<String>)
    ensures
        forall|i: int| 0 <= i < r@.len() ==> dir_entries(*m).contains_key(#[trigger] r@[i]@),
        forall|k: Seq<char>|
            dir_entries(*m).contains_key(k) ==> exists|i: int| 0 <= i < r@.len() && #[trigger] r@[i]@ == k,
        forall|i: int, j: int| 0 <= i < j < r@.len() ==> r@[i]@ != r@[j]@,
{
    m.iter().map(|e| e.key().clone()).collect()
}

impl KeyDir {
    pub fn new() -> (r: KeyDir)
        ensures
            r@.dom().is_empty(),
    {
        KeyDir { map: dashmap_new() }
    }

    pub fn get(&self, key: &str) -> (r: Option<CmdPos>)
        ensures
            r == (if self@.contains_key(key@) {
                Some(self@[key@])
            } else {
                None
            }),
    {
        dashmap_get(&self.map, key)
    }

    pub fn insert(&mut self, key: String, pos: CmdPos) -> (r: Option<CmdPos>)
        ensures
            final(self)@ == old(self)@.insert(key@, pos),
            r == (if old(self)@.contains_key(key@) {
                Some(old(self)@[key@])
            } else {
                None
            }),
    {
        dashmap_insert(&mut self.map, key, pos)
    }

    pub fn remove(&mut self, key: &str) -> (r: Option<CmdPos>)
        ensures
            final(self)@ == old(self)@.remove(key@),
            r == (if old(self)@.contains_key(key@) {
                Some(old(self)@[key@])
            } else {
                None
            }),
    {
        dashmap_remove(&mut self.map, key)
    }

    /// Every key of the directory, each once, in no particular order.
    pub fn keys(&self) -> (r: Vec<String>)
        ensures
            forall|i: int| 0 <= i < r@.len() ==> self@.contains_key(#[trigger] r@[i]@),
            forall|k: Seq<char>|
                self@.contains_key(k) ==> exists|i: int| 0 <= i < r@.len() && #[trigger] r@[i]@ == k,
            forall|i: int, j: int| 0 <= i < j < r@.len() ==> r@[i]@ != r@[j]@,
    {
        dashmap_keys(&self.map)
    }
}

} // verus!
