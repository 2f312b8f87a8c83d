use vstd::prelude::*;
use crate::data::{Key, Value};
use crate::error::BrittMarieError;
use crate::store::RawStore;

verus! {

/// Write modes an index supports.
#[derive(PartialEq, Eq, Structural, Clone, Copy, Debug)]
pub enum WriteMode {
    /// Lazy: writes reach the durable store only on eviction, or when the
    /// index is persisted.
    Lazy,
    /// Copy-on-write: every write is forwarded to the durable store as well.
    Cow,
}

impl WriteMode {
    pub fn is_cow(&self) -> (r: bool)
        ensures
            r == (*self == WriteMode::Cow),
    {
        *self == WriteMode::Cow
    }

    pub fn is_lazy(&self) -> (r: bool)
        ensures
            r == (*self == WriteMode::Lazy),
    {
        *self == WriteMode::Lazy
    }
}

impl Default for WriteMode {
    fn default() -> (r: Self)
        ensures
            r == WriteMode::Lazy,
    {
        WriteMode::Lazy
    }
}

/// Common index operations: every index can push its unsaved data to the
/// durable store it is paired with.
pub trait IndexOps: Sized {
    /// The index's own well-formedness.
    spec fn ops_wf(&self) -> bool;

    /// The index's pairing with a store.
    spec fn ops_coherent(&self, store: RawStore) -> bool;

    fn persist(&mut self, store: &mut RawStore) -> (r: Result<(), BrittMarieError>)
        requires
            old(self).ops_wf(),
            old(self).ops_coherent(*old(store)),
            old(store).wf(),
        ensures
            final(self).ops_wf(),
            final(self).ops_coherent(*final(store)),
            final(store).wf(),
            final(store).snapshots() == old(store).snapshots(),
    ;
}

/// Operations of an ordered index.
pub trait OrderedOps: IndexOps {
    fn get<K: Key, V: Value>(&self, key: &K) -> Option<&V>;

    fn put<K: Key, V: Value>(&mut self, key: &K, value: V);

    fn range<K: Key, V: Value>(&mut self, start: &K, end: &K) -> Vec<V>;
}

/// Operations of a keyed hash index.
pub trait HashOps<K: Key, V: Value>: IndexOps {
    fn get<'a>(&'a mut self, key: &K, store: &mut RawStore) -> (r: Option<&'a V>)
        requires
            old(self).ops_wf(),
            old(self).ops_coherent(*old(store)),
            old(store).wf(),
            key.enc_ok(),
        ensures
            final(self).ops_wf(),
            final(self).ops_coherent(*final(store)),
            final(store).wf(),
            final(store).snapshots() == old(store).snapshots(),
    ;

    fn put(&mut self, key: K, value: V, store: &mut RawStore)
        requires
            old(self).ops_wf(),
            old(self).ops_coherent(*old(store)),
            old(store).wf(),
        ensures
            final(self).ops_wf(),
            final(self).ops_coherent(*final(store)),
            final(store).wf(),
            final(store).snapshots() == old(store).snapshots(),
    ;

    fn rmw<F: FnOnce(V) -> V>(&mut self, key: &K, f: F, store: &mut RawStore) -> (r: bool)
        requires
            old(self).ops_wf(),
            old(self).ops_coherent(*old(store)),
            old(store).wf(),
            key.enc_ok(),
            forall|v: V| #[trigger] f.requires((v,)),
        ensures
            final(self).ops_wf(),
            final(self).ops_coherent(*final(store)),
            final(store).wf(),
            final(store).snapshots() == old(store).snapshots(),
    ;
}

/// Operations of a single-value index.
pub trait ValueOps<V: Value>: IndexOps {
    fn get(&self) -> Option<&V>;

    fn put(&mut self, value: V, store: &mut RawStore)
        requires
            old(self).ops_wf(),
            old(self).ops_coherent(*old(store)),
            old(store).wf(),
        ensures
            final(self).ops_wf(),
            final(self).ops_coherent(*final(store)),
            final(store).wf(),
            final(store).snapshots() == old(store).snapshots(),
    ;

    fn rmw<F: FnOnce(V) -> V>(&mut self, f: F, store: &mut RawStore) -> (r: bool)
        requires
            old(self).ops_wf(),
            old(self).ops_coherent(*old(store)),
            old(store).wf(),
            forall|v: V| #[trigger] f.requires((v,)),
        ensures
            final(self).ops_wf(),
            final(self).ops_coherent(*final(store)),
            final(store).wf(),
            final(store).snapshots() == old(store).snapshots(),
    ;
}

} // verus!
