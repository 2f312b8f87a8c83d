use vstd::prelude::*;
use crate::data::Value;
use crate::error::BrittMarieError;
use crate::index::WriteMode;
use crate::store::RawStore;

verus! {

/// A single-value index: one optional value under a fixed raw key.
///
/// Suited to rolling counters, watermarks and epochs. The slot always
/// holds a value — a fresh index warm-starts from the store, falling back
/// to the type's default — and reads never consult the store.
pub struct ValueIndex<V: Value> {
    key: Vec<u8>,
    data: Option<V>,
    mode: WriteMode,
}

impl<V: Value> ValueIndex<V> {
    /// The raw key this value lives under in the store.
    pub closed spec fn spec_key(&self) -> Seq<u8> {
        self.key@
    }

    /// The in-memory slot.
    pub closed spec fn spec_data(&self) -> Option<V> {
        self.data
    }

    /// The configured write mode.
    pub closed spec fn spec_mode(&self) -> WriteMode {
        self.mode
    }

    /// The slot is never empty.
    pub open spec fn wf(&self) -> bool {
        self.spec_data() is Some
    }

    /// Creates a lazily writing value index under `key`, warm-started
    /// from the store: a stored value is decoded and taken over, and a
    /// missing entry starts the slot at the type's default.
    pub fn new(key: Vec<u8>, store: &RawStore) -> (r: Result<Self, BrittMarieError>)
        requires
            store.wf(),
        ensures
            r is Ok ==> r->Ok_0.wf() && r->Ok_0.spec_mode() == WriteMode::Lazy
                && r->Ok_0.spec_key() == key@,
            !store@.contains_key(key@) ==> r is Ok && r->Ok_0.spec_data() == Some(
                V::spec_default(),
            ),
            forall|v: V|
                store@.contains_key(key@) && store@[key@] == v.enc() && v.enc_ok() ==> r is Ok
                    && r->Ok_0.spec_data() == Some(v),
    {
        Self::setup(key, WriteMode::Lazy, store)
    }

    /// Creates a copy-on-write value index under `key`, warm-started the
    /// same way; every later write is forwarded to the store.
    pub fn cow(key: Vec<u8>, store: &RawStore) -> (r: Result<Self, BrittMarieError>)
        requires
            store.wf(),
        ensures
            r is Ok ==> r->Ok_0.wf() && r->Ok_0.spec_mode() == WriteMode::Cow
                && r->Ok_0.spec_key() == key@,
            !store@.contains_key(key@) ==> r is Ok && r->Ok_0.spec_data() == Some(
                V::spec_default(),
            ),
            forall|v: V|
                store@.contains_key(key@) && store@[key@] == v.enc() && v.enc_ok() ==> r is Ok
                    && r->Ok_0.spec_data() == Some(v),
    {
        Self::setup(key, WriteMode::Cow, store)
    }

    fn setup(key: Vec<u8>, mode: WriteMode, store: &RawStore) -> (r: Result<
        Self,
        BrittMarieError,
    >)
        requires
            store.wf(),
        ensures
            r is Ok ==> r->Ok_0.wf() && r->Ok_0.spec_mode() == mode && r->Ok_0.spec_key()
                == key@,
            !store@.contains_key(key@) ==> r is Ok && r->Ok_0.spec_data() == Some(
                V::spec_default(),
            ),
            forall|v: V|
                store@.contains_key(key@) && store@[key@] == v.enc() && v.enc_ok() ==> r is Ok
                    && r->Ok_0.spec_data() == Some(v),
    {
        let data = match store.get_raw(&key) {
            Some(bytes) => {
                match V::from_raw(bytes.as_slice()) {
                    Ok(v) => Some(v),
                    Err(e) => {
                        return Err(e);
                    },
                }
            },
            None => Some(V::default_value()),
        };
        Ok(ValueIndex { key, data, mode })
    }

    /// The current value.
    pub fn get(&self) -> (r: Option<&V>)
        ensures
            match r {
                Some(v) => self.spec_data() == Some(*v),
                None => self.spec_data() is None,
            },
    {
        match &self.data {
            Some(v) => Some(v),
            None => None,
        }
    }

    /// Overwrites the value; in copy-on-write mode the new value is
    /// forwarded to the store first, and an unencodable value is rejected
    /// without touching anything.
    pub fn put(&mut self, value: V, store: &mut RawStore) -> (r: Result<(), BrittMarieError>)
        requires
            old(self).wf(),
            old(store).wf(),
        ensures
            final(self).wf(),
            final(store).wf(),
            final(self).spec_key() == old(self).spec_key(),
            final(self).spec_mode() == old(self).spec_mode(),
            final(store).snapshots() == old(store).snapshots(),
            r is Ok <==> (old(self).spec_mode() == WriteMode::Lazy || value.enc_ok()),
            r is Ok ==> final(self).spec_data() == Some(value),
            r is Err ==> *final(self) == *old(self) && *final(store) == *old(store) && r->Err_0
                is Serde,
            old(self).spec_mode() == WriteMode::Cow && r is Ok ==> final(store)@ == old(
                store,
            )@.insert(old(self).spec_key(), value.enc()),
            old(self).spec_mode() == WriteMode::Lazy ==> *final(store) == *old(store),
    {
        if self.mode.is_cow() {
            let raw = match value.into_raw() {
                Ok(b) => b,
                Err(_) => {
                    return Err(BrittMarieError::Serde(String::new()));
                },
            };
            let kc = crate::store::copy_bytes(&self.key);
            let res = store.put_raw(kc, raw);
            proof {
                assert(res is Ok);
            }
        }
        self.data = Some(value);
        Ok(())
    }

    /// Applies `f` to the current value in place; in copy-on-write mode
    /// an encodable result is forwarded to the store as well. Reports
    /// whether a value was rewritten — the slot always holds one.
    pub fn rmw<F: FnOnce(V) -> V>(&mut self, f: F, store: &mut RawStore) -> (r: bool)
        requires
            old(self).wf(),
            old(store).wf(),
            forall|v: V| #[trigger] f.requires((v,)),
        ensures
            final(self).wf(),
            final(store).wf(),
            final(self).spec_key() == old(self).spec_key(),
            final(self).spec_mode() == old(self).spec_mode(),
            final(store).snapshots() == old(store).snapshots(),
            r == true,
            exists|vn: V|
                #[trigger] f.ensures((old(self).spec_data()->Some_0,), vn)
                    && final(self).spec_data() == Some(vn) && (old(self).spec_mode()
                    == WriteMode::Cow && vn.enc_ok() ==> final(store)@ == old(store)@.insert(
                    old(self).spec_key(),
                    vn.enc(),
                )) && (old(self).spec_mode() == WriteMode::Cow && !vn.enc_ok() ==> *final(store)
                    == *old(store)),
            old(self).spec_mode() == WriteMode::Lazy ==> *final(store) == *old(store),
    {
        let taken = self.data.take();
        let v = match taken {
            Some(v) => v,
            None => {
                proof {
                    assert(false);
                }
                vstd::pervasive::unreached()
            },
        };
        let newv = f(v);
        if self.mode.is_cow() {
            match newv.into_raw() {
                Ok(raw) => {
                    let kc = crate::store::copy_bytes(&self.key);
                    let res = store.put_raw(kc, raw);
                    proof {
                        assert(res is Ok);
                    }
                },
                Err(_) => {},
            }
        }
        self.data = Some(newv);
        true
    }

    /// Pushes the current value to the store under the index's key; an
    /// encoding failure surfaces as `Serde` and writes nothing.
    pub fn persist(&self, store: &mut RawStore) -> (r: Result<(), BrittMarieError>)
        requires
            old(store).wf(),
        ensures
            final(store).wf(),
            final(store).snapshots() == old(store).snapshots(),
            self.spec_data() is Some && self.spec_data()->Some_0.enc_ok() ==> r is Ok
                && final(store)@ == old(store)@.insert(
                self.spec_key(),
                self.spec_data()->Some_0.enc(),
            ),
            self.spec_data() is None ==> r is Ok && *final(store) == *old(store),
            r is Err ==> *final(store) == *old(store) && r->Err_0 is Serde,
    {
        match &self.data {
            Some(v) => {
                let raw = match v.into_raw() {
                    Ok(b) => b,
                    Err(_) => {
                        return Err(BrittMarieError::Serde(String::new()));
                    },
                };
                let kc = crate::store::copy_bytes(&self.key);
                let res = store.put_raw(kc, raw);
                proof {
                    assert(res is Ok);
                }
                Ok(())
            },
            None => Ok(()),
        }
    }
}


impl<V: Value> crate::index::IndexOps for ValueIndex<V> {
    open spec fn ops_wf(&self) -> bool {
        self.wf()
    }

    open spec fn ops_coherent(&self, store: RawStore) -> bool {
        true
    }

    fn persist(&mut self, store: &mut RawStore) -> (r: Result<(), BrittMarieError>) {
        ValueIndex::persist(self, store)
    }
}

impl<V: Value> crate::index::ValueOps<V> for ValueIndex<V> {
    fn get(&self) -> Option<&V> {
        ValueIndex::get(self)
    }

    fn put(&mut self, value: V, store: &mut RawStore) {
        let _ = ValueIndex::put(self, value, store);
    }

    fn rmw<F: FnOnce(V) -> V>(&mut self, f: F, store: &mut RawStore) -> (r: bool) {
        ValueIndex::rmw(self, f, store)
    }
}

} // verus!
