use vstd::prelude::*;
use crate::data::Value;
use crate::error::BrittMarieError;

verus! {

/// Bookkeeping a lazily serialised entry carries: its version and the
/// last known offset in the log file.
pub struct Metadata {
    pub version: u64,
    pub log_offset: u64,
}

impl Metadata {
    pub fn new() -> (r: Self)
        ensures
            r.version == 0,
            r.log_offset == 0,
    {
        Metadata { version: 0, log_offset: 0 }
    }
}

/// An entry whose value has not been serialised yet.
pub struct LazyEntry<V: Value> {
    value: V,
    meta: Metadata,
}

/// An entry whose value has been serialised to raw bytes.
pub struct RawEntry {
    pub value: Vec<u8>,
    pub meta: Metadata,
}

impl<V: Value> LazyEntry<V> {
    /// The value carried.
    pub closed spec fn spec_value(&self) -> V {
        self.value
    }

    /// The bookkeeping carried.
    pub closed spec fn spec_meta_version(&self) -> u64 {
        self.meta.version
    }

    pub closed spec fn spec_meta_offset(&self) -> u64 {
        self.meta.log_offset
    }

    pub fn new(value: V) -> (r: Self)
        ensures
            r.spec_value() == value,
            r.spec_meta_version() == 0,
            r.spec_meta_offset() == 0,
    {
        LazyEntry { value, meta: Metadata::new() }
    }

    pub fn update_offset(&mut self, offset: u64)
        ensures
            final(self).spec_meta_offset() == offset,
            final(self).spec_meta_version() == old(self).spec_meta_version(),
            final(self).spec_value() == old(self).spec_value(),
    {
        self.meta.log_offset = offset;
    }

    pub fn update_version(&mut self, version: u64)
        ensures
            final(self).spec_meta_version() == version,
            final(self).spec_meta_offset() == old(self).spec_meta_offset(),
            final(self).spec_value() == old(self).spec_value(),
    {
        self.meta.version = version;
    }

    /// Serialises the value, keeping the bookkeeping; an encoding failure
    /// surfaces as `Serde`.
    pub fn into_raw(self) -> (r: Result<RawEntry, BrittMarieError>)
        ensures
            r is Ok <==> self.spec_value().enc_ok(),
            r is Ok ==> r->Ok_0.value@ == self.spec_value().enc() && r->Ok_0.meta.version
                == self.spec_meta_version() && r->Ok_0.meta.log_offset
                == self.spec_meta_offset(),
    {
        match self.value.into_raw() {
            Ok(bytes) => Ok(RawEntry { value: bytes, meta: self.meta }),
            Err(e) => Err(e),
        }
    }
}

} // verus!
