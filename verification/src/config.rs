use vstd::prelude::*;

verus! {

/// Write modes an index can be configured with.
#[derive(PartialEq, Eq, Structural, Clone, Copy, Debug)]
pub enum WriteMode {
    /// No copy-on-write: writes reach the durable store only on eviction or
    /// an explicit persist.
    NCow,
    /// Copy-on-write: every write is forwarded to the durable store as well.
    Cow,
}

impl Default for WriteMode {
    fn default() -> (r: Self)
        ensures
            r == WriteMode::NCow,
    {
        WriteMode::NCow
    }
}

/// Configuration record for an index.
pub struct IndexConfig {
    pub write_mode: WriteMode,
}

impl IndexConfig {
    pub fn is_cow(&self) -> (r: bool)
        ensures
            r == (self.write_mode == WriteMode::Cow),
    {
        self.write_mode == WriteMode::Cow
    }
}

impl Default for IndexConfig {
    fn default() -> (r: Self)
        ensures
            r.write_mode == WriteMode::NCow,
    {
        IndexConfig { write_mode: WriteMode::NCow }
    }
}

} // verus!
