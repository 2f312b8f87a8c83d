use vstd::prelude::*;
use crate::data::{Key, Value};
use crate::error::BrittMarieError;
use crate::group::{
    spec_is_modified, spec_is_safe, MODIFIED, MODIFIED_TOUCHED, SAFE, SAFE_TOUCHED,
};
use crate::index::WriteMode;
use crate::store::RawStore;
use crate::table::{dirty_pairs, Bucket, RawTable};

verus! {

/// A keyed hash index over the raw table, backed by a durable store.
///
/// The in-memory table is authoritative; the store holds what was evicted
/// or persisted. In lazy mode only eviction and persisting reach the
/// store; in copy-on-write mode every write is forwarded as well.
pub struct HashIndex<K: Key, V: Value> {
    table: RawTable<K, V>,
    mode: WriteMode,
}

impl<K: Key, V: Value> HashIndex<K, V> {
    /// The raw table the index drives.
    pub closed spec fn spec_table(&self) -> RawTable<K, V> {
        self.table
    }

    /// The configured write mode.
    pub closed spec fn spec_mode(&self) -> WriteMode {
        self.mode
    }

    /// Whether `k` is resident in memory.
    pub open spec fn mem_has(&self, k: K) -> bool {
        exists|i: int|
            0 <= i < self.spec_table().spec_buckets() && #[trigger] self.spec_table(
            ).is_bucket_full(i) && self.spec_table().spec_slot(i)->Some_0.0 == k
    }

    /// The value resident under `k`.
    pub open spec fn mem_val(&self, k: K) -> V {
        let i = choose|i: int|
            0 <= i < self.spec_table().spec_buckets() && #[trigger] self.spec_table(
            ).is_bucket_full(i) && self.spec_table().spec_slot(i)->Some_0.0 == k;
        self.spec_table().spec_slot(i)->Some_0.1
    }

    /// Well-formedness: the table is sound, resident keys are unique and
    /// encodable, and each bucket remembers the hash of its own key.
    pub open spec fn wf(&self) -> bool {
        let t = self.spec_table();
        &&& t.wf()
        &&& t.spec_bucket_mask() >= 1
        &&& (forall|i: int, j: int|
            0 <= i < j < t.spec_buckets() && #[trigger] t.is_bucket_full(i)
                && #[trigger] t.is_bucket_full(j) ==> t.spec_slot(i)->Some_0.0 != t.spec_slot(
                j,
            )->Some_0.0)
        &&& (forall|i: int|
            0 <= i < t.spec_buckets() && #[trigger] t.is_bucket_full(i) ==> t.spec_hash(i)
                == t.spec_slot(i)->Some_0.0.hash_spec())
        &&& (forall|i: int|
            0 <= i < t.spec_buckets() && #[trigger] t.is_bucket_full(i) ==> t.spec_slot(
                i,
            )->Some_0.0.enc_ok() && t.spec_slot(i)->Some_0.1.enc_ok())
    }

    /// Pairing with a store: every clean resident pair is durable as it
    /// stands, so a safe eviction loses nothing.
    pub open spec fn coherent(&self, store: RawStore) -> bool {
        let t = self.spec_table();
        forall|i: int|
            0 <= i < t.spec_buckets() && #[trigger] t.is_bucket_full(i) && spec_is_safe(
                t.spec_meta(i),
            ) ==> store@.contains_key(t.spec_slot(i)->Some_0.0.enc()) && store@[t.spec_slot(
                i,
            )->Some_0.0.enc()] == t.spec_slot(i)->Some_0.1.enc()
    }

    /// The composite holding of a pair: a resident key is read from
    /// memory, any other key from the store's bytes.
    pub open spec fn maps_to(&self, store: RawStore, k: K, v: V) -> bool {
        if self.mem_has(k) {
            self.mem_val(k) == v
        } else {
            store@.contains_key(k.enc()) && store@[k.enc()] == v.enc()
        }
    }

    /// The meta byte of the bucket holding `k`.
    pub open spec fn mem_meta(&self, k: K) -> u8 {
        let i = choose|i: int|
            0 <= i < self.spec_table().spec_buckets() && #[trigger] self.spec_table(
            ).is_bucket_full(i) && self.spec_table().spec_slot(i)->Some_0.0 == k;
        self.spec_table().spec_meta(i)
    }

    /// Creates a lazily writing index for `capacity` entries, with the
    /// dirty ceiling at `mod_factor_tenths` tenths of the free pool.
    /// A factor of zero tenths or above nine tenths is rejected, as is a
    /// capacity beyond what this machine can address.
    pub fn new(capacity: usize, mod_factor_tenths: usize) -> (r: Result<Self, BrittMarieError>)
        ensures
            r is Err <==> (mod_factor_tenths == 0 || mod_factor_tenths > 9 || capacity == 0
                || capacity > 0x1000_0000),
            r is Ok ==> r->Ok_0.wf() && r->Ok_0.spec_mode() == WriteMode::Lazy
                && r->Ok_0.spec_table().spec_items() == 0 && r->Ok_0.spec_table(
            ).spec_mod_counter() == 0 && r->Ok_0.spec_table().spec_mod_limit() == r->Ok_0.spec_table(
            ).spec_growth_left() * mod_factor_tenths / 10,
    {
        Self::setup(capacity, mod_factor_tenths, WriteMode::Lazy)
    }

    /// Creates a copy-on-write index; the same construction rules apply.
    pub fn cow(capacity: usize, mod_factor_tenths: usize) -> (r: Result<Self, BrittMarieError>)
        ensures
            r is Err <==> (mod_factor_tenths == 0 || mod_factor_tenths > 9 || capacity == 0
                || capacity > 0x1000_0000),
            r is Ok ==> r->Ok_0.wf() && r->Ok_0.spec_mode() == WriteMode::Cow
                && r->Ok_0.spec_table().spec_items() == 0 && r->Ok_0.spec_table(
            ).spec_mod_counter() == 0 && r->Ok_0.spec_table().spec_mod_limit() == r->Ok_0.spec_table(
            ).spec_growth_left() * mod_factor_tenths / 10,
    {
        Self::setup(capacity, mod_factor_tenths, WriteMode::Cow)
    }

    fn setup(capacity: usize, mod_factor_tenths: usize, mode: WriteMode) -> (r: Result<
        Self,
        BrittMarieError,
    >)
        ensures
            r is Err <==> (mod_factor_tenths == 0 || mod_factor_tenths > 9 || capacity == 0
                || capacity > 0x1000_0000),
            r is Ok ==> r->Ok_0.wf() && r->Ok_0.spec_mode() == mode && r->Ok_0.spec_table(
            ).spec_items() == 0 && r->Ok_0.spec_table().spec_mod_counter() == 0
                && r->Ok_0.spec_table().spec_mod_limit() == r->Ok_0.spec_table(
            ).spec_growth_left() * mod_factor_tenths / 10,
    {
        if mod_factor_tenths == 0 || mod_factor_tenths > 9 || capacity == 0 || capacity
            > 0x1000_0000 {
            return Err(BrittMarieError::Unknown);
        }
        let table = RawTable::with_capacity(capacity, mod_factor_tenths);
        proof {
            table.lemma_counters_nonneg();
            assert(table.spec_bucket_mask() >= 1);
        }
        let r = HashIndex { table, mode };
        proof {
            r.spec_table().lemma_items_zero_no_full();
        }
        Ok(r)
    }

    /// Number of resident entries.
    pub fn len(&self) -> (r: usize)
        ensures
            r == self.spec_table().spec_items(),
    {
        self.table.len()
    }

    /// Whether no entry is resident.
    pub fn is_empty(&self) -> (r: bool)
        ensures
            r == (self.spec_table().spec_items() == 0),
    {
        self.table.len() == 0
    }

    /// The configured dirty ceiling.
    pub fn mod_limit(&self) -> (r: usize)
        ensures
            r == self.spec_table().spec_mod_limit(),
    {
        self.table.mod_limit()
    }

    /// Entries that fit before the load ceiling.
    pub fn capacity(&self) -> (r: usize)
        requires
            self.wf(),
        ensures
            r == self.spec_table().spec_items() + self.spec_table().spec_growth_left(),
    {
        self.table.capacity()
    }

    /// With the dirty counter at zero — as after a persist — every
    /// resident bucket is clean.
    pub proof fn law_all_clean(&self)
        requires
            self.wf(),
            self.spec_table().spec_mod_counter() == 0,
        ensures
            forall|k: K|
                #[trigger] self.mem_has(k) ==> spec_is_safe(self.mem_meta(k)),
    {
        self.spec_table().lemma_no_dirty_when_zero();
        assert forall|k: K| #[trigger] self.mem_has(k) implies spec_is_safe(
            self.mem_meta(k),
        ) by {
            let i = choose|i: int|
                0 <= i < self.spec_table().spec_buckets() && #[trigger] self.spec_table(
                ).is_bucket_full(i) && self.spec_table().spec_slot(i)->Some_0.0 == k;
            Self::lemma_mem_at(*self, i, k);
            assert(!spec_is_modified(self.spec_table().spec_meta(i)));
            crate::group::lemma_byte_values();
        }
    }

    /// Meta byte of the bucket holding `key`, if resident: exposes the
    /// lifecycle state for inspection without touching it.
    pub fn key_meta(&self, key: &K) -> (r: Option<u8>)
        requires
            self.wf(),
        ensures
            match r {
                Some(m) => exists|i: int|
                    0 <= i < self.spec_table().spec_buckets() && #[trigger] self.spec_table(
                    ).is_bucket_full(i) && self.spec_table().spec_slot(i)->Some_0.0 == *key
                        && self.spec_table().spec_meta(i) == m,
                None => !self.mem_has(*key),
            },
    {
        let hash = key.key_hash();
        let r = self.table.find_meta(hash, key);
        proof {
            if r is None && self.mem_has(*key) {
                let i = choose|i: int|
                    0 <= i < self.spec_table().spec_buckets() && #[trigger] self.spec_table(
                    ).is_bucket_full(i) && self.spec_table().spec_slot(i)->Some_0.0 == *key;
                assert(self.spec_table().spec_hash(i) == key.hash_spec());
                assert(self.spec_table().has_key(hash, *key));
            }
        }
        r
    }
}


impl<K: Key, V: Value> HashIndex<K, V> {

    /// Flushes every dirty pair to the store, leaving all meta bytes
    /// clean; shared by persisting and the degenerate make-room path.
    fn flush_modified(&mut self, store: &mut RawStore) -> (r: Result<(), BrittMarieError>)
        requires
            old(self).wf(),
            old(self).coherent(*old(store)),
            old(store).wf(),
        ensures
            final(self).wf(),
            final(store).wf(),
            r is Ok,
            final(self).coherent(*final(store)),
            final(self).spec_mode() == old(self).spec_mode(),
            final(self).spec_table().spec_mod_counter() == 0,
            final(self).spec_table().same_but_meta(&old(self).spec_table()),
            final(store).snapshots() == old(store).snapshots(),
            forall|k: K|
                old(self).mem_has(k) ==> #[trigger] final(self).mem_has(k)
                    && final(self).mem_val(k) == old(self).mem_val(k) && final(self).mem_meta(k)
                    == (if spec_is_modified(old(self).mem_meta(k)) {
                    SAFE
                } else {
                    old(self).mem_meta(k)
                }),
            forall|k: K| final(self).mem_has(k) ==> #[trigger] old(self).mem_has(k),
            final(self).coherent(*final(store)),
            old(self).spec_table().spec_mod_counter() == 0 ==> *final(store) == *old(store),
            forall|ks: Seq<u8>|
                old(store)@.contains_key(ks) ==> #[trigger] final(store)@.contains_key(ks),
            forall|ks: Seq<u8>|
                #[trigger] final(store)@.contains_key(ks) ==> old(store)@.contains_key(ks) || (
                exists|k2: K| #[trigger] old(self).mem_has(k2) && ks == k2.enc()),
            forall|ks: Seq<u8>|
                #[trigger] old(store)@.contains_key(ks) && (forall|k2: K|
                    #[trigger] old(self).mem_has(k2) ==> k2.enc() != ks) ==> final(store)@[ks]
                    == old(store)@[ks],
            old(self).coherent(*old(store)) ==> forall|k2: K|
                #[trigger] old(self).mem_has(k2) ==> final(store)@.contains_key(k2.enc())
                    && final(store)@[k2.enc()] == old(self).mem_val(k2).enc(),
    {
        let ghost orig = *self;
        let ghost store0 = *store;
        let pairs = self.table.drain_modified();
        proof {
            Self::lemma_wf_same_but_meta(orig, *self);
            assert forall|m: int|
                0 <= m < pairs@.len() implies (#[trigger] pairs@[m]).0.enc_ok() && pairs@[
                m
            ].1.enc_ok() by {
                crate::table::lemma_dirty_pairs_member(
                    orig.spec_table(),
                    orig.spec_table().spec_buckets(),
                    m,
                );
                let j0 = choose|j0: int|
                    0 <= j0 < orig.spec_table().spec_buckets()
                        && #[trigger] orig.spec_table().is_bucket_full(j0) && spec_is_modified(
                        orig.spec_table().spec_meta(j0),
                    ) && orig.spec_table().spec_slot(j0)->Some_0 == pairs@[m];
            }
            assert forall|k: K| orig.mem_has(k) implies #[trigger] self.mem_has(k)
                && self.mem_val(k) == orig.mem_val(k) by {
                Self::lemma_same_mem(orig, *self, k);
            }
            assert forall|k: K| self.mem_has(k) implies #[trigger] orig.mem_has(k) by {
                Self::lemma_same_mem_rev(orig, *self, k);
            }
            if orig.spec_table().spec_mod_counter() == 0 {
                orig.spec_table().lemma_no_dirty_when_zero();
                assert(pairs@.len() == 0) by {
                    if pairs@.len() > 0 {
                        crate::table::lemma_dirty_pairs_member(
                            orig.spec_table(),
                            orig.spec_table().spec_buckets(),
                            0,
                        );
                    }
                };
            }
        }
        let ghost afterdrain = *self;
        let mut n: usize = 0;
        while n < pairs.len()
            invariant
                *self == afterdrain,
                pairs@.len() == 0 ==> *store == store0,
                self.wf(),
                store.wf(),
                self.spec_mode() == orig.spec_mode(),
                n <= pairs@.len(),
                pairs@ == dirty_pairs(orig.spec_table(), orig.spec_table().spec_buckets()),
                self.spec_table().same_but_meta(&orig.spec_table()),
                self.spec_table().spec_mod_counter() == 0,
                forall|j: int|
                    0 <= j < orig.spec_table().spec_buckets()
                        ==> #[trigger] self.spec_table().spec_meta(j) == (if spec_is_modified(
                        orig.spec_table().spec_meta(j),
                    ) {
                        SAFE
                    } else {
                        orig.spec_table().spec_meta(j)
                    }),
                store.snapshots() == old(store).snapshots(),
                forall|ks: Seq<u8>|
                    old(store)@.contains_key(ks) ==> #[trigger] store@.contains_key(ks),
                forall|ks: Seq<u8>|
                    #[trigger] store@.contains_key(ks) ==> old(store)@.contains_key(ks) || (
                    exists|m: int| 0 <= m < n && (#[trigger] pairs@[m]).0.enc() == ks),
                forall|ks: Seq<u8>|
                    #[trigger] old(store)@.contains_key(ks) && !(exists|m: int|
                        0 <= m < pairs@.len() && (#[trigger] pairs@[m]).0.enc() == ks)
                        ==> store@[ks] == old(store)@[ks] && store@.contains_key(ks),
                forall|m: int|
                    0 <= m < n && (forall|m2: int|
                        m < m2 < pairs@.len() ==> (#[trigger] pairs@[m2]).0.enc() != pairs@[
                            m
                        ].0.enc()) ==> store@.contains_key(#[trigger] pairs@[m].0.enc())
                        && store@[pairs@[m].0.enc()] == pairs@[m].1.enc(),
                forall|m: int|
                    0 <= m < pairs@.len() ==> (#[trigger] pairs@[m]).0.enc_ok() && pairs@[
                        m
                    ].1.enc_ok(),
            decreases pairs@.len() - n,
        {
            let res = store.put(&pairs[n].0, &pairs[n].1);
            proof {
                assert(res is Ok);
            }
            n = n + 1;
        }
        proof {
            Self::lemma_flush_coherent(orig, *self, *old(store), *store, pairs@);
            assert forall|k: K| orig.mem_has(k) implies #[trigger] self.mem_has(k)
                && self.mem_val(k) == orig.mem_val(k) && self.mem_meta(k) == (
            if spec_is_modified(orig.mem_meta(k)) {
                SAFE
            } else {
                orig.mem_meta(k)
            }) by {
                Self::lemma_same_mem(orig, *self, k);
                let i6 = choose|i6: int|
                    0 <= i6 < orig.spec_table().spec_buckets()
                        && #[trigger] orig.spec_table().is_bucket_full(i6)
                        && orig.spec_table().spec_slot(i6)->Some_0.0 == k;
                Self::lemma_mem_at(orig, i6, k);
                orig.spec_table().lemma_ctrl_same_full(self.spec_table(), i6);
                Self::lemma_mem_at(*self, i6, k);
            }
            let bk0 = orig.spec_table().spec_buckets();
            assert forall|ks: Seq<u8>|
                #[trigger] store@.contains_key(ks) implies old(store)@.contains_key(ks) || (
            exists|k2: K| #[trigger] orig.mem_has(k2) && ks == k2.enc()) by {
                if !old(store)@.contains_key(ks) {
                    let m = choose|m: int|
                        0 <= m < n && (#[trigger] pairs@[m]).0.enc() == ks;
                    crate::table::lemma_dirty_pairs_member(orig.spec_table(), bk0, m);
                    let j0 = choose|j0: int|
                        0 <= j0 < bk0 && #[trigger] orig.spec_table().is_bucket_full(j0)
                            && spec_is_modified(orig.spec_table().spec_meta(j0))
                            && orig.spec_table().spec_slot(j0)->Some_0 == pairs@[m];
                    assert(orig.mem_has(pairs@[m].0));
                }
            }
            assert forall|ks: Seq<u8>|
                #[trigger] old(store)@.contains_key(ks) && (forall|k2: K|
                    #[trigger] orig.mem_has(k2) ==> k2.enc() != ks) implies store@[ks] == old(
                store,
            )@[ks] by {
                assert forall|m: int| 0 <= m < pairs@.len() implies (#[trigger] pairs@[m]).0.enc()
                    != ks by {
                    crate::table::lemma_dirty_pairs_member(orig.spec_table(), bk0, m);
                    let j0 = choose|j0: int|
                        0 <= j0 < bk0 && #[trigger] orig.spec_table().is_bucket_full(j0)
                            && spec_is_modified(orig.spec_table().spec_meta(j0))
                            && orig.spec_table().spec_slot(j0)->Some_0 == pairs@[m];
                    assert(orig.mem_has(pairs@[m].0));
                }
            }
            if orig.coherent(*old(store)) {
                assert forall|k2: K|
                    #[trigger] orig.mem_has(k2) implies store@.contains_key(k2.enc())
                    && store@[k2.enc()] == orig.mem_val(k2).enc() by {
                    let i2 = choose|i2: int|
                        0 <= i2 < bk0 && #[trigger] orig.spec_table().is_bucket_full(i2)
                            && orig.spec_table().spec_slot(i2)->Some_0.0 == k2;
                    Self::lemma_mem_at(orig, i2, k2);
                    if spec_is_modified(orig.spec_table().spec_meta(i2)) {
                        crate::table::lemma_dirty_pairs_complete(orig.spec_table(), bk0, i2);
                        let m = choose|m: int|
                            0 <= m < pairs@.len() && #[trigger] pairs@[m]
                                == orig.spec_table().spec_slot(i2)->Some_0;
                        assert forall|m2: int|
                            m < m2 < pairs@.len() implies (#[trigger] pairs@[m2]).0.enc()
                            != pairs@[m].0.enc() by {
                            if pairs@[m2].0.enc() == pairs@[m].0.enc() {
                                K::lemma_enc_injective(&pairs@[m2].0, &pairs@[m].0);
                                crate::table::lemma_dirty_pairs_keys_distinct(
                                    orig.spec_table(),
                                    bk0,
                                    m,
                                    m2,
                                );
                            }
                        }
                        assert(store@.contains_key(pairs@[m].0.enc()) && store@[pairs@[
                        m].0.enc()] == pairs@[m].1.enc());
                    } else {
                        assert(old(store)@.contains_key(k2.enc()) && old(store)@[k2.enc()]
                            == orig.mem_val(k2).enc());
                        assert forall|m: int|
                            0 <= m < pairs@.len() implies (#[trigger] pairs@[m]).0.enc()
                            != k2.enc() by {
                            crate::table::lemma_dirty_pairs_member(
                                orig.spec_table(),
                                bk0,
                                m,
                            );
                            let j0 = choose|j0: int|
                                0 <= j0 < bk0 && #[trigger] orig.spec_table().is_bucket_full(
                                    j0,
                                ) && spec_is_modified(orig.spec_table().spec_meta(j0))
                                    && orig.spec_table().spec_slot(j0)->Some_0 == pairs@[m];
                            if pairs@[m].0.enc() == k2.enc() {
                                K::lemma_enc_injective(&pairs@[m].0, &k2);
                                assert(j0 == i2) by {
                                    if j0 != i2 {
                                        assert(orig.spec_table().spec_slot(j0)->Some_0.0
                                            != orig.spec_table().spec_slot(i2)->Some_0.0);
                                    }
                                };
                            }
                        }
                    }
                }
            }
        }
        Ok(())
    }

    /// Membership is untouched by meta-only changes.
    proof fn lemma_same_mem(pre: Self, post: Self, k: K)
        requires
            pre.wf(),
            post.spec_table().same_but_meta(&pre.spec_table()),
            pre.mem_has(k),
        ensures
            post.mem_has(k),
            post.mem_val(k) == pre.mem_val(k),
            post.mem_has(k) == pre.mem_has(k),
    {
        let t0 = pre.spec_table();
        let t1 = post.spec_table();
        let i = choose|i: int|
            0 <= i < t0.spec_buckets() && #[trigger] t0.is_bucket_full(i) && t0.spec_slot(
                i,
            )->Some_0.0 == k;
        assert(t1.spec_slot(i) == t0.spec_slot(i));
        assert(t1.is_bucket_full(i)) by {
            assert(t1.ctrl_stream() == t0.ctrl_stream());
            t0.lemma_ctrl_same_full(t1, i);
        };
        let i1 = choose|i1: int|
            0 <= i1 < t1.spec_buckets() && #[trigger] t1.is_bucket_full(i1) && t1.spec_slot(
                i1,
            )->Some_0.0 == k;
        assert(t0.is_bucket_full(i1)) by {
            t0.lemma_ctrl_same_full(t1, i1);
        };
        assert(t0.spec_slot(i1) == t1.spec_slot(i1));
        assert(i1 == i) by {
            if i1 != i {
                assert(t0.spec_slot(i)->Some_0.0 != t0.spec_slot(i1)->Some_0.0);
            }
        };
    }

    proof fn lemma_same_mem_rev(pre: Self, post: Self, k: K)
        requires
            post.spec_table().same_but_meta(&pre.spec_table()),
            post.mem_has(k),
        ensures
            pre.mem_has(k),
    {
        let t0 = pre.spec_table();
        let t1 = post.spec_table();
        let i = choose|i: int|
            0 <= i < t1.spec_buckets() && #[trigger] t1.is_bucket_full(i) && t1.spec_slot(
                i,
            )->Some_0.0 == k;
        assert(t0.spec_slot(i) == t1.spec_slot(i));
        assert(t0.is_bucket_full(i)) by {
            t0.lemma_ctrl_same_full(t1, i);
        };
    }

    /// After a flush, every clean resident pair is durable: the pairs that
    /// were dirty were all written, and the rest were durable already.
    proof fn lemma_flush_coherent(
        pre: Self,
        post: Self,
        store0: RawStore,
        store1: RawStore,
        pairs: Seq<(K, V)>,
    )
        requires
            pre.wf(),
            post.wf(),
            pre.coherent(store0),
            post.spec_table().same_but_meta(&pre.spec_table()),
            pairs == dirty_pairs(pre.spec_table(), pre.spec_table().spec_buckets()),
            forall|j: int|
                0 <= j < pre.spec_table().spec_buckets()
                    ==> #[trigger] post.spec_table().spec_meta(j) == (if spec_is_modified(
                    pre.spec_table().spec_meta(j),
                ) {
                    SAFE
                } else {
                    pre.spec_table().spec_meta(j)
                }),
            forall|ks: Seq<u8>|
                #[trigger] store0@.contains_key(ks) && !(exists|m: int|
                    0 <= m < pairs.len() && (#[trigger] pairs[m]).0.enc() == ks)
                    ==> store1@[ks] == store0@[ks] && store1@.contains_key(ks),
            forall|m: int|
                0 <= m < pairs.len() && (forall|m2: int|
                    m < m2 < pairs.len() ==> (#[trigger] pairs[m2]).0.enc() != pairs[m].0.enc())
                    ==> store1@.contains_key(#[trigger] pairs[m].0.enc()) && store1@[pairs[
                    m
                ].0.enc()] == pairs[m].1.enc(),
        ensures
            post.coherent(store1),
    {
        let t0 = pre.spec_table();
        let t1 = post.spec_table();
        let bk = t0.spec_buckets();
        assert forall|i: int|
            0 <= i < bk && #[trigger] t1.is_bucket_full(i) && spec_is_safe(t1.spec_meta(i))
            implies store1@.contains_key(t1.spec_slot(i)->Some_0.0.enc()) && store1@[t1.spec_slot(
            i,
        )->Some_0.0.enc()] == t1.spec_slot(i)->Some_0.1.enc() by {
            assert(t0.spec_slot(i) == t1.spec_slot(i));
            assert(t0.is_bucket_full(i)) by {
                t0.lemma_ctrl_same_full(t1, i);
            };
            let k = t0.spec_slot(i)->Some_0.0;
            let v = t0.spec_slot(i)->Some_0.1;
            if spec_is_modified(t0.spec_meta(i)) {
                // this pair was drained and written; the last write under
                // its key bytes was its own, as resident keys are unique
                crate::table::lemma_dirty_pairs_complete(t0, bk, i);
                let m = choose|m: int|
                    0 <= m < pairs.len() && #[trigger] pairs[m] == t0.spec_slot(i)->Some_0;
                assert forall|m2: int|
                    m < m2 < pairs.len() implies (#[trigger] pairs[m2]).0.enc() != pairs[
                    m
                ].0.enc() by {
                    crate::table::lemma_dirty_pairs_member(t0, bk, m2);
                    let j2 = choose|j2: int|
                        0 <= j2 < bk && #[trigger] t0.is_bucket_full(j2) && spec_is_modified(
                            t0.spec_meta(j2),
                        ) && t0.spec_slot(j2)->Some_0 == pairs[m2];
                    if pairs[m2].0.enc() == pairs[m].0.enc() {
                        K::lemma_enc_injective(&pairs[m2].0, &pairs[m].0);
                        // the drain yields each bucket once, and resident
                        // keys are unique, so key bytes never repeat
                        crate::table::lemma_dirty_pairs_keys_distinct(t0, bk, m, m2);
                    }
                }
                assert(store1@.contains_key(pairs[m].0.enc()) && store1@[pairs[m].0.enc()]
                    == pairs[m].1.enc());
                assert(pairs[m].0 == k && pairs[m].1 == v);
            } else {
                assert(spec_is_safe(t0.spec_meta(i)));
                assert(store0@.contains_key(k.enc()) && store0@[k.enc()] == v.enc());
                assert(!(exists|m: int|
                    0 <= m < pairs.len() && (#[trigger] pairs[m]).0.enc() == k.enc())) by {
                    if exists|m: int|
                        0 <= m < pairs.len() && (#[trigger] pairs[m]).0.enc() == k.enc() {
                        let m = choose|m: int|
                            0 <= m < pairs.len() && (#[trigger] pairs[m]).0.enc() == k.enc();
                        crate::table::lemma_dirty_pairs_member(t0, bk, m);
                        let j2 = choose|j2: int|
                            0 <= j2 < bk && #[trigger] t0.is_bucket_full(j2) && spec_is_modified(
                                t0.spec_meta(j2),
                            ) && t0.spec_slot(j2)->Some_0 == pairs[m];
                        K::lemma_enc_injective(&pairs[m].0, &k);
                        assert(j2 == i) by {
                            if j2 != i {
                                assert(t0.spec_slot(j2)->Some_0.0 != t0.spec_slot(
                                    i,
                                )->Some_0.0);
                            }
                        };
                        assert(spec_is_modified(t0.spec_meta(i)));
                    }
                };
                assert(store1@.contains_key(k.enc()) && store1@[k.enc()] == store0@[k.enc()]);
            }
        }
    }
}

impl<K: Key, V: Value> HashIndex<K, V> {
    /// Index well-formedness carries over a meta-only table change.
    proof fn lemma_wf_same_but_meta(pre: Self, post: Self)
        requires
            pre.wf(),
            post.spec_table().wf(),
            post.spec_table().same_but_meta(&pre.spec_table()),
        ensures
            post.wf(),
    {
        let t0 = pre.spec_table();
        pre.spec_table().lemma_counters_nonneg();
        post.spec_table().lemma_counters_nonneg();
        let t1 = post.spec_table();
        assert forall|i: int|
            0 <= i < t1.spec_buckets() && #[trigger] t1.is_bucket_full(i) implies t0.is_bucket_full(
            i,
        ) && t1.spec_slot(i) == t0.spec_slot(i) && t1.spec_hash(i) == t0.spec_hash(i) by {
            t0.lemma_ctrl_same_full(t1, i);
        }
        assert forall|i: int, j: int|
            0 <= i < j < t1.spec_buckets() && #[trigger] t1.is_bucket_full(i)
                && #[trigger] t1.is_bucket_full(j) implies t1.spec_slot(i)->Some_0.0
            != t1.spec_slot(j)->Some_0.0 by {
            t0.lemma_ctrl_same_full(t1, i);
            t0.lemma_ctrl_same_full(t1, j);
        }
    }
}


impl<K: Key, V: Value> HashIndex<K, V> {
    /// After the store takes `k -> v`, every clean resident pair other
    /// than `k`'s own bucket stays durable: distinct keys encode to
    /// distinct byte strings.
    proof fn lemma_store_put_coherent(post: Self, store0: RawStore, store1: RawStore, k: K, v: V)
        requires
            post.wf(),
            store1@ == store0@.insert(k.enc(), v.enc()),
            forall|i: int|
                0 <= i < post.spec_table().spec_buckets() && #[trigger] post.spec_table(
                ).is_bucket_full(i) && spec_is_safe(post.spec_table().spec_meta(i)) && post.spec_table(
                ).spec_slot(i)->Some_0.0 != k ==> store0@.contains_key(post.spec_table().spec_slot(
                    i,
                )->Some_0.0.enc()) && store0@[post.spec_table().spec_slot(i)->Some_0.0.enc()]
                    == post.spec_table().spec_slot(i)->Some_0.1.enc(),
            forall|i: int|
                0 <= i < post.spec_table().spec_buckets() && #[trigger] post.spec_table(
                ).is_bucket_full(i) && spec_is_safe(post.spec_table().spec_meta(i)) && post.spec_table(
                ).spec_slot(i)->Some_0.0 == k ==> post.spec_table().spec_slot(i)->Some_0.1 == v,
        ensures
            post.coherent(store1),
    {
        let t = post.spec_table();
        assert forall|i: int|
            0 <= i < t.spec_buckets() && #[trigger] t.is_bucket_full(i) && spec_is_safe(
                t.spec_meta(i),
            ) implies store1@.contains_key(t.spec_slot(i)->Some_0.0.enc()) && store1@[t.spec_slot(
            i,
        )->Some_0.0.enc()] == t.spec_slot(i)->Some_0.1.enc() by {
            let ki = t.spec_slot(i)->Some_0.0;
            if ki == k {
            } else {
                K::lemma_enc_injective(&ki, &k);
            }
        }
    }

    /// Inserts or replaces in memory, spilling one dirty bucket to the
    /// store when the dirty ceiling is reached, and forwarding the write
    /// to the store in copy-on-write mode. With `spill_after`, a replace
    /// in place is followed by the ceiling check as well — the
    /// read-modify-write path wants it, a plain put does not.
    #[verifier::rlimit(100)]
    fn insert_impl(&mut self, key: K, value: V, store: &mut RawStore, spill_after: bool) -> (replaced:
        bool)
        requires
            old(self).wf(),
            old(self).coherent(*old(store)),
            old(store).wf(),
            key.enc_ok(),
            value.enc_ok(),
        ensures
            final(self).wf(),
            final(store).wf(),
            final(self).coherent(*final(store)),
            final(self).spec_mode() == old(self).spec_mode(),
            final(store).snapshots() == old(store).snapshots(),
            final(self).maps_to(*final(store), key, value),
            !(replaced && spill_after) ==> final(self).mem_has(key) && final(self).mem_val(key)
                == value && final(self).mem_meta(key) == (if old(self).mem_has(key) {
                MODIFIED_TOUCHED
            } else {
                MODIFIED
            }),
            replaced == old(self).mem_has(key),
            replaced && !spill_after ==> final(self).spec_table().spec_items() == old(
                self,
            ).spec_table().spec_items(),
            replaced && spill_after ==> ({
                let bump = if spec_is_safe(old(self).mem_meta(key)) {
                    1int
                } else {
                    0int
                };
                final(self).spec_table().spec_mod_counter() == (if old(self).spec_table(
                ).spec_mod_counter() + bump >= old(self).spec_table().spec_mod_limit() && old(
                    self,
                ).spec_table().spec_mod_counter() + bump >= 1 {
                    old(self).spec_table().spec_mod_counter() + bump - 1
                } else {
                    old(self).spec_table().spec_mod_counter() + bump
                })
            }),
            old(self).spec_mode() == WriteMode::Cow ==> final(store)@.contains_key(key.enc())
                && final(store)@[key.enc()] == value.enc(),
            forall|k2: K|
                #[trigger] final(self).mem_has(k2) ==> old(self).mem_has(k2) || k2 == key,
            forall|k2: K, v2: V|
                k2 != key && old(self).maps_to(*old(store), k2, v2)
                    ==> #[trigger] final(self).maps_to(*final(store), k2, v2),
            forall|ks: Seq<u8>|
                #[trigger] final(store)@.contains_key(ks) ==> old(store)@.contains_key(ks) || (
                exists|k2: K| (#[trigger] old(self).mem_has(k2) || k2 == key) && ks
                    == k2.enc()),
            forall|ks: Seq<u8>|
                #[trigger] old(store)@.contains_key(ks) && (forall|k2: K|
                    (#[trigger] old(self).mem_has(k2) || k2 == key) ==> k2.enc() != ks)
                    ==> final(store)@[ks] == old(store)@[ks] && final(store)@.contains_key(ks),
            !old(self).mem_has(key) && old(self).spec_table().spec_mod_counter() >= old(
                self,
            ).spec_table().spec_mod_limit() && old(self).spec_table().spec_mod_counter() >= 1
                ==> final(self).spec_table().spec_mod_counter() <= old(self).spec_table(
            ).spec_mod_counter() && (exists|k2: K|
                #[trigger] old(self).mem_has(k2) && spec_is_modified(old(self).mem_meta(k2))
                    && final(store)@.contains_key(k2.enc())
                    && final(store)@[k2.enc()] == old(self).mem_val(k2).enc()) && (old(
                self,
            ).spec_table().spec_growth_left() > 0
                ==> final(self).spec_table().spec_mod_counter() == old(self).spec_table(
            ).spec_mod_counter()),
    {
        let ghost orig = *self;
        let ghost store_in = *store;
        let hash = key.key_hash();
        proof {
            crate::group::lemma_byte_values();
        }
        match self.table.find_mut(hash, &key) {
            Some(b) => {
                let ghost t_found = self.spec_table();
                let cow_copy = if self.mode.is_cow() {
                    Some(value.val_clone())
                } else {
                    None
                };
                proof {
                    orig.spec_table().lemma_ctrl_same_full(self.spec_table(), b.index as int);
                }
                let _prev = self.table.replace_value(b.index, value);
                proof {
                    let bi = b.index as int;
                    let bk = orig.spec_table().spec_buckets();
                    assert forall|j: int|
                        0 <= j < bk && j != bi
                            implies #[trigger] self.spec_table().spec_slot(j)
                        == orig.spec_table().spec_slot(j) && self.spec_table().spec_meta(j)
                        == orig.spec_table().spec_meta(j) && self.spec_table().spec_hash(j)
                        == orig.spec_table().spec_hash(j) by {
                        assert(self.spec_table().spec_slot(j) == t_found.spec_slot(j));
                        assert(t_found.spec_slot(j) == orig.spec_table().spec_slot(j));
                        self.spec_table().lemma_meta_stream_eq(t_found, j);
                        assert(self.spec_table().spec_hash(j) == t_found.spec_hash(j));
                    }
                    assert(self.spec_table().spec_slot(bi) == Some(
                        (orig.spec_table().spec_slot(bi)->Some_0.0, value),
                    )) by {
                        assert(t_found.spec_slot(bi) == orig.spec_table().spec_slot(bi));
                    };
                    assert(self.spec_table().spec_meta(bi) == MODIFIED_TOUCHED) by {
                        self.spec_table().lemma_meta_stream_eq(t_found, bi);
                    };
                    assert(!spec_is_safe(self.spec_table().spec_meta(bi)));
                    assert(self.spec_table().ctrl_stream() == orig.spec_table().ctrl_stream());
                    Self::lemma_replace_ok(orig, *self, bi, key, value);
                }
                proof {
                    orig.spec_table().lemma_ctrl_same_full(self.spec_table(), b.index as int);
                    assert(self.spec_table().is_bucket_full(b.index as int));
                    assert(self.coherent(store_in));
                }
                match cow_copy {
                    Some(vc) => {
                        let res = store.put(&key, &vc);
                        proof {
                            assert(res is Ok);
                            assert forall|i: int|
                                0 <= i < self.spec_table().spec_buckets()
                                    && #[trigger] self.spec_table().is_bucket_full(i)
                                    && spec_is_safe(self.spec_table().spec_meta(i))
                                    && self.spec_table().spec_slot(i)->Some_0.0 == key
                                    implies self.spec_table().spec_slot(i)->Some_0.1 == vc by {
                                assert(i == b.index) by {
                                    if i != b.index {
                                        assert(self.spec_table().spec_slot(i)->Some_0.0
                                            != self.spec_table().spec_slot(
                                            b.index as int,
                                        )->Some_0.0);
                                    }
                                };
                            }
                            Self::lemma_store_put_coherent(*self, store_in, *store, key, vc);
                        }
                    },
                    None => {},
                }
                let ghost st_r = *self;
                let ghost store_r = *store;
                proof {
                    assert(st_r.mem_has(key) && st_r.mem_val(key) == value && st_r.mem_meta(key)
                        == MODIFIED_TOUCHED) by {
                        Self::lemma_mem_at(st_r, b.index as int, key);
                    };
                    assert(orig.mem_has(key)) by {
                        assert(orig.spec_table().is_bucket_full(b.index as int));
                    };
                    assert(orig.mem_meta(key) == orig.spec_table().spec_meta(
                        b.index as int,
                    )) by {
                        Self::lemma_mem_at(orig, b.index as int, key);
                    };
                    assert(st_r.spec_table().spec_mod_counter() == orig.spec_table(
                    ).spec_mod_counter() + (if spec_is_safe(orig.mem_meta(key)) {
                        1int
                    } else {
                        0int
                    }));
                }
                let ghost mut rspill: (K, V, int) = (key, value, 0int);
                proof {
                    assert(st_r.coherent(store_r));
                }
                let did_rspill = spill_after && self.table.above_mod_threshold()
                    && self.table.mod_counter() > 0;
                if did_rspill {
                    let ((ek, ev), vg) = self.table.evict_mod_bucket(key.key_hash());
                    proof {
                        Self::lemma_evict_ok(st_r, *self, ek, ev, vg@);
                        rspill = (ek, ev, vg@);
                        Self::lemma_mem_at(st_r, vg@, ek);
                    }
                    let res = store.put(&ek, &ev);
                    proof {
                        assert(res is Ok);
                        Self::lemma_store_put_coherent(*self, store_r, *store, ek, ev);
                    }
                }
                proof {
                    let bi = b.index as int;
                    let bk = orig.spec_table().spec_buckets();
                    let ghost fin = *self;
                    assert(fin.spec_table().spec_buckets() == bk);
                    if !did_rspill {
                        assert(fin == st_r && store_r@ == store@);
                    }
                    // the copy-on-write forwarding survives the optional
                    // spill: a spill of the argument's own bucket writes
                    // the same pair again, any other spill writes other
                    // key bytes
                    if orig.spec_mode() == WriteMode::Cow {
                        assert(store_r@.contains_key(key.enc()) && store_r@[key.enc()]
                            == value.enc());
                        if did_rspill {
                            if rspill.0 == key {
                                assert(rspill.2 == bi) by {
                                    if rspill.2 != bi {
                                        assert(st_r.spec_table().spec_slot(
                                            rspill.2,
                                        )->Some_0.0 != st_r.spec_table().spec_slot(
                                            bi,
                                        )->Some_0.0);
                                    }
                                };
                                assert(rspill.1 == value);
                            } else {
                                assert(rspill.0.enc() != key.enc()) by {
                                    if rspill.0.enc() == key.enc() {
                                        K::lemma_enc_injective(&rspill.0, &key);
                                    }
                                };
                            }
                        }
                        assert(store@.contains_key(key.enc()) && store@[key.enc()]
                            == value.enc());
                    }
                    // the argument's pair is held: in place, or spilled to
                    // the store when the ceiling check evicted its bucket
                    assert(fin.maps_to(*store, key, value)) by {
                        if did_rspill {
                            if fin.mem_has(key) {
                                let i9 = choose|i9: int|
                                    0 <= i9 < bk && #[trigger] fin.spec_table().is_bucket_full(
                                        i9,
                                    ) && fin.spec_table().spec_slot(i9)->Some_0.0 == key;
                                fin.spec_table().lemma_full_iff_some_weak(i9);
                                assert(st_r.spec_table().spec_slot(i9) == fin.spec_table(
                                ).spec_slot(i9)) by {
                                    if i9 == rspill.2 {
                                        assert(fin.spec_table().spec_slot(i9) is Some);
                                        st_r.spec_table().lemma_counters_nonneg();
                                        assert(st_r.spec_table().spec_growth_left() > 0) by {
                                            if st_r.spec_table().spec_growth_left() == 0 {
                                                assert(fin.spec_table().spec_slot(
                                                    rspill.2,
                                                ) is None);
                                            }
                                        };
                                    }
                                };
                                st_r.spec_table().lemma_full_iff_some_weak(i9);
                                Self::lemma_mem_at(st_r, i9, key);
                                Self::lemma_mem_at(fin, i9, key);
                            } else {
                                // the evicted bucket was the argument's own
                                assert(rspill.0 == key && rspill.1 == value) by {
                                    if bi != rspill.2 {
                                        assert(st_r.spec_table().spec_slot(bi)
                                            == fin.spec_table().spec_slot(bi));
                                        st_r.spec_table().lemma_full_iff_some_weak(bi);
                                        fin.spec_table().lemma_full_iff_some_weak(bi);
                                        assert(fin.mem_has(key));
                                    } else {
                                        Self::lemma_mem_at(st_r, bi, key);
                                    }
                                };
                                assert(store@.contains_key(key.enc()) && store@[key.enc()]
                                    == value.enc());
                            }
                        }
                    };
                    // every other pair is untouched in memory or moved to
                    // the store by the eviction
                    assert forall|k2: K|
                        #[trigger] fin.mem_has(k2) implies orig.mem_has(k2) || k2 == key by {
                        if k2 != key {
                            let i2 = choose|i2: int|
                                0 <= i2 < bk && #[trigger] fin.spec_table().is_bucket_full(i2)
                                    && fin.spec_table().spec_slot(i2)->Some_0.0 == k2;
                            fin.spec_table().lemma_full_iff_some_weak(i2);
                            assert(i2 != bi) by {
                                if i2 == bi {
                                    assert(fin.spec_table().spec_slot(bi) is Some);
                                    if did_rspill && bi == rspill.2 {
                                        st_r.spec_table().lemma_counters_nonneg();
                                        assert(st_r.spec_table().spec_growth_left() > 0) by {
                                            if st_r.spec_table().spec_growth_left() == 0 {
                                                assert(fin.spec_table().spec_slot(
                                                    rspill.2,
                                                ) is None);
                                            }
                                        };
                                    }
                                    assert(fin.spec_table().spec_slot(bi) == st_r.spec_table(
                                    ).spec_slot(bi));
                                }
                            };
                            assert(st_r.spec_table().spec_slot(i2) == fin.spec_table(
                            ).spec_slot(i2)) by {
                                if did_rspill && i2 == rspill.2 {
                                    assert(fin.spec_table().spec_slot(i2) is Some);
                                    st_r.spec_table().lemma_counters_nonneg();
                                    assert(st_r.spec_table().spec_growth_left() > 0) by {
                                        if st_r.spec_table().spec_growth_left() == 0 {
                                            assert(fin.spec_table().spec_slot(
                                                rspill.2,
                                            ) is None);
                                        }
                                    };
                                }
                            };
                            st_r.spec_table().lemma_full_iff_some_weak(i2);
                            assert(orig.spec_table().spec_slot(i2) == st_r.spec_table(
                            ).spec_slot(i2));
                            orig.spec_table().lemma_full_iff_some_weak(i2);
                        }
                    }
                    assert forall|k2: K, v2: V|
                        k2 != key && orig.maps_to(store_in, k2, v2) implies #[trigger] fin.maps_to(
                        *store,
                        k2,
                        v2,
                    ) by {
                        if orig.mem_has(k2) {
                            let i2 = choose|i2: int|
                                0 <= i2 < bk && #[trigger] orig.spec_table().is_bucket_full(i2)
                                    && orig.spec_table().spec_slot(i2)->Some_0.0 == k2;
                            assert(i2 != bi) by {
                                if i2 == bi {
                                    assert(orig.spec_table().spec_slot(bi)->Some_0.0 == key);
                                }
                            };
                            orig.spec_table().lemma_ctrl_same_full(st_r.spec_table(), i2);
                            Self::lemma_mem_at(st_r, i2, k2);
                            Self::lemma_mem_at(orig, i2, k2);
                            if did_rspill && i2 == rspill.2 && !(fin.spec_table().spec_slot(i2)
                                == st_r.spec_table().spec_slot(i2)) {
                                // this pair is the spilled victim
                                assert(rspill.0 == k2 && rspill.1 == v2);
                                assert(store@.contains_key(k2.enc()) && store@[k2.enc()]
                                    == v2.enc());
                                assert(!fin.mem_has(k2)) by {
                                    if fin.mem_has(k2) {
                                        let i4 = choose|i4: int|
                                            0 <= i4 < bk && #[trigger] fin.spec_table(
                                            ).is_bucket_full(i4) && fin.spec_table().spec_slot(
                                                i4,
                                            )->Some_0.0 == k2;
                                        fin.spec_table().lemma_full_iff_some_weak(i4);
                                        assert(i4 != i2) by {
                                            st_r.spec_table().lemma_counters_nonneg();
                                            assert(fin.spec_table().spec_slot(i2) is None) by {
                                                if st_r.spec_table().spec_growth_left() > 0 {
                                                    assert(fin.spec_table().spec_slot(i2)
                                                        == st_r.spec_table().spec_slot(i2));
                                                }
                                            };
                                        };
                                        assert(st_r.spec_table().spec_slot(i4)
                                            == fin.spec_table().spec_slot(i4));
                                        st_r.spec_table().lemma_full_iff_some_weak(i4);
                                        assert(st_r.spec_table().spec_slot(i4)->Some_0.0
                                            != st_r.spec_table().spec_slot(i2)->Some_0.0);
                                    }
                                };
                            } else {
                                assert(fin.spec_table().spec_slot(i2) == st_r.spec_table(
                                ).spec_slot(i2));
                                st_r.spec_table().lemma_full_iff_some_weak(i2);
                                fin.spec_table().lemma_full_iff_some_weak(i2);
                                Self::lemma_mem_at(fin, i2, k2);
                            }
                        } else {
                            assert(!fin.mem_has(k2));
                            K::lemma_enc_injective(&k2, &key);
                            if did_rspill {
                                assert(rspill.0.enc() != k2.enc()) by {
                                    if rspill.0.enc() == k2.enc() {
                                        K::lemma_enc_injective(&rspill.0, &k2);
                                        assert(st_r.mem_has(rspill.0));
                                        assert(orig.mem_has(rspill.0)) by {
                                            Self::lemma_resident_other(
                                                orig, st_r, bi, key, rspill.0,
                                            );
                                        };
                                    }
                                };
                            }
                            assert(store@[k2.enc()] == store_in@[k2.enc()]
                                && store@.contains_key(k2.enc()));
                        }
                    }
                    assert forall|ks: Seq<u8>|
                        #[trigger] store@.contains_key(ks) implies store_in@.contains_key(ks)
                        || (exists|k2: K| (#[trigger] orig.mem_has(k2) || k2 == key) && ks
                        == k2.enc()) by {
                        if !store_in@.contains_key(ks) {
                            if did_rspill && ks == rspill.0.enc() {
                                assert(st_r.mem_has(rspill.0));
                                if rspill.0 != key {
                                    assert(orig.mem_has(rspill.0)) by {
                                        Self::lemma_resident_other(
                                            orig, st_r, bi, key, rspill.0,
                                        );
                                    };
                                }
                            } else {
                                assert(ks == key.enc());
                            }
                        }
                    }
                    assert forall|ks: Seq<u8>|
                        #[trigger] store_in@.contains_key(ks) && (forall|k2: K|
                            (#[trigger] orig.mem_has(k2) || k2 == key) ==> k2.enc() != ks)
                            implies store@[ks] == store_in@[ks] && store@.contains_key(ks) by {
                        assert(key.enc() != ks);
                        if did_rspill {
                            assert(rspill.0.enc() != ks) by {
                                if rspill.0 != key {
                                    assert(st_r.mem_has(rspill.0));
                                    assert(orig.mem_has(rspill.0)) by {
                                        Self::lemma_resident_other(
                                            orig, st_r, bi, key, rspill.0,
                                        );
                                    };
                                }
                            };
                        }
                    }
                }
                true
            },
            None => {
                proof {
                    assert(!orig.mem_has(key)) by {
                        if orig.mem_has(key) {
                            let i0 = choose|i0: int|
                                0 <= i0 < orig.spec_table().spec_buckets()
                                    && #[trigger] orig.spec_table().is_bucket_full(i0)
                                    && orig.spec_table().spec_slot(i0)->Some_0.0 == key;
                            assert(orig.spec_table().spec_hash(i0) == key.hash_spec());
                            assert(orig.spec_table().has_key(hash, key));
                        }
                    };
                }
                let did_evict = self.table.above_mod_threshold() && self.table.mod_counter()
                    > 0;
                let ghost mut spilled: (K, V, int) = (key, value, 0int);
                if did_evict {
                    let ((ek, ev), vg) = self.table.evict_mod_bucket(hash);
                    proof {
                        Self::lemma_evict_ok(orig, *self, ek, ev, vg@);
                        spilled = (ek, ev, vg@);
                        Self::lemma_mem_at(orig, vg@, ek);
                    }
                    let res = store.put(&ek, &ev);
                    proof {
                        assert(res is Ok);
                        Self::lemma_store_put_coherent(*self, store_in, *store, ek, ev);
                    }
                }
                let ghost st_e = *self;
                let ghost store_e = *store;
                let do_flush = self.table.growth_left() == 0 && self.table.mod_counter()
                    >= self.table.len() && self.table.len() > 0;
                if do_flush {
                    // every resident bucket is dirty: flush them all so a
                    // clean victim exists for the insertion below
                    let _ = self.flush_modified(store);
                }
                let ghost mid = *self;
                let ghost store_mid = *store;
                proof {
                    mid.spec_table().lemma_counters_nonneg();
                    orig.spec_table().lemma_counters_nonneg();
                    st_e.spec_table().lemma_counters_nonneg();
                    assert(mid.spec_table().can_insert());
                    assert(!st_e.mem_has(key)) by {
                        if st_e.mem_has(key) {
                            Self::lemma_mem_shrinks(orig, st_e, key);
                        }
                    };
                    assert(!mid.mem_has(key)) by {
                        if mid.mem_has(key) {
                            if do_flush {
                                Self::lemma_same_mem_rev(st_e, mid, key);
                            }
                        }
                    };
                }
                let kc = key.key_clone();
                let cow_copy2 = if self.mode.is_cow() {
                    Some((key.key_clone(), value.val_clone()))
                } else {
                    None
                };
                let b = self.table.insert(hash, kc, value);
                proof {
                    Self::lemma_insert_ok(mid, *self, *store, b.index as int, key, value, hash);
                }
                if let Some((kc2, vc2)) = cow_copy2 {
                    let ghost st_i = *self;
                    let ghost store_i = *store;
                    let res = store.put(&kc2, &vc2);
                    proof {
                        assert(res is Ok);
                        assert forall|i: int|
                            0 <= i < self.spec_table().spec_buckets()
                                && #[trigger] self.spec_table().is_bucket_full(i)
                                && spec_is_safe(self.spec_table().spec_meta(i))
                                && self.spec_table().spec_slot(i)->Some_0.0 == key
                                implies self.spec_table().spec_slot(i)->Some_0.1 == vc2 by {
                            assert(i == b.index) by {
                                if i != b.index {
                                    assert(self.spec_table().spec_slot(i)->Some_0.0
                                        != self.spec_table().spec_slot(
                                        b.index as int,
                                    )->Some_0.0);
                                }
                            };
                            assert(!spec_is_safe(MODIFIED));
                        }
                        Self::lemma_store_put_coherent(*self, store_i, *store, key, vc2);
                    }
                }
                proof {
                    let bk = orig.spec_table().spec_buckets();
                    let ii = b.index as int;
                    let ghost fin = *self;
                    assert(st_e.spec_table().spec_buckets() == bk);
                    assert(mid.spec_table().spec_buckets() == bk);
                    assert(fin.spec_table().spec_buckets() == bk);
                    // the new bucket is the argument's, dirty
                    Self::lemma_mem_at(fin, ii, key);
                    // stage frames: each stage only kept, dropped or
                    // spilled buckets, so membership narrows toward orig
                    Self::lemma_mem_frame(orig, st_e);
                    assert forall|j: int|
                        0 <= j < bk && j != ii implies (#[trigger] fin.spec_table().spec_slot(j)
                        == mid.spec_table().spec_slot(j) && fin.spec_table().spec_meta(j)
                        == mid.spec_table().spec_meta(j) && fin.spec_table().spec_hash(j)
                        == mid.spec_table().spec_hash(j)) || (fin.spec_table().spec_slot(
                        j,
                    ) is None && mid.spec_table().is_bucket_full(j) && spec_is_safe(
                        mid.spec_table().spec_meta(j),
                    ) && fin.spec_table().spec_meta(j) == SAFE) by {
                        if mid.spec_table().spec_growth_left() > 0 {
                            assert(fin.spec_table().spec_slot(j) == mid.spec_table().spec_slot(
                                j,
                            ));
                        }
                    }
                    assert forall|k2: K|
                        #[trigger] fin.mem_has(k2) implies orig.mem_has(k2) || k2 == key by {
                        if k2 != key {
                            let i2 = choose|i2: int|
                                0 <= i2 < bk && #[trigger] fin.spec_table().is_bucket_full(i2)
                                    && fin.spec_table().spec_slot(i2)->Some_0.0 == k2;
                            assert(i2 != ii);
                            fin.spec_table().lemma_full_iff_some_weak(i2);
                            assert(fin.spec_table().spec_slot(i2) is Some);
                            assert(mid.spec_table().spec_slot(i2) == fin.spec_table(
                            ).spec_slot(i2));
                            assert(mid.spec_table().is_bucket_full(i2)) by {
                                mid.spec_table().lemma_full_iff_some_weak(i2);
                            };
                            assert(mid.mem_has(k2));
                            if do_flush {
                                Self::lemma_same_mem_rev(st_e, mid, k2);
                            }
                            assert(st_e.mem_has(k2));
                        }
                    }
                    // value-preserving chain for kept residents
                    assert forall|k2: K|
                        #[trigger] fin.mem_has(k2) && k2 != key implies orig.mem_has(k2)
                        && fin.mem_val(k2) == orig.mem_val(k2) by {
                        let i2 = choose|i2: int|
                            0 <= i2 < bk && #[trigger] fin.spec_table().is_bucket_full(i2)
                                && fin.spec_table().spec_slot(i2)->Some_0.0 == k2;
                        assert(i2 != ii);
                        fin.spec_table().lemma_full_iff_some_weak(i2);
                        assert(fin.spec_table().spec_slot(i2) is Some);
                        assert(mid.spec_table().spec_slot(i2) == fin.spec_table().spec_slot(
                            i2,
                        ));
                        assert(mid.spec_table().is_bucket_full(i2)) by {
                            mid.spec_table().lemma_full_iff_some_weak(i2);
                        };
                        Self::lemma_mem_at(fin, i2, k2);
                        Self::lemma_mem_at(mid, i2, k2);
                        if do_flush {
                            Self::lemma_same_mem_rev(st_e, mid, k2);
                            Self::lemma_same_mem(st_e, mid, k2);
                        }
                        assert(st_e.mem_has(k2) && st_e.mem_val(k2) == mid.mem_val(k2));
                    }
                    // store stage bookkeeping
                    assert(store_e@ == (if did_evict {
                        store_in@.insert(spilled.0.enc(), spilled.1.enc())
                    } else {
                        store_in@
                    }));
                    assert(store@ == (if orig.spec_mode() == WriteMode::Cow {
                        store_mid@.insert(key.enc(), value.enc())
                    } else {
                        store_mid@
                    }));
                    if did_evict {
                        assert(orig.mem_has(spilled.0) && orig.mem_val(spilled.0) == spilled.1
                            && spec_is_modified(orig.mem_meta(spilled.0)));
                        assert(spilled.0 != key);
                    }
                    // gains: every new byte key belongs to a resident or
                    // to the argument
                    assert forall|ks: Seq<u8>|
                        #[trigger] store@.contains_key(ks) implies store_in@.contains_key(ks)
                        || (exists|k2: K| (#[trigger] orig.mem_has(k2) || k2 == key) && ks
                        == k2.enc()) by {
                        if !store_in@.contains_key(ks) {
                            if orig.spec_mode() == WriteMode::Cow && ks == key.enc() {
                            } else {
                                assert(store_mid@.contains_key(ks));
                                if !store_e@.contains_key(ks) {
                                    assert(do_flush);
                                    let k2 = choose|k2: K|
                                        #[trigger] st_e.mem_has(k2) && ks == k2.enc();
                                    assert(orig.mem_has(k2));
                                } else {
                                    assert(did_evict && ks == spilled.0.enc());
                                    assert(orig.mem_has(spilled.0));
                                }
                            }
                        }
                    }
                    // preservation off the touched byte keys
                    assert forall|ks: Seq<u8>|
                        #[trigger] store_in@.contains_key(ks) && (forall|k2: K|
                            (#[trigger] orig.mem_has(k2) || k2 == key) ==> k2.enc() != ks)
                            implies store@[ks] == store_in@[ks] && store@.contains_key(ks) by {
                        if did_evict {
                            assert(spilled.0.enc() != ks);
                        }
                        assert(store_e@[ks] == store_in@[ks] && store_e@.contains_key(ks));
                        assert(store_mid@[ks] == store_e@[ks] && store_mid@.contains_key(
                            ks,
                        )) by {
                            if do_flush {
                                assert forall|k2: K|
                                    #[trigger] st_e.mem_has(k2) implies k2.enc() != ks by {
                                    assert(orig.mem_has(k2));
                                }
                            }
                        };
                        assert(key.enc() != ks);
                    }
                    // each prior pair is still held, in memory or durably
                    assert forall|k2: K, v2: V|
                        k2 != key && orig.maps_to(store_in, k2, v2) implies #[trigger] fin.maps_to(
                        *store,
                        k2,
                        v2,
                    ) by {
                        if fin.mem_has(k2) {
                            assert(orig.mem_has(k2));
                            assert(fin.mem_val(k2) == orig.mem_val(k2));
                        } else if orig.mem_has(k2) {
                            // the pair left memory: either the dirty
                            // eviction spilled it, or the insertion
                            // dropped it as a clean, already-durable victim
                            if !st_e.mem_has(k2) {
                                assert(did_evict && k2 == spilled.0 && v2 == spilled.1) by {
                                    let i2 = choose|i2: int|
                                        0 <= i2 < bk && #[trigger] orig.spec_table(
                                        ).is_bucket_full(i2) && orig.spec_table().spec_slot(
                                            i2,
                                        )->Some_0.0 == k2;
                                    Self::lemma_mem_at(orig, i2, k2);
                                    assert(i2 == spilled.2 && did_evict) by {
                                        if !did_evict || i2 != spilled.2 {
                                            assert(st_e.spec_table().spec_slot(i2)
                                                == orig.spec_table().spec_slot(i2));
                                            st_e.spec_table().lemma_full_iff_some_weak(i2);
                                            orig.spec_table().lemma_full_iff_some_weak(i2);
                                            assert(st_e.spec_table().is_bucket_full(i2));
                                            assert(st_e.mem_has(k2));
                                        }
                                    };
                                };
                                assert(store_e@[k2.enc()] == v2.enc() && store_e@.contains_key(
                                    k2.enc(),
                                ));
                                assert(store_mid@[k2.enc()] == store_e@[k2.enc()]
                                    && store_mid@.contains_key(k2.enc())) by {
                                    if do_flush {
                                        assert forall|k3: K|
                                            #[trigger] st_e.mem_has(k3) implies k3.enc()
                                            != k2.enc() by {
                                            if k3.enc() == k2.enc() {
                                                K::lemma_enc_injective(&k3, &k2);
                                            }
                                        }
                                    }
                                };
                                assert(key.enc() != k2.enc()) by {
                                    if key.enc() == k2.enc() {
                                        K::lemma_enc_injective(&key, &k2);
                                    }
                                };
                            } else {
                                assert(mid.mem_has(k2) && mid.mem_val(k2) == v2) by {
                                    assert(st_e.mem_val(k2) == v2) by {
                                        let i3 = choose|i3: int|
                                            0 <= i3 < bk && #[trigger] st_e.spec_table(
                                            ).is_bucket_full(i3) && st_e.spec_table(
                                            ).spec_slot(i3)->Some_0.0 == k2;
                                        Self::lemma_mem_at(st_e, i3, k2);
                                        st_e.spec_table().lemma_full_iff_some_weak(i3);
                                        assert(orig.spec_table().spec_slot(i3)
                                            == st_e.spec_table().spec_slot(i3)) by {
                                            if did_evict && i3 == spilled.2 {
                                                assert(st_e.spec_table().spec_slot(i3)
                                                    is Some);
                                            }
                                        };
                                        orig.spec_table().lemma_full_iff_some_weak(i3);
                                        assert(orig.spec_table().is_bucket_full(i3));
                                        Self::lemma_mem_at(orig, i3, k2);
                                    };
                                    if do_flush {
                                        Self::lemma_same_mem(st_e, mid, k2);
                                    }
                                };
                                let j2 = choose|j2: int|
                                    0 <= j2 < bk && #[trigger] mid.spec_table().is_bucket_full(
                                        j2,
                                    ) && mid.spec_table().spec_slot(j2)->Some_0.0 == k2;
                                Self::lemma_mem_at(mid, j2, k2);
                                // the insert either reused this bucket or
                                // dropped it: both take a clean victim
                                assert(spec_is_safe(mid.spec_table().spec_meta(j2))) by {
                                    if j2 != ii {
                                        if fin.spec_table().spec_slot(j2) == mid.spec_table(
                                        ).spec_slot(j2) && fin.spec_table().spec_meta(j2)
                                            == mid.spec_table().spec_meta(j2)
                                            && fin.spec_table().spec_hash(j2)
                                            == mid.spec_table().spec_hash(j2) {
                                            mid.spec_table().lemma_full_iff_some_weak(j2);
                                            assert(fin.spec_table().spec_slot(j2) is Some);
                                            assert(fin.spec_table().is_bucket_full(j2)) by {
                                                fin.spec_table().lemma_full_iff_some_weak(j2);
                                            };
                                            assert(fin.mem_has(k2));
                                        }
                                    }
                                };
                                assert(store_mid@.contains_key(k2.enc()) && store_mid@[
                                k2.enc()] == v2.enc());
                                assert(key.enc() != k2.enc()) by {
                                    if key.enc() == k2.enc() {
                                        K::lemma_enc_injective(&key, &k2);
                                    }
                                };
                            }
                        } else {
                            // never resident: no write lands on its bytes
                            assert(store_in@.contains_key(k2.enc()) && store_in@[k2.enc()]
                                == v2.enc());
                            if did_evict {
                                assert(spilled.0.enc() != k2.enc()) by {
                                    if spilled.0.enc() == k2.enc() {
                                        K::lemma_enc_injective(&spilled.0, &k2);
                                    }
                                };
                            }
                            assert(store_e@[k2.enc()] == store_in@[k2.enc()]
                                && store_e@.contains_key(k2.enc()));
                            assert(store_mid@[k2.enc()] == store_e@[k2.enc()]
                                && store_mid@.contains_key(k2.enc())) by {
                                if do_flush {
                                    assert forall|k3: K|
                                        #[trigger] st_e.mem_has(k3) implies k3.enc()
                                        != k2.enc() by {
                                        if k3.enc() == k2.enc() {
                                            K::lemma_enc_injective(&k3, &k2);
                                        }
                                    }
                                }
                            };
                            assert(key.enc() != k2.enc()) by {
                                if key.enc() == k2.enc() {
                                    K::lemma_enc_injective(&key, &k2);
                                }
                            };
                            assert(!fin.mem_has(k2));
                        }
                    }
                    // the ceiling-crossing bookkeeping
                    if !orig.mem_has(key) && orig.spec_table().spec_mod_counter()
                        >= orig.spec_table().spec_mod_limit() && orig.spec_table(
                    ).spec_mod_counter() >= 1 {
                        assert(did_evict);
                        assert(store@.contains_key(spilled.0.enc()) && store@[spilled.0.enc()]
                            == spilled.1.enc()) by {
                            assert(store_e@.contains_key(spilled.0.enc()) && store_e@[
                            spilled.0.enc()] == spilled.1.enc());
                            assert(store_mid@[spilled.0.enc()] == store_e@[spilled.0.enc()]
                                && store_mid@.contains_key(spilled.0.enc())) by {
                                if do_flush {
                                    // a flush only runs with no budget, in
                                    // which case the victim was erased
                                    assert forall|k3: K|
                                        #[trigger] st_e.mem_has(k3) implies k3.enc()
                                        != spilled.0.enc() by {
                                        if k3.enc() == spilled.0.enc() {
                                            K::lemma_enc_injective(&k3, &spilled.0);
                                            let i3 = choose|i3: int|
                                                0 <= i3 < bk && #[trigger] st_e.spec_table(
                                                ).is_bucket_full(i3) && st_e.spec_table(
                                                ).spec_slot(i3)->Some_0.0 == k3;
                                            assert(orig.spec_table().spec_growth_left() == 0)
                                                by {
                                                if orig.spec_table().spec_growth_left() > 0 {
                                                    assert(st_e.spec_table().spec_growth_left()
                                                        == orig.spec_table(
                                                    ).spec_growth_left());
                                                }
                                            };
                                            assert(st_e.spec_table().spec_slot(
                                                spilled.2,
                                            ) is None);
                                            assert(i3 != spilled.2) by {
                                                st_e.spec_table().lemma_full_iff_some_weak(
                                                    spilled.2,
                                                );
                                            };
                                            assert(st_e.spec_table().spec_slot(i3)
                                                == orig.spec_table().spec_slot(i3));
                                            st_e.spec_table().lemma_full_iff_some_weak(i3);
                                            orig.spec_table().lemma_full_iff_some_weak(i3);
                                            assert(orig.spec_table().is_bucket_full(i3));
                                            assert(orig.spec_table().spec_slot(i3)->Some_0.0
                                                == orig.spec_table().spec_slot(
                                                spilled.2,
                                            )->Some_0.0);
                                        }
                                    }
                                }
                            };
                            assert(key.enc() != spilled.0.enc()) by {
                                if key.enc() == spilled.0.enc() {
                                    K::lemma_enc_injective(&key, &spilled.0);
                                }
                            };
                        };
                    }
                }
                false
            },
        }
    }

}


impl<K: Key, V: Value> HashIndex<K, V> {
    /// A resident bucket determines membership and the looked-up value.
    proof fn lemma_mem_at(s: Self, i: int, k: K)
        requires
            s.wf(),
            0 <= i < s.spec_table().spec_buckets(),
            s.spec_table().is_bucket_full(i),
            s.spec_table().spec_slot(i)->Some_0.0 == k,
        ensures
            s.mem_has(k),
            s.mem_val(k) == s.spec_table().spec_slot(i)->Some_0.1,
            s.mem_meta(k) == s.spec_table().spec_meta(i),
    {
        let t = s.spec_table();
        let i2 = choose|i2: int|
            0 <= i2 < t.spec_buckets() && #[trigger] t.is_bucket_full(i2) && t.spec_slot(
                i2,
            )->Some_0.0 == k;
        assert(i2 == i) by {
            if i2 != i {
                assert(t.spec_slot(i2)->Some_0.0 != t.spec_slot(i)->Some_0.0);
            }
        };
    }

    /// A key other than the replaced bucket's own was resident before the
    /// replacement as well.
    proof fn lemma_resident_other(orig: Self, st_r: Self, bi: int, key: K, k2: K)
        requires
            orig.wf(),
            st_r.spec_table().wf(),
            st_r.spec_table().spec_buckets() == orig.spec_table().spec_buckets(),
            0 <= bi < orig.spec_table().spec_buckets(),
            forall|j: int|
                0 <= j < orig.spec_table().spec_buckets() && j != bi
                    ==> #[trigger] st_r.spec_table().spec_slot(j) == orig.spec_table(
                ).spec_slot(j),
            st_r.spec_table().spec_slot(bi) is Some,
            st_r.spec_table().spec_slot(bi)->Some_0.0 == key,
            st_r.mem_has(k2),
            k2 != key,
        ensures
            orig.mem_has(k2),
    {
        let bk = orig.spec_table().spec_buckets();
        let i5 = choose|i5: int|
            0 <= i5 < bk && #[trigger] st_r.spec_table().is_bucket_full(i5)
                && st_r.spec_table().spec_slot(i5)->Some_0.0 == k2;
        st_r.spec_table().lemma_full_iff_some_weak(i5);
        assert(i5 != bi);
        assert(orig.spec_table().spec_slot(i5) == st_r.spec_table().spec_slot(i5));
        orig.spec_table().lemma_full_iff_some_weak(i5);
        assert(orig.spec_table().is_bucket_full(i5));
    }

    /// Buckets that only kept or lost their pair can shelter no new key
    /// and change no kept value.
    proof fn lemma_mem_frame(pre: Self, post: Self)
        requires
            pre.wf(),
            post.spec_table().wf(),
            post.spec_table().spec_buckets() == pre.spec_table().spec_buckets(),
            forall|j: int|
                0 <= j < pre.spec_table().spec_buckets()
                    ==> (#[trigger] post.spec_table().spec_slot(j)
                    == pre.spec_table().spec_slot(j)) || post.spec_table().spec_slot(j) is None,
        ensures
            forall|k: K|
                #[trigger] post.mem_has(k) ==> pre.mem_has(k) && post.mem_val(k) == pre.mem_val(
                    k,
                ),
    {
        let t0 = pre.spec_table();
        let t1 = post.spec_table();
        t0.lemma_full_iff_some();
        t1.lemma_full_iff_some();
        assert forall|k: K| #[trigger] post.mem_has(k) implies pre.mem_has(k) && post.mem_val(k)
            == pre.mem_val(k) by {
            let i = choose|i: int|
                0 <= i < t1.spec_buckets() && #[trigger] t1.is_bucket_full(i) && t1.spec_slot(
                    i,
                )->Some_0.0 == k;
            assert(t1.spec_slot(i) is Some);
            assert(t0.spec_slot(i) == t1.spec_slot(i));
            assert(t0.is_bucket_full(i));
            let i2 = choose|i2: int|
                0 <= i2 < t0.spec_buckets() && #[trigger] t0.is_bucket_full(i2) && t0.spec_slot(
                    i2,
                )->Some_0.0 == k;
            assert(i2 == i) by {
                if i2 != i {
                    assert(t0.spec_slot(i2)->Some_0.0 != t0.spec_slot(i)->Some_0.0);
                }
            };
            let i3 = choose|i3: int|
                0 <= i3 < t1.spec_buckets() && #[trigger] t1.is_bucket_full(i3) && t1.spec_slot(
                    i3,
                )->Some_0.0 == k;
            assert(i3 == i) by {
                if i3 != i {
                    assert(t1.spec_slot(i3) is Some);
                    assert(t0.spec_slot(i3) == t1.spec_slot(i3));
                    assert(t0.is_bucket_full(i3));
                    assert(t0.spec_slot(i3)->Some_0.0 != t0.spec_slot(i)->Some_0.0);
                }
            };
        }
    }

    /// A value replacement in one bucket keeps the index well formed and,
    /// since the bucket turns dirty, coherent with an unchanged store.
    proof fn lemma_replace_ok(pre: Self, post: Self, i: int, key: K, value: V)
        requires
            pre.wf(),
            post.spec_table().wf(),
            post.spec_mode() == pre.spec_mode(),
            0 <= i < pre.spec_table().spec_buckets(),
            post.spec_table().spec_buckets() == pre.spec_table().spec_buckets(),
            post.spec_table().ctrl_stream() == pre.spec_table().ctrl_stream(),
            pre.spec_table().is_bucket_full(i),
            post.spec_table().spec_slot(i) == Some(
                (pre.spec_table().spec_slot(i)->Some_0.0, value),
            ),
            !spec_is_safe(post.spec_table().spec_meta(i)),
            value.enc_ok(),
            forall|j: int|
                0 <= j < pre.spec_table().spec_buckets() && j != i
                    ==> #[trigger] post.spec_table().spec_slot(j) == pre.spec_table().spec_slot(
                    j,
                ) && post.spec_table().spec_meta(j) == pre.spec_table().spec_meta(j)
                    && post.spec_table().spec_hash(j) == pre.spec_table().spec_hash(j),
            post.spec_table().spec_hash(i) == pre.spec_table().spec_hash(i),
        ensures
            post.wf(),
            forall|store: RawStore| pre.coherent(store) ==> #[trigger] post.coherent(store),
    {
        let t0 = pre.spec_table();
        pre.spec_table().lemma_counters_nonneg();
        post.spec_table().lemma_counters_nonneg();
        let t1 = post.spec_table();
        let bk = t0.spec_buckets();
        assert forall|a: int|
            0 <= a < bk && #[trigger] t1.is_bucket_full(a) implies t0.is_bucket_full(a)
            && t1.spec_slot(a)->Some_0.0 == t0.spec_slot(a)->Some_0.0 && t1.spec_hash(a)
            == t0.spec_hash(a) by {
            t0.lemma_ctrl_same_full(t1, a);
        }
        assert forall|a: int, b: int|
            0 <= a < b < bk && #[trigger] t1.is_bucket_full(a) && #[trigger] t1.is_bucket_full(
                b,
            ) implies t1.spec_slot(a)->Some_0.0 != t1.spec_slot(b)->Some_0.0 by {
            t0.lemma_ctrl_same_full(t1, a);
            t0.lemma_ctrl_same_full(t1, b);
        }
        assert forall|store: RawStore| pre.coherent(store) implies #[trigger] post.coherent(
            store,
        ) by {
            assert forall|a: int|
                0 <= a < bk && #[trigger] t1.is_bucket_full(a) && spec_is_safe(t1.spec_meta(a))
                implies store@.contains_key(t1.spec_slot(a)->Some_0.0.enc()) && store@[
            t1.spec_slot(a)->Some_0.0.enc()] == t1.spec_slot(a)->Some_0.1.enc() by {
                assert(a != i);
                t0.lemma_ctrl_same_full(t1, a);
            }
        }
    }

    /// A dirty eviction keeps the index well formed; the victim's pair is
    /// exactly what the caller now writes to the store.
    proof fn lemma_evict_ok(pre: Self, post: Self, ek: K, ev: V, v: int)
        requires
            pre.wf(),
            post.spec_table().wf(),
            post.spec_mode() == pre.spec_mode(),
            0 <= v < pre.spec_table().spec_buckets(),
            pre.spec_table().is_bucket_full(v),
            spec_is_modified(pre.spec_table().spec_meta(v)),
            pre.spec_table().spec_slot(v) == Some((ek, ev)),
            post.spec_table().spec_meta(v) == SAFE,
            post.spec_table().spec_hash(v) == pre.spec_table().spec_hash(v),
            pre.spec_table().spec_growth_left() == 0 ==> post.spec_table().spec_slot(
                v,
            ) is None,
            pre.spec_table().spec_growth_left() > 0 ==> post.spec_table().spec_slot(v)
                == pre.spec_table().spec_slot(v),
            forall|j: int|
                0 <= j < pre.spec_table().spec_buckets() && j != v
                    ==> #[trigger] post.spec_table().spec_slot(j) == pre.spec_table().spec_slot(
                    j,
                ) && post.spec_table().spec_meta(j) == pre.spec_table().spec_meta(j)
                    && post.spec_table().spec_hash(j) == pre.spec_table().spec_hash(j),
            post.spec_table().spec_buckets() == pre.spec_table().spec_buckets(),
        ensures
            post.wf(),
            ek.enc_ok(),
            ev.enc_ok(),
            forall|i: int|
                0 <= i < post.spec_table().spec_buckets() && #[trigger] post.spec_table(
                ).is_bucket_full(i) && spec_is_safe(post.spec_table().spec_meta(i))
                    && post.spec_table().spec_slot(i)->Some_0.0 == ek ==> post.spec_table(
                ).spec_slot(i)->Some_0.1 == ev,
            forall|i: int, store: RawStore|
                pre.coherent(store) && 0 <= i < post.spec_table().spec_buckets()
                    && #[trigger] post.spec_table().is_bucket_full(i) && spec_is_safe(
                    post.spec_table().spec_meta(i),
                ) && post.spec_table().spec_slot(i)->Some_0.0 != ek ==> #[trigger] store@.contains_key(
                    post.spec_table().spec_slot(i)->Some_0.0.enc(),
                ) && store@[post.spec_table().spec_slot(i)->Some_0.0.enc()] == post.spec_table(
                ).spec_slot(i)->Some_0.1.enc(),
        decreases 0int,
    {
        let t0 = pre.spec_table();
        pre.spec_table().lemma_counters_nonneg();
        post.spec_table().lemma_counters_nonneg();
        let t1 = post.spec_table();
        t0.lemma_counters_nonneg();
        t1.lemma_counters_nonneg();
        let bk = t0.spec_buckets();
        t0.lemma_full_iff_some();
        t1.lemma_full_iff_some();
        assert forall|a: int|
            0 <= a < bk && #[trigger] t1.is_bucket_full(a) implies t0.is_bucket_full(a)
            && t1.spec_slot(a) == t0.spec_slot(a) && t1.spec_hash(a) == t0.spec_hash(a) by {
            assert(t1.spec_slot(a) is Some);
            if a == v {
                t0.lemma_counters_nonneg();
                assert(t0.spec_growth_left() > 0) by {
                    if t0.spec_growth_left() == 0 {
                        assert(t1.spec_slot(v) is None);
                    }
                };
                assert(t1.spec_slot(v) == t0.spec_slot(v));
            }
            assert(t0.spec_slot(a) is Some);
        }
        assert forall|a: int, b: int|
            0 <= a < b < bk && #[trigger] t1.is_bucket_full(a) && #[trigger] t1.is_bucket_full(
                b,
            ) implies t1.spec_slot(a)->Some_0.0 != t1.spec_slot(b)->Some_0.0 by {}
    }

}


impl<K: Key, V: Value> HashIndex<K, V> {
    /// A fresh insertion keeps the index well formed and coherent: the
    /// new bucket starts dirty, an evicted clean victim was durable
    /// already, and every other bucket is untouched.
    proof fn lemma_insert_ok(
        mid: Self,
        post: Self,
        store: RawStore,
        ii: int,
        key: K,
        value: V,
        hash: u64,
    )
        requires
            mid.wf(),
            post.spec_table().wf(),
            post.spec_mode() == mid.spec_mode(),
            !mid.mem_has(key),
            hash == key.hash_spec(),
            key.enc_ok(),
            value.enc_ok(),
            mid.coherent(store),
            0 <= ii < mid.spec_table().spec_buckets(),
            post.spec_table().spec_buckets() == mid.spec_table().spec_buckets(),
            post.spec_table().spec_slot(ii) == Some((key, value)),
            post.spec_table().spec_hash(ii) == hash,
            post.spec_table().spec_meta(ii) == MODIFIED,
            mid.spec_table().is_bucket_full(ii) ==> spec_is_safe(
                mid.spec_table().spec_meta(ii),
            ),
            forall|j: int|
                0 <= j < mid.spec_table().spec_buckets() && j != ii
                    ==> (#[trigger] post.spec_table().spec_slot(j) == mid.spec_table().spec_slot(
                    j,
                ) && post.spec_table().spec_meta(j) == mid.spec_table().spec_meta(j)
                    && post.spec_table().spec_hash(j) == mid.spec_table().spec_hash(j)) || (
                post.spec_table().spec_slot(j) is None && mid.spec_table().is_bucket_full(j)
                    && spec_is_safe(mid.spec_table().spec_meta(j)) && post.spec_table().spec_meta(
                    j,
                ) == SAFE),
        ensures
            post.wf(),
            post.coherent(store),
            post.mem_has(key),
            post.mem_val(key) == value,
    {
        let t0 = mid.spec_table();
        let t1 = post.spec_table();
        t0.lemma_counters_nonneg();
        t1.lemma_counters_nonneg();
        let bk = t0.spec_buckets();
        t0.lemma_full_iff_some();
        t1.lemma_full_iff_some();
        crate::group::lemma_byte_values();
        assert forall|a: int|
            0 <= a < bk && #[trigger] t1.is_bucket_full(a) && a != ii implies t0.is_bucket_full(
            a,
        ) && t1.spec_slot(a) == t0.spec_slot(a) && t1.spec_hash(a) == t0.spec_hash(a) by {
            assert(t1.spec_slot(a) is Some);
            assert(t0.spec_slot(a) is Some);
        }
        assert forall|a: int|
            0 <= a < bk && #[trigger] t1.is_bucket_full(a) && a != ii
            implies t1.spec_slot(a)->Some_0.0 != key by {
            if t1.spec_slot(a)->Some_0.0 == key {
                assert(t0.is_bucket_full(a) && t0.spec_slot(a)->Some_0.0 == key);
            }
        }
        assert(t1.is_bucket_full(ii)) by {
            assert(t1.spec_slot(ii) is Some);
        };
        assert forall|a: int, b: int|
            0 <= a < b < bk && #[trigger] t1.is_bucket_full(a) && #[trigger] t1.is_bucket_full(
                b,
            ) implies t1.spec_slot(a)->Some_0.0 != t1.spec_slot(b)->Some_0.0 by {}
        assert forall|a: int|
            0 <= a < bk && #[trigger] t1.is_bucket_full(a) implies t1.spec_hash(a)
            == t1.spec_slot(a)->Some_0.0.hash_spec() && t1.spec_slot(a)->Some_0.0.enc_ok()
            && t1.spec_slot(a)->Some_0.1.enc_ok() by {}
        assert forall|a: int|
            0 <= a < bk && #[trigger] t1.is_bucket_full(a) && spec_is_safe(t1.spec_meta(a))
            implies store@.contains_key(t1.spec_slot(a)->Some_0.0.enc()) && store@[t1.spec_slot(
            a,
        )->Some_0.0.enc()] == t1.spec_slot(a)->Some_0.1.enc() by {
            assert(a != ii) by {
                assert(!spec_is_safe(MODIFIED));
            };
            assert(t1.spec_meta(a) == t0.spec_meta(a));
        }
        Self::lemma_mem_at(post, ii, key);
    }
}


impl<K: Key, V: Value> HashIndex<K, V> {
    /// Between the probe miss and the insertion, only evictions and
    /// flushes ran: no key becomes resident, so a key absent before is
    /// absent still.
    proof fn lemma_mem_shrinks(orig: Self, mid: Self, key: K)
        requires
            orig.wf(),
            mid.spec_table().wf(),
            mid.mem_has(key),
            mid.spec_table().spec_buckets() == orig.spec_table().spec_buckets(),
            forall|j: int|
                0 <= j < orig.spec_table().spec_buckets()
                    ==> (#[trigger] mid.spec_table().spec_slot(j)
                    == orig.spec_table().spec_slot(j)) || mid.spec_table().spec_slot(j) is None,
        ensures
            orig.mem_has(key),
    {
        let t0 = orig.spec_table();
        let t1 = mid.spec_table();
        orig.spec_table().lemma_full_iff_some();
        let i = choose|i: int|
            0 <= i < t1.spec_buckets() && #[trigger] t1.is_bucket_full(i) && t1.spec_slot(
                i,
            )->Some_0.0 == key;
        assert(t1.spec_slot(i) is Some) by {
            if t1.spec_slot(i) is None {
                assert(!t1.is_bucket_full(i)) by {
                    t1.lemma_full_iff_some_weak(i);
                };
            }
        };
        assert(t0.spec_slot(i) == t1.spec_slot(i));
        assert(t0.is_bucket_full(i));
    }
}


impl<K: Key, V: Value> HashIndex<K, V> {
    /// Inserts or replaces: the key ends up resident with the given value.
    /// A key already resident is replaced in place without growing the
    /// table; a fresh key may first trigger one dirty eviction when the
    /// dirty ceiling is reached, and one safe eviction when the free pool
    /// is exhausted. An unencodable key or value is rejected up front.
    pub fn put(&mut self, key: K, value: V, store: &mut RawStore) -> (r: Result<
        (),
        BrittMarieError,
    >)
        requires
            old(self).wf(),
            old(self).coherent(*old(store)),
            old(store).wf(),
        ensures
            final(self).wf(),
            final(store).wf(),
            final(self).coherent(*final(store)),
            final(self).spec_mode() == old(self).spec_mode(),
            final(store).snapshots() == old(store).snapshots(),
            r is Ok <==> key.enc_ok() && value.enc_ok(),
            r is Err ==> *final(self) == *old(self) && *final(store) == *old(store) && r->Err_0
                is Serde,
            r is Ok ==> final(self).mem_has(key) && final(self).mem_val(key) == value,
            r is Ok && old(self).mem_has(key) ==> final(self).spec_table().spec_items() == old(
                self,
            ).spec_table().spec_items(),
            r is Ok ==> final(self).mem_meta(key) == (if old(self).mem_has(key) {
                MODIFIED_TOUCHED
            } else {
                MODIFIED
            }),
            r is Ok && old(self).spec_mode() == WriteMode::Cow ==> final(store)@.contains_key(
                key.enc(),
            ) && final(store)@[key.enc()] == value.enc(),
            forall|k2: K|
                #[trigger] final(self).mem_has(k2) ==> old(self).mem_has(k2) || k2 == key,
            forall|k2: K, v2: V|
                k2 != key && old(self).maps_to(*old(store), k2, v2)
                    ==> #[trigger] final(self).maps_to(*final(store), k2, v2),
            forall|ks: Seq<u8>|
                #[trigger] final(store)@.contains_key(ks) ==> old(store)@.contains_key(ks) || (
                exists|k2: K| (#[trigger] old(self).mem_has(k2) || k2 == key) && ks
                    == k2.enc()),
            forall|ks: Seq<u8>|
                #[trigger] old(store)@.contains_key(ks) && (forall|k2: K|
                    (#[trigger] old(self).mem_has(k2) || k2 == key) ==> k2.enc() != ks)
                    ==> final(store)@[ks] == old(store)@[ks] && final(store)@.contains_key(ks),
            r is Ok && !old(self).mem_has(key) && old(self).spec_table().spec_mod_counter()
                >= old(self).spec_table().spec_mod_limit() && old(self).spec_table(
            ).spec_mod_counter() >= 1 ==> final(self).spec_table().spec_mod_counter() <= old(
                self,
            ).spec_table().spec_mod_counter() && (exists|k2: K|
                #[trigger] old(self).mem_has(k2) && spec_is_modified(old(self).mem_meta(k2))
                    && final(store)@.contains_key(k2.enc())
                    && final(store)@[k2.enc()] == old(self).mem_val(k2).enc()) && (old(
                self,
            ).spec_table().spec_growth_left() > 0
                ==> final(self).spec_table().spec_mod_counter() == old(self).spec_table(
            ).spec_mod_counter()),
    {
        match key.into_raw() {
            Ok(_) => {},
            Err(_) => {
                return Err(BrittMarieError::Serde(String::new()));
            },
        }
        match value.into_raw() {
            Ok(_) => {},
            Err(_) => {
                return Err(BrittMarieError::Serde(String::new()));
            },
        }
        let _ = self.insert_impl(key, value, store, false);
        Ok(())
    }

    /// Looks the key up: a resident key is served from memory; a miss
    /// falls through to the store and, when the store holds the key, the
    /// pair is pulled back into memory before the reference is returned.
    pub fn get<'a>(&'a mut self, key: &K, store: &mut RawStore) -> (r: Option<&'a V>)
        requires
            old(self).wf(),
            old(self).coherent(*old(store)),
            old(store).wf(),
            key.enc_ok(),
        ensures
            final(self).wf(),
            final(store).wf(),
            final(self).coherent(*final(store)),
            final(self).spec_mode() == old(self).spec_mode(),
            final(store).snapshots() == old(store).snapshots(),
            old(self).mem_has(*key) ==> r is Some && *r->Some_0 == old(self).mem_val(*key),
            !old(self).mem_has(*key) && !old(store)@.contains_key(key.enc()) ==> r is None
                && *final(self) == *old(self) && *final(store) == *old(store),
            forall|v: V|
                !old(self).mem_has(*key) && old(store)@.contains_key(key.enc()) && old(
                    store,
                )@[key.enc()] == v.enc() && v.enc_ok() ==> r is Some && *r->Some_0 == v,
            old(self).mem_has(*key) ==> final(self).mem_meta(*key) == (if spec_is_safe(
                old(self).mem_meta(*key),
            ) {
                SAFE_TOUCHED
            } else {
                old(self).mem_meta(*key)
            }),
            forall|k2: K|
                #[trigger] final(self).mem_has(k2) ==> old(self).mem_has(k2) || k2 == *key,
            forall|k2: K, v2: V|
                k2 != *key && old(self).maps_to(*old(store), k2, v2)
                    ==> #[trigger] final(self).maps_to(*final(store), k2, v2),
            forall|ks: Seq<u8>|
                #[trigger] final(store)@.contains_key(ks) ==> old(store)@.contains_key(ks) || (
                exists|k2: K| (#[trigger] old(self).mem_has(k2) || k2 == *key) && ks
                    == k2.enc()),
            forall|ks: Seq<u8>|
                #[trigger] old(store)@.contains_key(ks) && (forall|k2: K|
                    (#[trigger] old(self).mem_has(k2) || k2 == *key) ==> k2.enc() != ks)
                    ==> final(store)@[ks] == old(store)@[ks] && final(store)@.contains_key(ks),
    {
        let ghost orig = *self;
        let hash = key.key_hash();
        let found = self.table.find(hash, key);
        match found {
            Some(b) => {
                proof {
                    Self::lemma_wf_same_but_meta(orig, *self);
                    assert(self.coherent(*store)) by {
                        Self::lemma_coherent_same_meta_up(orig, *self, *store);
                    };
                    Self::lemma_mem_at(orig, b.index as int, *key);
                    orig.spec_table().lemma_ctrl_same_full(self.spec_table(), b.index as int);
                    self.spec_table().lemma_full_iff_some_weak(b.index as int);
                    Self::lemma_mem_at(*self, b.index as int, *key);
                    assert forall|k2: K|
                        #[trigger] self.mem_has(k2) implies orig.mem_has(k2) by {
                        Self::lemma_same_mem_rev(orig, *self, k2);
                    }
                    assert forall|k2: K, v2: V|
                        k2 != *key && orig.maps_to(*store, k2, v2) implies #[trigger] self.maps_to(
                        *store,
                        k2,
                        v2,
                    ) by {
                        if orig.mem_has(k2) {
                            Self::lemma_same_mem(orig, *self, k2);
                        } else {
                            assert(!self.mem_has(k2)) by {
                                if self.mem_has(k2) {
                                    Self::lemma_same_mem_rev(orig, *self, k2);
                                }
                            };
                        }
                    }
                }
                match self.table.bucket_pair(b.index) {
                    Some(p) => Some(&p.1),
                    None => {
                        proof {
                            assert(false);
                        }
                        vstd::pervasive::unreached()
                    },
                }
            },
            None => {
                proof {
                    assert(!orig.mem_has(*key)) by {
                        if orig.mem_has(*key) {
                            let i0 = choose|i0: int|
                                0 <= i0 < orig.spec_table().spec_buckets()
                                    && #[trigger] orig.spec_table().is_bucket_full(i0)
                                    && orig.spec_table().spec_slot(i0)->Some_0.0 == *key;
                            assert(orig.spec_table().spec_hash(i0) == key.hash_spec());
                            assert(orig.spec_table().has_key(hash, *key));
                        }
                    };
                }
                let fetched = match store.get::<K, V>(key) {
                    Ok(opt) => opt,
                    Err(_) => None,
                };
                match fetched {
                    Some(v) => {
                        match v.into_raw() {
                            Ok(_) => {},
                            Err(_) => {
                                return None;
                            },
                        }
                        let _ = self.insert_impl(key.key_clone(), v, store, false);
                        let ghost mid2 = *self;
                        let ghost store_mid2 = *store;
                        let found2 = self.table.find(hash, key);
                        proof {
                            crate::group::lemma_byte_values();
                            Self::lemma_wf_same_but_meta(mid2, *self);
                            Self::lemma_same_mem(mid2, *self, *key);
                            Self::lemma_coherent_same_meta_up(mid2, *self, *store);
                            assert forall|k2: K|
                                #[trigger] self.mem_has(k2) implies orig.mem_has(k2) || k2
                                == *key by {
                                Self::lemma_same_mem_rev(mid2, *self, k2);
                            }
                            assert forall|k2: K, v2: V|
                                k2 != *key && orig.maps_to(*old(store), k2, v2)
                                    implies #[trigger] self.maps_to(*store, k2, v2) by {
                                assert(mid2.maps_to(store_mid2, k2, v2));
                                if mid2.mem_has(k2) {
                                    Self::lemma_same_mem(mid2, *self, k2);
                                } else {
                                    assert(!self.mem_has(k2)) by {
                                        if self.mem_has(k2) {
                                            Self::lemma_same_mem_rev(mid2, *self, k2);
                                        }
                                    };
                                }
                            }
                        }
                        match found2 {
                            Some(b2) => {
                                proof {
                                    mid2.spec_table().lemma_ctrl_same_full(
                                        self.spec_table(),
                                        b2.index as int,
                                    );
                                    self.spec_table().lemma_full_iff_some_weak(
                                        b2.index as int,
                                    );
                                }
                                match self.table.bucket_pair(b2.index) {
                                    Some(p) => {
                                        proof {
                                            Self::lemma_mem_at(*self, b2.index as int, *key);
                                        }
                                        Some(&p.1)
                                    },
                                    None => {
                                        proof {
                                            assert(false);
                                        }
                                        vstd::pervasive::unreached()
                                    },
                                }
                            },
                            None => {
                                proof {
                                    let i1 = choose|i1: int|
                                        0 <= i1 < self.spec_table().spec_buckets()
                                            && #[trigger] self.spec_table().is_bucket_full(i1)
                                            && self.spec_table().spec_slot(i1)->Some_0.0
                                            == *key;
                                    assert(self.spec_table().spec_hash(i1) == key.hash_spec());
                                    assert(self.spec_table().has_key(hash, *key));
                                    assert(false);
                                }
                                vstd::pervasive::unreached()
                            },
                        }
                    },
                    None => None,
                }
            },
        }
    }

    /// Coherence survives promotions of clean meta bytes to their touched
    /// forms: the clean set only shrinks.
    proof fn lemma_coherent_same_meta_up(pre: Self, post: Self, store: RawStore)
        requires
            pre.wf(),
            pre.coherent(store),
            post.spec_table().same_but_meta(&pre.spec_table()),
            forall|j: int|
                0 <= j < pre.spec_table().spec_buckets() && spec_is_safe(
                    #[trigger] post.spec_table().spec_meta(j),
                ) ==> spec_is_safe(pre.spec_table().spec_meta(j)) && post.spec_table().spec_meta(
                    j,
                ) == pre.spec_table().spec_meta(j) || spec_is_safe(pre.spec_table().spec_meta(j)),
        ensures
            post.coherent(store),
    {
        let t0 = pre.spec_table();
        let t1 = post.spec_table();
        assert forall|i: int|
            0 <= i < t1.spec_buckets() && #[trigger] t1.is_bucket_full(i) && spec_is_safe(
                t1.spec_meta(i),
            ) implies store@.contains_key(t1.spec_slot(i)->Some_0.0.enc()) && store@[t1.spec_slot(
            i,
        )->Some_0.0.enc()] == t1.spec_slot(i)->Some_0.1.enc() by {
            t0.lemma_ctrl_same_full(t1, i);
            assert(t1.spec_slot(i) == t0.spec_slot(i));
            assert(spec_is_safe(t0.spec_meta(i)));
        }
    }

    /// Read-modify-write: applies `f` to the key's current value — taken
    /// from memory, or fetched from the store on a miss — and stores the
    /// result back, then lets the ceiling check spill one dirty bucket
    /// after an in-place hit. Reports whether a value was found and
    /// rewritten; a rewritten value that cannot be encoded is rejected as
    /// `Serde` with the pair left as it was.
    pub fn rmw<F: FnOnce(V) -> V>(&mut self, key: &K, f: F, store: &mut RawStore) -> (r: Result<
        bool,
        BrittMarieError,
    >)
        requires
            old(self).wf(),
            old(self).coherent(*old(store)),
            old(store).wf(),
            key.enc_ok(),
            forall|v: V| #[trigger] f.requires((v,)),
        ensures
            final(self).wf(),
            final(store).wf(),
            final(self).coherent(*final(store)),
            final(self).spec_mode() == old(self).spec_mode(),
            final(store).snapshots() == old(store).snapshots(),
            !old(self).mem_has(*key) && !old(store)@.contains_key(key.enc()) ==> r == Ok::<
                bool,
                BrittMarieError,
            >(false) && *final(self) == *old(self) && *final(store) == *old(store),
            r is Err ==> r->Err_0 is Serde && ((exists|v: V, vn: V|
                #[trigger] f.ensures((v,), vn) && !vn.enc_ok()) || (!old(self).mem_has(*key)
                && old(store)@.contains_key(key.enc()) && !(exists|v: V|
                old(store)@[key.enc()] == v.enc() && v.enc_ok()))),
            (forall|v: V, vn: V| #[trigger] f.ensures((v,), vn) ==> vn.enc_ok()) && (old(
                self,
            ).mem_has(*key) || !old(store)@.contains_key(key.enc()) || (exists|v: V|
                old(store)@[key.enc()] == v.enc() && v.enc_ok())) ==> r is Ok,
            old(self).mem_has(*key) && r is Ok ==> r->Ok_0 && exists|vn: V|
                f.ensures((old(self).mem_val(*key),), vn) && final(self).maps_to(
                    *final(store),
                    *key,
                    vn,
                ),
            forall|v: V|
                !old(self).mem_has(*key) && old(store)@.contains_key(key.enc()) && old(
                    store,
                )@[key.enc()] == v.enc() && v.enc_ok() && r is Ok ==> r->Ok_0 && exists|vn: V|
                    #[trigger] f.ensures((v,), vn) && final(self).maps_to(
                        *final(store),
                        *key,
                        vn,
                    ),
            r is Err ==> final(self).mem_has(*key) == old(self).mem_has(*key) && (old(
                self,
            ).mem_has(*key) ==> final(self).mem_val(*key) == old(self).mem_val(*key))
                && *final(store) == *old(store),
            forall|k2: K|
                #[trigger] final(self).mem_has(k2) ==> old(self).mem_has(k2) || k2 == *key,
            forall|k2: K, v2: V|
                k2 != *key && old(self).maps_to(*old(store), k2, v2)
                    ==> #[trigger] final(self).maps_to(*final(store), k2, v2),
            forall|ks: Seq<u8>|
                #[trigger] final(store)@.contains_key(ks) ==> old(store)@.contains_key(ks) || (
                exists|k2: K| (#[trigger] old(self).mem_has(k2) || k2 == *key) && ks
                    == k2.enc()),
            forall|ks: Seq<u8>|
                #[trigger] old(store)@.contains_key(ks) && (forall|k2: K|
                    (#[trigger] old(self).mem_has(k2) || k2 == *key) ==> k2.enc() != ks)
                    ==> final(store)@[ks] == old(store)@[ks] && final(store)@.contains_key(ks),
    {
        let ghost orig = *self;
        let ghost store_in = *store;
        let hash = key.key_hash();
        let cur: Option<V> = match self.table.find(hash, key) {
            Some(b) => {
                proof {
                    Self::lemma_wf_same_but_meta(orig, *self);
                    Self::lemma_coherent_same_meta_up(orig, *self, *store);
                    Self::lemma_mem_at(orig, b.index as int, *key);
                    orig.spec_table().lemma_ctrl_same_full(self.spec_table(), b.index as int);
                    self.spec_table().lemma_full_iff_some_weak(b.index as int);
                }
                match self.table.bucket_pair(b.index) {
                    Some(p) => Some(p.1.val_clone()),
                    None => {
                        proof {
                            assert(false);
                        }
                        vstd::pervasive::unreached()
                    },
                }
            },
            None => {
                proof {
                    assert(!orig.mem_has(*key)) by {
                        if orig.mem_has(*key) {
                            let i0 = choose|i0: int|
                                0 <= i0 < orig.spec_table().spec_buckets()
                                    && #[trigger] orig.spec_table().is_bucket_full(i0)
                                    && orig.spec_table().spec_slot(i0)->Some_0.0 == *key;
                            assert(orig.spec_table().spec_hash(i0) == key.hash_spec());
                            assert(orig.spec_table().has_key(hash, *key));
                        }
                    };
                }
                match store.get::<K, V>(key) {
                    Ok(opt) => opt,
                    Err(e) => {
                        // the store holds bytes under this key that are no
                        // valid encoding: surface the decode failure
                        return Err(BrittMarieError::Serde(String::new()));
                    },
                }
            },
        };
        let ghost mid0 = *self;
        proof {
            if orig.mem_has(*key) {
                Self::lemma_wf_same_but_meta(orig, mid0);
            }
        }
        match cur {
            Some(v) => {
                let ghost v0 = v;
                let newv = f(v);
                match newv.into_raw() {
                    Ok(_) => {},
                    Err(_) => {
                        proof {
                            if orig.mem_has(*key) {
                                Self::lemma_same_mem(orig, mid0, *key);
                                Self::lemma_same_mem_rev(orig, mid0, *key);
                                Self::lemma_coherent_same_meta_up(orig, mid0, *store);
                                assert forall|k2: K|
                                    #[trigger] mid0.mem_has(k2) implies orig.mem_has(k2) by {
                                    Self::lemma_same_mem_rev(orig, mid0, k2);
                                }
                                assert forall|k2: K, v2: V|
                                    k2 != *key && orig.maps_to(store_in, k2, v2)
                                        implies #[trigger] mid0.maps_to(*store, k2, v2) by {
                                    if orig.mem_has(k2) {
                                        Self::lemma_same_mem(orig, mid0, k2);
                                    } else {
                                        assert(!mid0.mem_has(k2)) by {
                                            if mid0.mem_has(k2) {
                                                Self::lemma_same_mem_rev(orig, mid0, k2);
                                            }
                                        };
                                    }
                                }
                            }
                        }
                        return Err(BrittMarieError::Serde(String::new()));
                    },
                }
                let _ = self.insert_impl(key.key_clone(), newv, store, true);
                proof {
                    if orig.mem_has(*key) {
                        assert(mid0.mem_has(*key) && mid0.mem_val(*key) == orig.mem_val(
                            *key,
                        )) by {
                            Self::lemma_same_mem(orig, mid0, *key);
                        };
                        assert(v0 == orig.mem_val(*key));
                    }
                    assert forall|k2: K|
                        #[trigger] self.mem_has(k2) implies orig.mem_has(k2) || k2 == *key by {
                        if k2 != *key {
                            assert(mid0.mem_has(k2));
                            Self::lemma_same_mem_rev(orig, mid0, k2);
                        }
                    }
                    assert forall|k2: K, v2: V|
                        k2 != *key && orig.maps_to(store_in, k2, v2) implies #[trigger] self.maps_to(
                        *store,
                        k2,
                        v2,
                    ) by {
                        assert(mid0.maps_to(store_in, k2, v2)) by {
                            if orig.mem_has(k2) {
                                Self::lemma_same_mem(orig, mid0, k2);
                            } else {
                                assert(!mid0.mem_has(k2)) by {
                                    if mid0.mem_has(k2) {
                                        Self::lemma_same_mem_rev(orig, mid0, k2);
                                    }
                                };
                            }
                        };
                    }
                    assert forall|ks: Seq<u8>|
                        #[trigger] store@.contains_key(ks) implies store_in@.contains_key(ks)
                        || (exists|k2: K| (#[trigger] orig.mem_has(k2) || k2 == *key) && ks
                        == k2.enc()) by {
                        if !store_in@.contains_key(ks) {
                            let k2 = choose|k2: K|
                                (#[trigger] mid0.mem_has(k2) || k2 == *key) && ks == k2.enc();
                            if k2 != *key {
                                Self::lemma_same_mem_rev(orig, mid0, k2);
                            }
                        }
                    }
                    assert forall|ks: Seq<u8>|
                        #[trigger] store_in@.contains_key(ks) && (forall|k2: K|
                            (#[trigger] orig.mem_has(k2) || k2 == *key) ==> k2.enc() != ks)
                            implies store@[ks] == store_in@[ks] && store@.contains_key(ks) by {
                        assert forall|k2: K|
                            (#[trigger] mid0.mem_has(k2) || k2 == *key) implies k2.enc()
                            != ks by {
                            if k2 != *key {
                                Self::lemma_same_mem_rev(orig, mid0, k2);
                            }
                        }
                    }
                }
                Ok(true)
            },
            None => Ok(false),
        }
    }


    /// Pushes every dirty pair to the durable store and stamps the table
    /// clean; in copy-on-write mode there is nothing left to push. A
    /// second persist right after the first changes nothing.
    pub fn persist(&mut self, store: &mut RawStore) -> (r: Result<(), BrittMarieError>)
        requires
            old(self).wf(),
            old(self).coherent(*old(store)),
            old(store).wf(),
        ensures
            final(self).wf(),
            final(store).wf(),
            r is Ok,
            final(self).coherent(*final(store)),
            final(self).spec_mode() == old(self).spec_mode(),
            final(store).snapshots() == old(store).snapshots(),
            old(self).spec_mode() == WriteMode::Lazy ==> final(self).spec_table(
            ).spec_mod_counter() == 0 && (forall|k: K|
                old(self).mem_has(k) ==> #[trigger] final(self).mem_has(k)
                    && final(self).mem_val(k) == old(self).mem_val(k) && final(self).mem_meta(k)
                    == (if spec_is_modified(old(self).mem_meta(k)) {
                    SAFE
                } else {
                    old(self).mem_meta(k)
                })),
            old(self).spec_mode() == WriteMode::Lazy && old(self).spec_table().spec_mod_counter()
                == 0 ==> *final(store) == *old(store),
            old(self).spec_mode() == WriteMode::Cow ==> *final(self) == *old(self)
                && *final(store) == *old(store),
            forall|ks: Seq<u8>|
                old(store)@.contains_key(ks) ==> #[trigger] final(store)@.contains_key(ks),
            forall|ks: Seq<u8>|
                #[trigger] final(store)@.contains_key(ks) ==> old(store)@.contains_key(ks) || (
                exists|k2: K| #[trigger] old(self).mem_has(k2) && ks == k2.enc()),
            forall|ks: Seq<u8>|
                #[trigger] old(store)@.contains_key(ks) && (forall|k2: K|
                    #[trigger] old(self).mem_has(k2) ==> k2.enc() != ks) ==> final(store)@[ks]
                    == old(store)@[ks],
            old(self).spec_mode() == WriteMode::Lazy ==> forall|k2: K|
                #[trigger] old(self).mem_has(k2) ==> final(store)@.contains_key(k2.enc())
                    && final(store)@[k2.enc()] == old(self).mem_val(k2).enc(),
    {
        if self.mode.is_lazy() {
            self.flush_modified(store)
        } else {
            Ok(())
        }
    }
}


impl<K: Key, V: Value> crate::index::IndexOps for HashIndex<K, V> {
    open spec fn ops_wf(&self) -> bool {
        self.wf()
    }

    open spec fn ops_coherent(&self, store: RawStore) -> bool {
        self.coherent(store)
    }

    fn persist(&mut self, store: &mut RawStore) -> (r: Result<(), BrittMarieError>) {
        HashIndex::persist(self, store)
    }
}

impl<K: Key, V: Value> crate::index::HashOps<K, V> for HashIndex<K, V> {
    fn get<'a>(&'a mut self, key: &K, store: &mut RawStore) -> (r: Option<&'a V>) {
        HashIndex::get(self, key, store)
    }

    fn put(&mut self, key: K, value: V, store: &mut RawStore) {
        let _ = HashIndex::put(self, key, value, store);
    }

    fn rmw<F: FnOnce(V) -> V>(&mut self, key: &K, f: F, store: &mut RawStore) -> (r: bool) {
        match HashIndex::rmw(self, key, f, store) {
            Ok(b) => b,
            Err(_) => false,
        }
    }
}

} // verus!
