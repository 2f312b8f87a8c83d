use vstd::prelude::*;
use crate::data::{Key, Value};
use crate::group::{
    bucket_mask_to_capacity, capacity_to_buckets, group_has_empty, group_match_byte_from,
    group_match_special_from, group_nonempty_run_high, group_nonempty_run_low, h2, is_full,
    is_modified, is_pow2, is_safe, is_special, lemma_small_pow2, mirror, replicated,
    spec_bucket_mask_to_capacity, spec_h2, spec_is_full, spec_is_modified, spec_is_safe,
    spec_is_special, spec_mirror, spec_special_is_empty, special_is_empty, DELETED, EMPTY,
    GROUP_WIDTH, MODIFIED, MODIFIED_TOUCHED, SAFE, SAFE_TOUCHED,
};
use crate::probe::{in_window, lemma_probe_covers, probe_len, probe_pos, window_slot};

verus! {

/// Why an allocation request for a table cannot be met.
#[derive(Clone, Copy, PartialEq, Eq, Structural, Debug)]
pub enum CollectionAllocErr {
    /// The computed bucket count exceeds what this machine can address.
    CapacityOverflow,
    /// The allocator refused the request.
    AllocErr,
}

/// A handle on one bucket of a raw table: the index the probe found it at.
#[derive(Clone, Copy, PartialEq, Eq, Structural, Debug)]
pub struct Bucket {
    pub index: usize,
}

/// Occurrences of `byte` among the first `n` bytes of `s`.
pub open spec fn count_byte_if(s: Seq<u8>, f: spec_fn(u8) -> bool, n: int) -> int
    decreases n,
{
    if n <= 0 {
        0
    } else {
        count_byte_if(s, f, n - 1) + if f(s[n - 1]) {
            1int
        } else {
            0int
        }
    }
}

/// Counts lie between zero and the prefix length.
pub proof fn lemma_count_bounds(s: Seq<u8>, f: spec_fn(u8) -> bool, n: int)
    requires
        0 <= n,
    ensures
        0 <= count_byte_if(s, f, n) <= n,
    decreases n,
{
    if n > 0 {
        lemma_count_bounds(s, f, (n - 1) as int);
    }
}

/// Two streams that agree on the prefix have the same count.
pub proof fn lemma_count_congruent(s1: Seq<u8>, s2: Seq<u8>, f: spec_fn(u8) -> bool, n: int)
    requires
        forall|j: int| 0 <= j < n ==> s1[j] == s2[j],
    ensures
        count_byte_if(s1, f, n) == count_byte_if(s2, f, n),
    decreases n,
{
    if n > 0 {
        lemma_count_congruent(s1, s2, f, n - 1);
    }
}

/// Changing one byte moves the count by the difference at that byte.
pub proof fn lemma_count_update(s1: Seq<u8>, s2: Seq<u8>, f: spec_fn(u8) -> bool, n: int, i: int)
    requires
        0 <= i < n,
        forall|j: int| 0 <= j < n && j != i ==> s1[j] == s2[j],
    ensures
        count_byte_if(s2, f, n) == count_byte_if(s1, f, n) + (if f(s2[i]) {
            1int
        } else {
            0int
        }) - (if f(s1[i]) {
            1int
        } else {
            0int
        }),
    decreases n,
{
    if i == n - 1 {
        lemma_count_congruent(s1, s2, f, n - 1);
    } else {
        lemma_count_update(s1, s2, f, n - 1, i);
    }
}

/// A count below the prefix length leaves a byte the predicate refuses.
pub proof fn lemma_count_partial_exists(s: Seq<u8>, f: spec_fn(u8) -> bool, n: int)
    requires
        0 <= count_byte_if(s, f, n) < n,
    ensures
        exists|i: int| 0 <= i < n && !f(s[i]),
    decreases n,
{
    if n > 0 {
        if !f(s[n - 1]) {
        } else {
            lemma_count_bounds(s, f, n - 1);
            lemma_count_partial_exists(s, f, n - 1);
        }
    }
}

/// A positive count has a byte the predicate accepts.
pub proof fn lemma_count_pos_exists(s: Seq<u8>, f: spec_fn(u8) -> bool, n: int)
    requires
        count_byte_if(s, f, n) > 0,
    ensures
        exists|i: int| 0 <= i < n && f(s[i]),
    decreases n,
{
    if n > 0 {
        if f(s[n - 1]) {
        } else {
            lemma_count_pos_exists(s, f, n - 1);
        }
    }
}

/// Counts grow with the prefix.
pub proof fn lemma_count_monotone(s: Seq<u8>, f: spec_fn(u8) -> bool, a: int, b: int)
    requires
        0 <= a <= b,
    ensures
        count_byte_if(s, f, a) <= count_byte_if(s, f, b),
    decreases b,
{
    if a < b {
        lemma_count_monotone(s, f, a, b - 1);
    }
}

/// A byte the predicate accepts makes the count positive.
pub proof fn lemma_count_at_least_one(s: Seq<u8>, f: spec_fn(u8) -> bool, n: int, i: int)
    requires
        0 <= i < n,
        f(s[i]),
    ensures
        count_byte_if(s, f, n) >= 1,
    decreases n,
{
    if n > 0 {
        lemma_count_bounds(s, f, n - 1);
        if i < n - 1 {
            lemma_count_at_least_one(s, f, n - 1, i);
        }
    }
}

/// An all-zero count means no byte is accepted.
pub proof fn lemma_count_zero(s: Seq<u8>, f: spec_fn(u8) -> bool, n: int)
    requires
        forall|i: int| 0 <= i < n ==> !f(s[i]),
        n >= 0,
    ensures
        count_byte_if(s, f, n) == 0,
    decreases n,
{
    if n > 0 {
        lemma_count_zero(s, f, n - 1);
    }
}

/// The predicate a control byte of a resident key satisfies.
pub open spec fn full_pred() -> spec_fn(u8) -> bool {
    |c: u8| spec_is_full(c)
}

/// The predicate a meta byte of a dirty bucket satisfies.
pub open spec fn dirty_pred() -> spec_fn(u8) -> bool {
    |m: u8| spec_is_modified(m)
}

/// The predicate of a DELETED control byte.
pub open spec fn deleted_pred() -> spec_fn(u8) -> bool {
    |c: u8| c == DELETED
}

/// The predicate of an EMPTY control byte.
pub open spec fn empty_pred() -> spec_fn(u8) -> bool {
    |c: u8| c == EMPTY
}

/// Control bytes partition into EMPTY, DELETED and full.
pub proof fn lemma_count_partition(s: Seq<u8>, n: int)
    requires
        0 <= n,
        forall|i: int|
            0 <= i < n ==> (#[trigger] s[i]) == EMPTY || s[i] == DELETED || spec_is_full(s[i]),
    ensures
        count_byte_if(s, full_pred(), n) + count_byte_if(s, deleted_pred(), n) + count_byte_if(
            s,
            empty_pred(),
            n,
        ) == n,
    decreases n,
{
    crate::group::lemma_byte_values();
    if n > 0 {
        lemma_count_partition(s, n - 1);
    }
}

/// Whether probe step `t` for hash `h` scans a window holding an EMPTY
/// control byte, judged over the logical control bytes.
pub open spec fn window_has_empty(ctrl: Seq<u8>, h: int, buckets: int, t: nat) -> bool {
    exists|b: int| 0 <= b < GROUP_WIDTH && ctrl[#[trigger] window_slot(h, buckets, t, b)] == EMPTY
}

/// A resident bucket is findable: some probe step of its hash scans it,
/// and no earlier step of that walk sees an EMPTY byte, so a lookup walks
/// far enough to reach it.
pub open spec fn slot_findable(ctrl: Seq<u8>, h: int, buckets: int, i: int) -> bool {
    exists|t: nat|
        t < probe_len(buckets - 1) && #[trigger] in_window(h, buckets, t, i) && (forall|t2: nat|
            t2 < t ==> !window_has_empty(ctrl, h, buckets, t2))
}

/// The modification-aware open-addressed hash table.
///
/// Control bytes drive SIMD-style group probing; a parallel meta stream
/// tracks each resident bucket through the four states clean/touched/dirty/
/// dirty-touched, so that eviction can prefer cold clean victims and the
/// enclosing index can bound the number of dirty buckets.
pub struct RawTable<K: Key, V: Value> {
    bucket_mask: usize,
    ctrl: Vec<u8>,
    meta: Vec<u8>,
    slots: Vec<Option<(K, V)>>,
    growth_left: usize,
    items: usize,
    mod_counter: usize,
    mod_limit: usize,
    hashes: Ghost<Seq<u64>>,
}

impl<K: Key, V: Value> RawTable<K, V> {
    /// Number of buckets; always a power of two.
    pub closed spec fn spec_buckets(&self) -> int {
        self.bucket_mask + 1
    }

    pub closed spec fn spec_bucket_mask(&self) -> int {
        self.bucket_mask as int
    }

    pub closed spec fn spec_items(&self) -> int {
        self.items as int
    }

    pub closed spec fn spec_growth_left(&self) -> int {
        self.growth_left as int
    }

    pub closed spec fn spec_mod_counter(&self) -> int {
        self.mod_counter as int
    }

    pub closed spec fn spec_mod_limit(&self) -> int {
        self.mod_limit as int
    }

    /// The logical and replicated control bytes as one stream.
    pub closed spec fn ctrl_stream(&self) -> Seq<u8> {
        self.ctrl@
    }

    /// The logical and replicated meta bytes as one stream.
    pub closed spec fn meta_stream(&self) -> Seq<u8> {
        self.meta@
    }

    /// Control byte of bucket `i`.
    pub closed spec fn spec_ctrl(&self, i: int) -> u8 {
        self.ctrl@[i]
    }

    /// Meta byte of bucket `i`.
    pub closed spec fn spec_meta(&self, i: int) -> u8 {
        self.meta@[i]
    }

    /// The pair bucket `i` holds, when it is resident.
    pub closed spec fn spec_slot(&self, i: int) -> Option<(K, V)> {
        self.slots@[i]
    }

    /// The hash bucket `i` was filled under.
    pub closed spec fn spec_hash(&self, i: int) -> u64 {
        self.hashes@[i]
    }

    /// Whether bucket `i` holds a resident pair.
    pub open spec fn is_bucket_full(&self, i: int) -> bool {
        spec_is_full(self.spec_ctrl(i))
    }

    /// Whether bucket `i` is dirty.
    pub open spec fn is_bucket_dirty(&self, i: int) -> bool {
        spec_is_modified(self.spec_meta(i))
    }

    /// Whether some resident bucket was filled under `hash` and holds `key`.
    pub open spec fn has_key(&self, hash: u64, key: K) -> bool {
        exists|i: int|
            0 <= i < self.spec_buckets() && #[trigger] self.is_bucket_full(i) && self.spec_hash(i)
                == hash && self.spec_slot(i)->Some_0.0 == key
    }

    /// Structural well-formedness: stream lengths, replication of the
    /// trailing groups, the slot/control correspondence, the meta state
    /// machine, the counters, the load reserve, and findability of every
    /// resident bucket.
    ///
    /// The load clause bounds residents, budget and DELETED slots by the
    /// bucket count rather than the effective capacity: the growth budget
    /// saturates at zero, so an insertion that lands on a reserve EMPTY
    /// slot right after an eviction left a DELETED one can push the sum
    /// past the effective capacity by design.
    pub closed spec fn wf(&self) -> bool {
        let buckets = self.spec_buckets();
        &&& is_pow2(buckets)
        &&& buckets <= 0x4000_0000
        &&& self.ctrl@.len() == buckets + GROUP_WIDTH
        &&& self.meta@.len() == buckets + GROUP_WIDTH
        &&& self.slots@.len() == buckets
        &&& self.hashes@.len() == buckets
        &&& replicated(self.ctrl@, buckets, EMPTY)
        &&& replicated(self.meta@, buckets, SAFE)
        &&& (forall|i: int|
            0 <= i < buckets ==> (#[trigger] self.spec_slot(i)) is Some == spec_is_full(
                self.spec_ctrl(i),
            ))
        &&& (forall|i: int|
            0 <= i < buckets ==> crate::group::meta_state(#[trigger] self.spec_meta(i)))
        &&& (forall|i: int|
            0 <= i < buckets && !spec_is_full(#[trigger] self.spec_ctrl(i)) ==> spec_is_safe(
                self.spec_meta(i),
            ))
        &&& (forall|i: int|
            0 <= i < buckets ==> (#[trigger] self.spec_ctrl(i)) == EMPTY || self.spec_ctrl(i)
                == DELETED || spec_is_full(self.spec_ctrl(i)))
        &&& self.items == count_byte_if(self.ctrl@, full_pred(), buckets)
        &&& self.mod_counter == count_byte_if(self.meta@, dirty_pred(), buckets)
        &&& self.items + self.growth_left + count_byte_if(self.ctrl@, deleted_pred(), buckets)
            <= buckets
        &&& (forall|i: int|
            0 <= i < buckets && spec_is_full(#[trigger] self.spec_ctrl(i)) ==> self.spec_ctrl(i)
                == spec_h2(self.spec_hash(i)) && slot_findable(
                self.ctrl@,
                self.spec_hash(i) as int,
                buckets,
                i,
            ))
    }

    /// The number of resident buckets equals the count of control bytes
    /// with a clear top bit.
    pub proof fn law_items_count_full(&self)
        requires
            self.wf(),
        ensures
            self.spec_items() == count_byte_if(self.ctrl_stream(), full_pred(), self.spec_buckets()),
    {
    }

    /// The dirty counter equals the count of set meta top bits among
    /// resident buckets: non-resident buckets always carry a clean meta
    /// byte, so counting all dirty meta bytes counts the resident ones.
    pub proof fn law_mod_counter_count_dirty(&self)
        requires
            self.wf(),
        ensures
            self.spec_mod_counter() == count_byte_if(self.meta_stream(), dirty_pred(), self.spec_buckets()),
            forall|i: int|
                0 <= i < self.spec_buckets() && #[trigger] self.is_bucket_dirty(i)
                    ==> self.is_bucket_full(i),
    {
        assert forall|i: int|
            0 <= i < self.spec_buckets() && #[trigger] self.is_bucket_dirty(i)
                implies self.is_bucket_full(i) by {
            if !self.is_bucket_full(i) {
                assert(spec_is_safe(self.spec_meta(i)));
            }
        }
    }

    /// The bucket region's length is a power of two.
    pub proof fn law_buckets_pow2(&self)
        requires
            self.wf(),
        ensures
            crate::group::is_pow2(self.spec_buckets()),
    {
    }

    /// A resident bucket's control byte carries the secondary hash of the
    /// hash it was filled under.
    pub proof fn law_ctrl_matches_hash(&self)
        requires
            self.wf(),
        ensures
            forall|i: int|
                0 <= i < self.spec_buckets() && #[trigger] self.is_bucket_full(i)
                    ==> self.spec_ctrl(i) == spec_h2(self.spec_hash(i)),
    {
    }

    /// Every control byte's trailing replica agrees with it, and the same
    /// holds for the meta stream; stated for tables of at least one full
    /// group, where the replica of byte `i` sits at `i + buckets`.
    pub proof fn law_trailing_replicas(&self)
        requires
            self.wf(),
            self.spec_buckets() >= GROUP_WIDTH,
        ensures
            forall|i: int|
                0 <= i < GROUP_WIDTH ==> #[trigger] self.spec_ctrl(i + self.spec_buckets())
                    == self.spec_ctrl(i) && self.spec_meta(i + self.spec_buckets())
                    == self.spec_meta(i),
    {
    }

    /// Creates the read-only sentinel table: one never-written bucket.
    pub fn new() -> (r: Self)
        ensures
            r.wf(),
            r.spec_buckets() == 1,
            r.spec_items() == 0,
            r.spec_growth_left() == 0,
            r.spec_mod_counter() == 0,
            r.spec_mod_limit() == 0,
    {
        let mut ctrl: Vec<u8> = Vec::new();
        let mut meta: Vec<u8> = Vec::new();
        let mut i: usize = 0;
        while i < 1 + GROUP_WIDTH
            invariant
                i <= 1 + GROUP_WIDTH,
                ctrl@.len() == i,
                meta@.len() == i,
                forall|j: int| 0 <= j < i ==> ctrl@[j] == EMPTY,
                forall|j: int| 0 <= j < i ==> meta@[j] == SAFE,
            decreases 1 + GROUP_WIDTH - i,
        {
            ctrl.push(EMPTY);
            meta.push(SAFE);
            i = i + 1;
        }
        let mut slots: Vec<Option<(K, V)>> = Vec::new();
        slots.push(None);
        let r = RawTable {
            bucket_mask: 0,
            ctrl,
            meta,
            slots,
            growth_left: 0,
            items: 0,
            mod_counter: 0,
            mod_limit: 0,
            hashes: Ghost(Seq::new(1nat, |i: int| 0u64)),
        };
        proof {
            assert(!spec_is_full(EMPTY) && spec_is_safe(SAFE) && !spec_is_modified(SAFE))
                by (bit_vector);
            assert(forall|q: int| 0 <= q < 1 ==> !full_pred()(r.ctrl@[q]));
            assert(forall|q: int| 0 <= q < 1 ==> !dirty_pred()(r.meta@[q]));
            assert(forall|q: int| 0 <= q < 1 ==> !deleted_pred()(r.ctrl@[q]));
            lemma_count_zero(r.ctrl@, full_pred(), 1);
            lemma_count_zero(r.meta@, dirty_pred(), 1);
            lemma_count_zero(r.ctrl@, deleted_pred(), 1);
            assert(crate::group::meta_state(SAFE));
        }
        r
    }

    /// Allocates a table that can hold `capacity` entries before the load
    /// ceiling, with the dirty ceiling at the given number of tenths of
    /// the initial free pool.
    pub fn try_with_capacity(capacity: usize, mod_factor_tenths: usize) -> (r: Result<
        Self,
        CollectionAllocErr,
    >)
        requires
            1 <= mod_factor_tenths <= 9,
        ensures
            match r {
                Ok(t) => {
                    &&& t.wf()
                    &&& capacity > 0 ==> t.spec_growth_left() >= capacity
                    &&& capacity > 0 ==> t.spec_buckets() >= 2
                    &&& t.spec_items() == 0
                    &&& t.spec_mod_counter() == 0
                    &&& capacity > 0 ==> t.spec_mod_limit() == t.spec_growth_left()
                        * mod_factor_tenths / 10
                    &&& t.spec_mod_limit() < t.spec_growth_left() || t.spec_growth_left() == 0
                },
                Err(e) => e == CollectionAllocErr::CapacityOverflow && capacity > 0x1000_0000,
            },
    {
        if capacity == 0 {
            return Ok(Self::new());
        }
        let buckets = match capacity_to_buckets(capacity) {
            Some(b) => b,
            None => {
                return Err(CollectionAllocErr::CapacityOverflow);
            },
        };
        let mut ctrl: Vec<u8> = Vec::new();
        let mut meta: Vec<u8> = Vec::new();
        let mut i: usize = 0;
        while i < buckets + GROUP_WIDTH
            invariant
                i <= buckets + GROUP_WIDTH,
                buckets + GROUP_WIDTH <= 0x4000_0000 + GROUP_WIDTH,
                ctrl@.len() == i,
                meta@.len() == i,
                forall|j: int| 0 <= j < i ==> ctrl@[j] == EMPTY,
                forall|j: int| 0 <= j < i ==> meta@[j] == SAFE,
            decreases buckets + GROUP_WIDTH - i,
        {
            ctrl.push(EMPTY);
            meta.push(SAFE);
            i = i + 1;
        }
        let mut slots: Vec<Option<(K, V)>> = Vec::new();
        let mut j: usize = 0;
        while j < buckets
            invariant
                j <= buckets,
                slots@.len() == j,
                forall|q: int| 0 <= q < j ==> slots@[q] is None,
            decreases buckets - j,
        {
            slots.push(None);
            j = j + 1;
        }
        let growth_left = bucket_mask_to_capacity(buckets - 1);
        proof {
            crate::group::lemma_capacity_below_buckets((buckets - 1) as int);
            assert(growth_left <= 0x4000_0000);
            assert(growth_left < buckets);
        }
        proof {
            assert((growth_left as u64) * (mod_factor_tenths as u64) <= 0x4000_0000u64 * 9u64)
                by (nonlinear_arith)
                requires growth_left as u64 <= 0x4000_0000u64 && mod_factor_tenths as u64 <= 9u64;
        }
        let mod_limit = (((growth_left as u64) * (mod_factor_tenths as u64)) / 10) as usize;
        let r = RawTable {
            bucket_mask: buckets - 1,
            ctrl,
            meta,
            slots,
            growth_left,
            items: 0,
            mod_counter: 0,
            mod_limit,
            hashes: Ghost(Seq::new(buckets as nat, |i: int| 0u64)),
        };
        proof {
            assert(!spec_is_full(EMPTY) && spec_is_safe(SAFE) && !spec_is_modified(SAFE))
                by (bit_vector);
            assert(forall|q: int| 0 <= q < buckets ==> !full_pred()(r.ctrl@[q]));
            assert(forall|q: int| 0 <= q < buckets ==> !dirty_pred()(r.meta@[q]));
            assert(forall|q: int| 0 <= q < buckets ==> !deleted_pred()(r.ctrl@[q]));
            lemma_count_zero(r.ctrl@, full_pred(), buckets as int);
            lemma_count_zero(r.meta@, dirty_pred(), buckets as int);
            lemma_count_zero(r.ctrl@, deleted_pred(), buckets as int);
            assert(crate::group::meta_state(SAFE));
            assert(r.spec_mod_limit() == r.spec_growth_left() * mod_factor_tenths / 10 && (
            r.spec_mod_limit() < r.spec_growth_left() || r.spec_growth_left() == 0))
                by (nonlinear_arith)
                requires
                    r.spec_mod_limit() == ((growth_left as u64) * (mod_factor_tenths as u64) / 10)
                        as usize as int,
                    r.spec_growth_left() == growth_left as int,
                    growth_left <= 0x4000_0000,
                    1 <= mod_factor_tenths <= 9,
            ;
        }
        Ok(r)
    }

    /// Allocates a table for `capacity` entries; the capacity must be one
    /// this machine can address.
    pub fn with_capacity(capacity: usize, mod_factor_tenths: usize) -> (r: Self)
        requires
            1 <= mod_factor_tenths <= 9,
            capacity <= 0x1000_0000,
        ensures
            r.wf(),
            capacity > 0 ==> r.spec_growth_left() >= capacity,
            capacity > 0 ==> r.spec_buckets() >= 2,
            r.spec_items() == 0,
            r.spec_mod_counter() == 0,
            capacity > 0 ==> r.spec_mod_limit() == r.spec_growth_left() * mod_factor_tenths
                / 10,
            r.spec_mod_limit() < r.spec_growth_left() || r.spec_growth_left() == 0,
    {
        match Self::try_with_capacity(capacity, mod_factor_tenths) {
            Ok(t) => t,
            Err(_) => {
                proof {
                    assert(false);
                }
                Self::new()
            },
        }
    }

    /// How many more entries fit before the load ceiling.
    pub fn capacity(&self) -> (r: usize)
        requires
            self.wf(),
        ensures
            r == self.spec_items() + self.spec_growth_left(),
    {
        proof {
            lemma_count_bounds(self.ctrl@, deleted_pred(), self.spec_buckets());
        }
        self.items + self.growth_left
    }

    /// Number of resident entries.
    pub fn len(&self) -> (r: usize)
        ensures
            r == self.spec_items(),
    {
        self.items
    }

    /// Whether the dirty-bucket count has reached the configured ceiling.
    pub fn above_mod_threshold(&self) -> (r: bool)
        ensures
            r == (self.spec_mod_counter() >= self.spec_mod_limit()),
    {
        self.mod_counter >= self.mod_limit
    }

    /// Number of buckets.
    pub fn buckets(&self) -> (r: usize)
        requires
            self.wf(),
        ensures
            r == self.spec_buckets(),
    {
        self.bucket_mask + 1
    }

    /// The configured dirty ceiling.
    pub fn mod_limit(&self) -> (r: usize)
        ensures
            r == self.spec_mod_limit(),
    {
        self.mod_limit
    }

    /// Current dirty-bucket count.
    pub fn mod_counter(&self) -> (r: usize)
        ensures
            r == self.spec_mod_counter(),
    {
        self.mod_counter
    }

    /// Free slots left before the load ceiling.
    pub fn growth_left(&self) -> (r: usize)
        ensures
            r == self.spec_growth_left(),
    {
        self.growth_left
    }

    /// Control byte of bucket `i`, for inspection.
    pub fn ctrl_byte(&self, i: usize) -> (r: u8)
        requires
            self.wf(),
            i < self.spec_buckets(),
        ensures
            r == self.spec_ctrl(i as int),
    {
        self.ctrl[i]
    }

    /// Meta byte of bucket `i`, for inspection.
    pub fn meta_byte(&self, i: usize) -> (r: u8)
        requires
            self.wf(),
            i < self.spec_buckets(),
        ensures
            r == self.spec_meta(i as int),
    {
        self.meta[i]
    }

    /// The pair resident in bucket `i`, if any.
    pub fn bucket_pair(&self, i: usize) -> (r: Option<&(K, V)>)
        requires
            self.wf(),
            i < self.spec_buckets(),
        ensures
            match r {
                Some(p) => self.spec_slot(i as int) == Some(*p),
                None => self.spec_slot(i as int) is None,
            },
    {
        match &self.slots[i] {
            Some(p) => Some(p),
            None => None,
        }
    }
}


/// Any slot a probe window scans has an in-window occurrence whose
/// physical byte agrees with the slot's logical byte: the replicated tail
/// (and, below one group, the mirror past the filler) keeps every window
/// coherent.
pub proof fn lemma_window_occurrence(
    s: Seq<u8>,
    fill: u8,
    buckets: int,
    h: int,
    t: nat,
    i: int,
)
    requires
        is_pow2(buckets),
        1 <= buckets <= 0x4000_0000,
        s.len() == buckets + GROUP_WIDTH,
        replicated(s, buckets, fill),
        0 <= i < buckets,
        h >= 0,
        in_window(h, buckets, t, i),
    ensures
        exists|b: int|
            0 <= b < GROUP_WIDTH && #[trigger] window_slot(h, buckets, t, b) == i && s[probe_pos(
                h,
                buckets,
                t,
            ) + b] == s[i],
{
    let gw = GROUP_WIDTH as int;
    let p = probe_pos(h, buckets, t);
    crate::probe::lemma_probe_pos_bound(h, buckets, t);
    if buckets >= gw {
        let b0 = choose|b: int| 0 <= b < gw && i == window_slot(h, buckets, t, b);
        if p + b0 < buckets {
            vstd::arithmetic::div_mod::lemma_small_mod((p + b0) as nat, buckets as nat);
            assert(s[p + b0] == s[i]);
        } else {
            assert(s[p + b0] == s[p + b0 - buckets]);
            vstd::arithmetic::div_mod::lemma_fundamental_div_mod(p + b0, buckets);
            vstd::arithmetic::div_mod::lemma_small_mod((p + b0 - buckets) as nat, buckets as nat);
            vstd::arithmetic::div_mod::lemma_mod_multiples_vanish(1, p + b0 - buckets, buckets);
            assert(buckets * 1 + (p + b0 - buckets) == p + b0);
            assert((p + b0) % buckets == p + b0 - buckets);
            assert(s[p + b0] == s[i]);
        }
        assert(window_slot(h, buckets, t, b0) == i);
    } else {
        lemma_small_pow2(buckets);
        vstd::arithmetic::div_mod::lemma_fundamental_div_mod(16, buckets);
        let m = 16int / buckets;
        assert(gw == buckets * m);
        if i >= p {
            let b1 = i - p;
            vstd::arithmetic::div_mod::lemma_small_mod(i as nat, buckets as nat);
            assert(window_slot(h, buckets, t, b1) == i);
            assert(s[p + b1] == s[i]);
        } else {
            let b1 = i + gw - p;
            vstd::arithmetic::div_mod::lemma_mod_multiples_vanish(m, i, buckets);
            assert(buckets * m + i == i + gw);
            vstd::arithmetic::div_mod::lemma_small_mod(i as nat, buckets as nat);
            assert((p + b1) % buckets == i);
            assert(window_slot(h, buckets, t, b1) == i);
            assert(gw <= i + gw - p + p < buckets + gw);
            assert(s[i + gw] == s[i]);
            assert(s[p + b1] == s[i]);
        }
    }
}

impl<K: Key, V: Value> RawTable<K, V> {
    /// Stream lengths and size bounds alone.
    pub closed spec fn shape(&self) -> bool {
        let buckets = self.spec_buckets();
        &&& is_pow2(buckets)
        &&& buckets <= 0x4000_0000
        &&& self.ctrl@.len() == buckets + GROUP_WIDTH
        &&& self.meta@.len() == buckets + GROUP_WIDTH
        &&& self.slots@.len() == buckets
        &&& self.hashes@.len() == buckets
    }

    /// Writes control byte `i` and its trailing replica.
    fn set_ctrl(&mut self, i: usize, byte: u8)
        requires
            old(self).shape(),
            replicated(old(self).ctrl@, old(self).spec_buckets(), EMPTY),
            i < old(self).spec_buckets(),
        ensures
            final(self).shape(),
            replicated(final(self).ctrl@, final(self).spec_buckets(), EMPTY),
            final(self).spec_buckets() == old(self).spec_buckets(),
            final(self).ctrl@.len() == old(self).ctrl@.len(),
            forall|j: int|
                0 <= j < final(self).spec_buckets() ==> final(self).spec_ctrl(j) == (if j == i {
                    byte
                } else {
                    old(self).spec_ctrl(j)
                }),
            forall|j: int|
                0 <= j < final(self).spec_buckets() ==> #[trigger] final(self).ctrl@[j] == (
                if j == i {
                    byte
                } else {
                    old(self).ctrl@[j]
                }),
            final(self).meta@ == old(self).meta@,
            final(self).slots@ == old(self).slots@,
            final(self).hashes@ == old(self).hashes@,
            final(self).items == old(self).items,
            final(self).growth_left == old(self).growth_left,
            final(self).mod_counter == old(self).mod_counter,
            final(self).mod_limit == old(self).mod_limit,
            final(self).bucket_mask == old(self).bucket_mask,
    {
        let buckets = self.bucket_mask + 1;
        let m = mirror(buckets, i);
        self.ctrl.set(i, byte);
        self.ctrl.set(m, byte);
        proof {
            let bk = buckets as int;
            let gw = GROUP_WIDTH as int;
            assert forall|j: int|
                bk <= j < bk + gw && bk >= gw implies (#[trigger] self.ctrl@[j]) == self.ctrl@[j
                - bk] by {
                if j == spec_mirror(bk, i as int) && (i as int) < gw {
                    assert(j - bk == i);
                } else {
                    assert(self.ctrl@[j] == old(self).ctrl@[j]);
                    assert(j - bk != i) by {
                        if j - bk == i {
                            assert(spec_mirror(bk, i as int) == (if (i as int) >= gw {
                                i as int
                            } else {
                                i + bk
                            }));
                        }
                    };
                }
            }
        }
    }

    /// Writes meta byte `i` and its trailing replica.
    fn set_meta(&mut self, i: usize, byte: u8)
        requires
            old(self).shape(),
            replicated(old(self).meta@, old(self).spec_buckets(), SAFE),
            i < old(self).spec_buckets(),
        ensures
            final(self).shape(),
            replicated(final(self).meta@, final(self).spec_buckets(), SAFE),
            final(self).spec_buckets() == old(self).spec_buckets(),
            final(self).meta@.len() == old(self).meta@.len(),
            forall|j: int|
                0 <= j < final(self).spec_buckets() ==> final(self).spec_meta(j) == (if j == i {
                    byte
                } else {
                    old(self).spec_meta(j)
                }),
            forall|j: int|
                0 <= j < final(self).spec_buckets() ==> #[trigger] final(self).meta@[j] == (
                if j == i {
                    byte
                } else {
                    old(self).meta@[j]
                }),
            final(self).ctrl@ == old(self).ctrl@,
            final(self).slots@ == old(self).slots@,
            final(self).hashes@ == old(self).hashes@,
            final(self).items == old(self).items,
            final(self).growth_left == old(self).growth_left,
            final(self).mod_counter == old(self).mod_counter,
            final(self).mod_limit == old(self).mod_limit,
            final(self).bucket_mask == old(self).bucket_mask,
    {
        let buckets = self.bucket_mask + 1;
        let m = mirror(buckets, i);
        self.meta.set(i, byte);
        self.meta.set(m, byte);
        proof {
            let bk = buckets as int;
            let gw = GROUP_WIDTH as int;
            assert forall|j: int|
                bk <= j < bk + gw && bk >= gw implies (#[trigger] self.meta@[j]) == self.meta@[j
                - bk] by {
                if j == spec_mirror(bk, i as int) && (i as int) < gw {
                    assert(j - bk == i);
                } else {
                    assert(self.meta@[j] == old(self).meta@[j]);
                    assert(j - bk != i) by {
                        if j - bk == i {
                            assert(spec_mirror(bk, i as int) == (if (i as int) >= gw {
                                i as int
                            } else {
                                i + bk
                            }));
                        }
                    };
                }
            }
        }
    }

    /// Whether a resident bucket under `hash` holding `key` exists, located
    /// by walking the probe sequence; the table is left untouched.
    fn probe_find(&self, hash: u64, key: &K) -> (r: Option<usize>)
        requires
            self.wf(),
        ensures
            match r {
                Some(i) => {
                    &&& i < self.spec_buckets()
                    &&& self.is_bucket_full(i as int)
                    &&& self.spec_slot(i as int)->Some_0.0 == *key
                },
                None => !self.has_key(hash, *key),
            },
    {
        let buckets = self.bucket_mask + 1;
        let ghost bk = buckets as int;
        let ghost hh = hash as int;
        let h2b = h2(hash);
        let mut pos: usize = (hash % (buckets as u64)) as usize;
        let mut stride: usize = 0;
        let mut t: usize = 0;
        proof {
            vstd::arithmetic::div_mod::lemma_mod_bound(hh, bk);
        }
        while stride < self.bucket_mask
            invariant
                self.wf(),
                buckets == self.spec_buckets(),
                bk == buckets as int,
                hh == hash as int,
                h2b == spec_h2(hash),
                stride == t * GROUP_WIDTH,
                t <= probe_len(bk - 1),
                pos == probe_pos(hh, bk, t as nat),
                pos < buckets,
                forall|i: int|
                    0 <= i < bk && #[trigger] self.is_bucket_full(i) && self.spec_hash(i) == hash
                        && self.spec_slot(i)->Some_0.0 == *key ==> forall|t2: nat|
                        t2 < t ==> !in_window(hh, bk, t2, i),
            decreases bk + GROUP_WIDTH - stride,
        {
            let ghost tn = t as nat;
            let mut b: usize = 0;
            loop
                invariant
                    self.wf(),
                    buckets == self.spec_buckets(),
                    bk == buckets as int,
                    hh == hash as int,
                    h2b == spec_h2(hash),
                    b <= GROUP_WIDTH,
                    pos == probe_pos(hh, bk, tn),
                    pos < buckets,
                    forall|b2: int|
                        0 <= b2 < b && self.ctrl@[pos + b2] == h2b ==> !(
                        #[trigger] self.is_bucket_full((pos + b2) % bk) && self.spec_hash(
                            (pos + b2) % bk,
                        ) == hash && self.spec_slot((pos + b2) % bk)->Some_0.0 == *key),
                ensures
                    forall|b2: int|
                        0 <= b2 < GROUP_WIDTH && self.ctrl@[pos + b2] == h2b ==> !(
                        #[trigger] self.is_bucket_full((pos + b2) % bk) && self.spec_hash(
                            (pos + b2) % bk,
                        ) == hash && self.spec_slot((pos + b2) % bk)->Some_0.0 == *key),
                decreases GROUP_WIDTH - b,
            {
                match group_match_byte_from(&self.ctrl, pos, h2b, b) {
                    Some(bit) => {
                        let idx = (pos + bit) % buckets;
                        proof {
                            vstd::arithmetic::div_mod::lemma_mod_bound((pos + bit) as int, bk);
                        }
                        let hit = match &self.slots[idx] {
                            Some(p) => key.key_eq(&p.0),
                            None => false,
                        };
                        if hit {
                            proof {
                                assert(self.spec_slot(idx as int) is Some);
                                assert(self.is_bucket_full(idx as int)) by {
                                    assert(self.spec_slot(idx as int) is Some == spec_is_full(
                                        self.spec_ctrl(idx as int),
                                    ));
                                };
                            }
                            // the control byte stores only seven hash bits;
                            // the key equality test above is what decides
                            return Some(idx);
                        }
                        proof {
                            assert(self.ctrl@[pos + bit] == h2b);
                        }
                        b = bit + 1;
                    },
                    None => {
                        break;
                    },
                }
            }
            // no matching resident key sits in this window
            proof {
                assert forall|i: int|
                    0 <= i < bk && #[trigger] self.is_bucket_full(i) && self.spec_hash(i) == hash
                        && self.spec_slot(i)->Some_0.0 == *key implies !in_window(
                    hh,
                    bk,
                    tn,
                    i,
                ) by {
                    if in_window(hh, bk, tn, i) {
                        lemma_window_occurrence(self.ctrl@, EMPTY, bk, hh, tn, i);
                        let b3 = choose|b3: int|
                            0 <= b3 < GROUP_WIDTH && #[trigger] window_slot(hh, bk, tn, b3) == i
                                && self.ctrl@[probe_pos(hh, bk, tn) + b3] == self.ctrl@[i];
                        assert(self.spec_ctrl(i) == spec_h2(self.spec_hash(i)));
                        assert(self.ctrl@[pos + b3] == h2b);
                        assert((pos + b3) % bk == i);
                    }
                }
            }
            if group_has_empty(&self.ctrl, pos) {
                proof {
                    if bk >= GROUP_WIDTH {
                        let b4 = choose|b4: int|
                            pos <= b4 < pos + GROUP_WIDTH && self.ctrl@[b4] == EMPTY;
                        let off = b4 - pos;
                        let slot = window_slot(hh, bk, tn, off);
                        if b4 < bk {
                            vstd::arithmetic::div_mod::lemma_small_mod(b4 as nat, bk as nat);
                            assert(slot == b4);
                        } else {
                            assert(self.ctrl@[b4] == self.ctrl@[b4 - bk]);
                            vstd::arithmetic::div_mod::lemma_mod_multiples_vanish(
                                1,
                                b4 - bk,
                                bk,
                            );
                            assert(bk * 1 + (b4 - bk) == b4);
                            vstd::arithmetic::div_mod::lemma_small_mod(
                                (b4 - bk) as nat,
                                bk as nat,
                            );
                            assert(slot == b4 - bk);
                        }
                        assert(self.ctrl@[slot] == EMPTY);
                        assert(window_has_empty(self.ctrl@, hh, bk, tn));
                        Self::lemma_absent(self, hash, *key, tn);
                    } else {
                        // a table of at most one group has a one-step walk
                        assert(probe_len(bk - 1) <= 1);
                        Self::lemma_absent_exhausted(self, hash, *key, (tn + 1) as nat);
                    }
                }
                return None;
            }
            stride = stride + GROUP_WIDTH;
            pos = (pos + stride) % buckets;
            t = t + 1;
            proof {
                vstd::arithmetic::div_mod::lemma_mod_bound((probe_pos(hh, bk, (t - 1) as nat)
                    + t * GROUP_WIDTH) as int, bk);
                assert(t <= probe_len(bk - 1)) by (nonlinear_arith)
                    requires
                        (t - 1) * GROUP_WIDTH < bk - 1,
                        probe_len(bk - 1) == (bk - 1 + GROUP_WIDTH - 1) / (GROUP_WIDTH as int),
                        GROUP_WIDTH == 16,
                        t >= 1,
                ;
            }
        }
        proof {
            assert(t * GROUP_WIDTH >= bk - 1);
            assert(t >= probe_len(bk - 1)) by (nonlinear_arith)
                requires
                    t * GROUP_WIDTH >= bk - 1,
                    probe_len(bk - 1) == (bk - 1 + GROUP_WIDTH - 1) / (GROUP_WIDTH as int),
                    GROUP_WIDTH == 16,
            ;
            Self::lemma_absent_exhausted(self, hash, *key, t as nat);
        }
        None
    }

    /// A key findable in this table cannot have been missed by a walk that
    /// cleared every window up to and including one that shows an EMPTY
    /// byte: findability keeps EMPTY out of the windows before the key's.
    proof fn lemma_absent(&self, hash: u64, key: K, t: nat)
        requires
            self.wf(),
            forall|i: int|
                0 <= i < self.spec_buckets() && #[trigger] self.is_bucket_full(i) && self.spec_hash(
                    i,
                ) == hash && self.spec_slot(i)->Some_0.0 == key ==> forall|t2: nat|
                    t2 <= t ==> !in_window(hash as int, self.spec_buckets(), t2, i),
            window_has_empty(self.ctrl@, hash as int, self.spec_buckets(), t),
        ensures
            !self.has_key(hash, key),
    {
        let bk = self.spec_buckets();
        let hh = hash as int;
        if self.has_key(hash, key) {
            let i = choose|i: int|
                0 <= i < bk && #[trigger] self.is_bucket_full(i) && self.spec_hash(i) == hash
                    && self.spec_slot(i)->Some_0.0 == key;
            assert(slot_findable(self.ctrl@, hh, bk, i));
            let ts = choose|ts: nat|
                ts < probe_len(bk - 1) && #[trigger] in_window(hh, bk, ts, i) && (forall|t2: nat|
                    t2 < ts ==> !window_has_empty(self.ctrl@, hh, bk, t2));
            assert(ts > t);
            assert(!window_has_empty(self.ctrl@, hh, bk, t));
        }
    }

    /// A key findable in this table cannot have been missed by a walk that
    /// cleared every window the probe sequence yields.
    proof fn lemma_absent_exhausted(&self, hash: u64, key: K, t: nat)
        requires
            self.wf(),
            forall|i: int|
                0 <= i < self.spec_buckets() && #[trigger] self.is_bucket_full(i) && self.spec_hash(
                    i,
                ) == hash && self.spec_slot(i)->Some_0.0 == key ==> forall|t2: nat|
                    t2 < t ==> !in_window(hash as int, self.spec_buckets(), t2, i),
            t >= probe_len(self.spec_buckets() - 1),
        ensures
            !self.has_key(hash, key),
    {
        let bk = self.spec_buckets();
        let hh = hash as int;
        if self.has_key(hash, key) {
            let i = choose|i: int|
                0 <= i < bk && #[trigger] self.is_bucket_full(i) && self.spec_hash(i) == hash
                    && self.spec_slot(i)->Some_0.0 == key;
            assert(slot_findable(self.ctrl@, hh, bk, i));
            let ts = choose|ts: nat|
                ts < probe_len(bk - 1) && #[trigger] in_window(hh, bk, ts, i) && (forall|t2: nat|
                    t2 < ts ==> !window_has_empty(self.ctrl@, hh, bk, t2));
            assert(ts < t && in_window(hh, bk, ts, i));
        }
    }
}


impl<K: Key, V: Value> RawTable<K, V> {
    /// Everything but the meta stream and dirty counter is as in `other`.
    pub open spec fn same_but_meta(&self, other: &Self) -> bool {
        &&& self.spec_buckets() == other.spec_buckets()
        &&& self.ctrl_stream() == other.ctrl_stream()
        &&& (forall|j: int|
            0 <= j < self.spec_buckets() ==> #[trigger] self.spec_slot(j) == other.spec_slot(j))
        &&& (forall|j: int|
            0 <= j < self.spec_buckets() ==> #[trigger] self.spec_hash(j) == other.spec_hash(j))
        &&& self.spec_items() == other.spec_items()
        &&& self.spec_growth_left() == other.spec_growth_left()
        &&& self.spec_mod_limit() == other.spec_mod_limit()
    }

    /// Looks the key up without dirtying it: on a hit, a clean bucket is
    /// promoted to SAFE_TOUCHED and a dirty bucket is left as it is, so a
    /// read never raises the dirty counter. A `None` means the key is not
    /// resident under this hash.
    pub fn find(&mut self, hash: u64, key: &K) -> (r: Option<Bucket>)
        requires
            old(self).wf(),
        ensures
            final(self).wf(),
            final(self).same_but_meta(old(self)),
            final(self).spec_mod_counter() == old(self).spec_mod_counter(),
            match r {
                Some(b) => {
                    &&& b.index < old(self).spec_buckets()
                    &&& old(self).is_bucket_full(b.index as int)
                    &&& old(self).spec_slot(b.index as int)->Some_0.0 == *key
                    &&& final(self).spec_meta(b.index as int) == (if spec_is_safe(
                        old(self).spec_meta(b.index as int),
                    ) {
                        SAFE_TOUCHED
                    } else {
                        old(self).spec_meta(b.index as int)
                    })
                    &&& forall|j: int|
                        0 <= j < old(self).spec_buckets() && j != b.index
                            ==> final(self).spec_meta(j) == old(self).spec_meta(j)
                },
                None => {
                    &&& *final(self) == *old(self)
                    &&& !old(self).has_key(hash, *key)
                },
            },
    {
        match self.probe_find(hash, key) {
            Some(i) => {
                let ghost pre = *self;
                let m = self.meta[i];
                if is_safe(m) {
                    self.set_meta(i, SAFE_TOUCHED);
                    proof {
                        assert(0x40u8 & 0x80 == 0) by (bit_vector);
                        assert(spec_is_safe(SAFE_TOUCHED) && !spec_is_modified(SAFE_TOUCHED));
                        assert(crate::group::meta_state(SAFE_TOUCHED));
                        Self::lemma_wf_after_meta_change(pre, *self, i as int, SAFE_TOUCHED);
                    }
                }
                Some(Bucket { index: i })
            },
            None => None,
        }
    }

    /// Looks the key up for mutation: on a hit the bucket is stamped
    /// MODIFIED_TOUCHED, and the dirty counter rises when it was clean.
    /// The caller is taken to mutate the value; a read-only caller must
    /// use `find` instead.
    pub fn find_mut(&mut self, hash: u64, key: &K) -> (r: Option<Bucket>)
        requires
            old(self).wf(),
        ensures
            final(self).wf(),
            final(self).same_but_meta(old(self)),
            match r {
                Some(b) => {
                    &&& b.index < old(self).spec_buckets()
                    &&& old(self).is_bucket_full(b.index as int)
                    &&& old(self).spec_slot(b.index as int)->Some_0.0 == *key
                    &&& final(self).spec_meta(b.index as int) == MODIFIED_TOUCHED
                    &&& final(self).spec_mod_counter() == old(self).spec_mod_counter() + (
                    if spec_is_safe(old(self).spec_meta(b.index as int)) {
                        1int
                    } else {
                        0int
                    })
                    &&& forall|j: int|
                        0 <= j < old(self).spec_buckets() && j != b.index
                            ==> final(self).spec_meta(j) == old(self).spec_meta(j)
                },
                None => {
                    &&& *final(self) == *old(self)
                    &&& !old(self).has_key(hash, *key)
                },
            },
    {
        match self.probe_find(hash, key) {
            Some(i) => {
                let ghost pre = *self;
                let m = self.meta[i];
                if is_safe(m) {
                    proof {
                        lemma_count_bounds(self.meta@, dirty_pred(), self.spec_buckets());
                    }
                    self.mod_counter = self.mod_counter + 1;
                }
                self.set_meta(i, MODIFIED_TOUCHED);
                proof {
                    assert(0xc0u8 & 0x80 != 0) by (bit_vector);
                    assert(!spec_is_safe(MODIFIED_TOUCHED) && spec_is_modified(MODIFIED_TOUCHED));
                    assert(crate::group::meta_state(MODIFIED_TOUCHED));
                    Self::lemma_wf_after_meta_change(
                        pre,
                        *self,
                        i as int,
                        MODIFIED_TOUCHED,
                    );
                }
                Some(Bucket { index: i })
            },
            None => None,
        }
    }

    /// Replaces the value of a resident bucket in place, handing the old
    /// value back; key, control byte and meta byte stay as they are.
    pub fn replace_value(&mut self, index: usize, value: V) -> (r: V)
        requires
            old(self).wf(),
            index < old(self).spec_buckets(),
            old(self).is_bucket_full(index as int),
        ensures
            final(self).wf(),
            r == old(self).spec_slot(index as int)->Some_0.1,
            final(self).spec_slot(index as int) == Some(
                (old(self).spec_slot(index as int)->Some_0.0, value),
            ),
            forall|j: int|
                0 <= j < old(self).spec_buckets() && j != index
                    ==> #[trigger] final(self).spec_slot(j) == old(self).spec_slot(j),
            final(self).ctrl_stream() == old(self).ctrl_stream(),
            final(self).meta_stream() == old(self).meta_stream(),
            final(self).spec_buckets() == old(self).spec_buckets(),
            forall|j: int|
                0 <= j < old(self).spec_buckets()
                    ==> #[trigger] final(self).spec_hash(j) == old(self).spec_hash(j),
            final(self).spec_items() == old(self).spec_items(),
            final(self).spec_growth_left() == old(self).spec_growth_left(),
            final(self).spec_mod_counter() == old(self).spec_mod_counter(),
            final(self).spec_mod_limit() == old(self).spec_mod_limit(),
    {
        let (k, old_v) = match &self.slots[index] {
            Some(p) => (p.0.key_clone(), p.1.val_clone()),
            None => {
                proof {
                    assert(false);
                }
                vstd::pervasive::unreached()
            },
        };
        let ghost pre = *self;
        self.slots.set(index, Some((k, value)));
        proof {
            let bk = self.spec_buckets();
            assert forall|i: int|
                0 <= i < bk && spec_is_full(#[trigger] self.spec_ctrl(i)) implies self.spec_ctrl(i)
                == spec_h2(self.spec_hash(i)) && slot_findable(
                self.ctrl@,
                self.spec_hash(i) as int,
                bk,
                i,
            ) by {
                assert(self.spec_ctrl(i) == pre.spec_ctrl(i));
                assert(spec_is_full(pre.spec_ctrl(i)));
                assert(pre.spec_ctrl(i) == spec_h2(pre.spec_hash(i)) && slot_findable(
                    pre.ctrl@,
                    pre.spec_hash(i) as int,
                    bk,
                    i,
                ));
            }
            assert forall|i: int|
                0 <= i < bk implies ((#[trigger] self.spec_slot(i)) is Some == spec_is_full(
                self.spec_ctrl(i),
            )) by {
                if i != index {
                    assert(self.spec_slot(i) == pre.spec_slot(i));
                }
            }
            assert forall|i: int|
                0 <= i < bk implies crate::group::meta_state(#[trigger] self.spec_meta(i)) by {
                assert(self.spec_meta(i) == pre.spec_meta(i));
            }
            assert forall|i: int|
                0 <= i < bk && !spec_is_full(#[trigger] self.spec_ctrl(i)) implies spec_is_safe(
                self.spec_meta(i),
            ) by {
                assert(self.spec_ctrl(i) == pre.spec_ctrl(i));
                assert(self.spec_meta(i) == pre.spec_meta(i));
            }
            assert forall|i: int|
                0 <= i < bk implies ((#[trigger] self.spec_ctrl(i)) == EMPTY || self.spec_ctrl(i)
                == DELETED || spec_is_full(self.spec_ctrl(i))) by {
                assert(self.spec_ctrl(i) == pre.spec_ctrl(i));
            }
        }
        old_v
    }
}


impl<K: Key, V: Value> RawTable<K, V> {
    /// Re-establishes well-formedness after rewriting the meta byte of one
    /// resident-or-clean bucket.
    proof fn lemma_wf_after_meta_change(pre: Self, post: Self, i: int, byte: u8)
        requires
            pre.wf(),
            0 <= i < pre.spec_buckets(),
            post.bucket_mask == pre.bucket_mask,
            post.ctrl@ == pre.ctrl@,
            post.slots@ == pre.slots@,
            post.hashes@ == pre.hashes@,
            post.meta@.len() == pre.meta@.len(),
            replicated(post.meta@, post.spec_buckets(), SAFE),
            forall|j: int|
                0 <= j < post.spec_buckets() ==> #[trigger] post.meta@[j] == (if j == i {
                    byte
                } else {
                    pre.meta@[j]
                }),
            crate::group::meta_state(byte),
            spec_is_full(pre.spec_ctrl(i)) || spec_is_safe(byte),
            post.items == pre.items,
            post.growth_left == pre.growth_left,
            post.mod_counter == pre.mod_counter + (if spec_is_modified(byte) {
                1int
            } else {
                0int
            }) - (if spec_is_modified(pre.meta@[i]) {
                1int
            } else {
                0int
            }),
        ensures
            post.wf(),
    {
        let bk = post.spec_buckets();
        assert(count_byte_if(post.ctrl@, full_pred(), bk) == count_byte_if(
            pre.ctrl@,
            full_pred(),
            bk,
        ));
        assert(count_byte_if(post.ctrl@, deleted_pred(), bk) == count_byte_if(
            pre.ctrl@,
            deleted_pred(),
            bk,
        ));
        assert forall|j: int|
            0 <= j < bk implies ((#[trigger] post.spec_ctrl(j)) == EMPTY || post.spec_ctrl(j)
            == DELETED || spec_is_full(post.spec_ctrl(j))) by {
            assert(post.spec_ctrl(j) == pre.spec_ctrl(j));
        }
        assert forall|j: int|
            0 <= j < bk && j != i implies pre.meta@[j] == post.meta@[j] by {}
        lemma_count_update(pre.meta@, post.meta@, dirty_pred(), bk, i);
        assert forall|j: int|
            0 <= j < bk implies crate::group::meta_state(#[trigger] post.spec_meta(j)) by {
            if j != i {
                assert(post.spec_meta(j) == pre.spec_meta(j));
            }
        }
        assert forall|j: int|
            0 <= j < bk && !spec_is_full(#[trigger] post.spec_ctrl(j)) implies spec_is_safe(
            post.spec_meta(j),
        ) by {
            assert(post.spec_ctrl(j) == pre.spec_ctrl(j));
            if j != i {
                assert(post.spec_meta(j) == pre.spec_meta(j));
            }
        }
        assert forall|i: int|
            0 <= i < bk && spec_is_full(#[trigger] post.spec_ctrl(i)) implies post.spec_ctrl(i)
            == spec_h2(post.spec_hash(i)) && slot_findable(
            post.ctrl@,
            post.spec_hash(i) as int,
            bk,
            i,
        ) by {
            assert(post.spec_ctrl(i) == pre.spec_ctrl(i));
            assert(post.spec_hash(i) == pre.spec_hash(i));
            assert(pre.spec_ctrl(i) == spec_h2(pre.spec_hash(i)) && slot_findable(
                pre.ctrl@,
                pre.spec_hash(i) as int,
                bk,
                i,
            ));
        }
        assert forall|i: int|
            0 <= i < bk implies ((#[trigger] post.spec_slot(i)) is Some == spec_is_full(
            post.spec_ctrl(i),
        )) by {
            assert(post.spec_slot(i) == pre.spec_slot(i));
            assert(post.spec_ctrl(i) == pre.spec_ctrl(i));
        }
    }
}


/// In a table of at least one group, a physical byte equals the logical
/// byte of the slot it denotes.
pub proof fn lemma_phys_to_log(s: Seq<u8>, buckets: int, fill: u8, j: int)
    requires
        is_pow2(buckets),
        GROUP_WIDTH <= buckets <= 0x4000_0000,
        s.len() == buckets + GROUP_WIDTH,
        replicated(s, buckets, fill),
        0 <= j < buckets + GROUP_WIDTH,
    ensures
        s[j] == s[j % buckets],
{
    if j < buckets {
        vstd::arithmetic::div_mod::lemma_small_mod(j as nat, buckets as nat);
    } else {
        assert(s[j] == s[j - buckets]);
        vstd::arithmetic::div_mod::lemma_mod_multiples_vanish(1, j - buckets, buckets);
        assert(buckets * 1 + (j - buckets) == j);
        vstd::arithmetic::div_mod::lemma_small_mod((j - buckets) as nat, buckets as nat);
    }
}

/// Shifting within a window commutes with reduction modulo the table size.
proof fn lemma_mod_shift(p: int, d: int, delta: int, bk: int, i: int)
    requires
        bk >= 1,
        i == (p + d) % bk,
    ensures
        (p + d + delta) % bk == (i + delta) % bk,
{
    vstd::arithmetic::div_mod::lemma_fundamental_div_mod(p + d, bk);
    let q = (p + d) / bk;
    vstd::arithmetic::div_mod::lemma_mod_multiples_vanish(q, i + delta, bk);
    assert(bk * q + (i + delta) == p + d + delta);
}

/// The run of non-EMPTY bytes reading upward from `pos` has length `tz`.
pub open spec fn run_low_char(s: Seq<u8>, pos: int, tz: int) -> bool {
    &&& 0 <= tz <= GROUP_WIDTH
    &&& (forall|m: int| 0 <= m < tz ==> s[#[trigger] (pos + m)] != EMPTY)
    &&& (tz < GROUP_WIDTH ==> s[pos + tz] == EMPTY)
}

/// The run of non-EMPTY bytes reading downward from the top of the window
/// at `pos` has length `lz`.
pub open spec fn run_high_char(s: Seq<u8>, pos: int, lz: int) -> bool {
    &&& 0 <= lz <= GROUP_WIDTH
    &&& (forall|m: int|
        GROUP_WIDTH - lz <= m < GROUP_WIDTH ==> s[#[trigger] (pos + m)] != EMPTY)
    &&& (lz < GROUP_WIDTH ==> s[pos + GROUP_WIDTH - 1 - lz] == EMPTY)
}

/// Start of the window that ends at `i`: one group below it, wrapped.
pub open spec fn before_pos(bk: int, i: int) -> int {
    if bk >= GROUP_WIDTH {
        if i >= GROUP_WIDTH {
            i - GROUP_WIDTH
        } else {
            i + bk - GROUP_WIDTH
        }
    } else {
        i
    }
}

/// The erased slot turns DELETED exactly when the runs of non-EMPTY bytes
/// around it span a full group, so that some probe window over it shows
/// no EMPTY byte.
pub open spec fn erase_rule_deleted(s: Seq<u8>, bk: int, i: int) -> bool {
    exists|lz: int, tz: int|
        #[trigger] run_high_char(s, before_pos(bk, i), lz) && #[trigger] run_low_char(s, i, tz)
            && lz + tz >= GROUP_WIDTH
}

/// When the non-EMPTY runs around `i` fall short of a group, every probe
/// window that scans `i` already shows an EMPTY byte somewhere else, so
/// erasing `i` to EMPTY creates no EMPTY in a window that had none.
proof fn lemma_short_run_window_empty(
    ctrl: Seq<u8>,
    bk: int,
    i: int,
    lz: int,
    tz: int,
    h: int,
    t: nat,
)
    requires
        is_pow2(bk),
        GROUP_WIDTH <= bk <= 0x4000_0000,
        ctrl.len() == bk + GROUP_WIDTH,
        0 <= i < bk,
        0 <= lz,
        1 <= tz,
        lz + tz < GROUP_WIDTH,
        forall|m: int| 0 <= m < tz ==> ctrl[#[trigger] ((i + m) % bk)] != EMPTY,
        ctrl[(i + tz) % bk] == EMPTY,
        ctrl[(i - 1 - lz) % bk] == EMPTY,
        h >= 0,
        in_window(h, bk, t, i),
    ensures
        window_has_empty(ctrl, h, bk, t),
{
    let gw = GROUP_WIDTH as int;
    let p = probe_pos(h, bk, t);
    crate::probe::lemma_probe_pos_bound(h, bk, t);
    let d = choose|d: int| 0 <= d < gw && i == #[trigger] window_slot(h, bk, t, d);
    if d <= lz {
        let e_off = d + tz;
        lemma_mod_shift(p, d, tz, bk, i);
        assert(window_slot(h, bk, t, e_off) == (i + tz) % bk);
        vstd::arithmetic::div_mod::lemma_mod_bound(i + tz, bk);
        assert(ctrl[window_slot(h, bk, t, e_off)] == EMPTY);
    } else {
        let e_off = d - 1 - lz;
        lemma_mod_shift(p, d, -1 - lz, bk, i);
        assert(window_slot(h, bk, t, e_off) == (i - 1 - lz) % bk);
        vstd::arithmetic::div_mod::lemma_mod_bound(i - 1 - lz, bk);
        assert(ctrl[window_slot(h, bk, t, e_off)] == EMPTY);
    }
}

impl<K: Key, V: Value> RawTable<K, V> {
    /// Erases bucket `i`: the slot is dropped, the control byte falls to
    /// DELETED inside a fully occupied probe run and to EMPTY otherwise,
    /// and the meta byte is left for the caller. Resident buckets stay
    /// findable either way.
    fn erase_inner(&mut self, i: usize)
        requires
            old(self).wf(),
            i < old(self).spec_buckets(),
            old(self).is_bucket_full(i as int),
        ensures
            final(self).shape(),
            final(self).bucket_mask == old(self).bucket_mask,
            replicated(final(self).ctrl@, final(self).spec_buckets(), EMPTY),
            final(self).ctrl@.len() == old(self).ctrl@.len(),
            forall|j: int|
                0 <= j < final(self).spec_buckets() ==> #[trigger] final(self).ctrl@[j] == (
                if j == i {
                    if erase_rule_deleted(old(self).ctrl@, old(self).spec_buckets(), i as int) {
                        DELETED
                    } else {
                        EMPTY
                    }
                } else {
                    old(self).ctrl@[j]
                }),
            final(self).meta@ == old(self).meta@,
            forall|j: int|
                0 <= j < final(self).spec_buckets() ==> #[trigger] final(self).spec_slot(j) == (
                if j == i {
                    None
                } else {
                    old(self).spec_slot(j)
                }),
            final(self).hashes@ == old(self).hashes@,
            final(self).spec_items() == old(self).spec_items() - 1,
            final(self).spec_growth_left() == old(self).spec_growth_left() + (
            if erase_rule_deleted(old(self).ctrl@, old(self).spec_buckets(), i as int) {
                0int
            } else {
                1int
            }),
            final(self).mod_counter == old(self).mod_counter,
            final(self).mod_limit == old(self).mod_limit,
            final(self).spec_items() == count_byte_if(
                final(self).ctrl@,
                full_pred(),
                final(self).spec_buckets(),
            ),
            final(self).spec_items() + final(self).spec_growth_left() + count_byte_if(
                final(self).ctrl@,
                deleted_pred(),
                final(self).spec_buckets(),
            ) <= final(self).spec_buckets(),
            forall|j: int|
                0 <= j < final(self).spec_buckets() ==> (#[trigger] final(self).spec_ctrl(j))
                    == EMPTY || final(self).spec_ctrl(j) == DELETED || spec_is_full(
                    final(self).spec_ctrl(j),
                ),
            forall|j: int|
                0 <= j < final(self).spec_buckets() && j != i && spec_is_full(
                    #[trigger] final(self).spec_ctrl(j),
                ) ==> final(self).spec_ctrl(j) == spec_h2(final(self).spec_hash(j))
                    && slot_findable(
                    final(self).ctrl@,
                    final(self).spec_hash(j) as int,
                    final(self).spec_buckets(),
                    j,
                ),
    {
        let ghost pre = *self;
        let buckets = self.bucket_mask + 1;
        let ghost bk = buckets as int;
        let index_before: usize = if buckets >= GROUP_WIDTH {
            if i >= GROUP_WIDTH {
                i - GROUP_WIDTH
            } else {
                i + buckets - GROUP_WIDTH
            }
        } else {
            i
        };
        let lz = group_nonempty_run_high(&self.ctrl, index_before);
        let tz = group_nonempty_run_low(&self.ctrl, i);
        proof {
            assert(run_high_char(pre.ctrl@, index_before as int, lz as int));
            assert(run_low_char(pre.ctrl@, i as int, tz as int));
            assert(pre.ctrl@[i as int] != EMPTY) by {
                assert(spec_is_full(pre.spec_ctrl(i as int)));
                assert(!spec_is_full(EMPTY)) by (bit_vector);
            };
            assert(tz >= 1);
        }
        let deleted = lz + tz >= GROUP_WIDTH;
        proof {
            assert(index_before as int == before_pos(bk, i as int));
            assert(run_high_char(pre.ctrl@, before_pos(bk, i as int), lz as int));
            if deleted {
                assert(erase_rule_deleted(pre.ctrl@, bk, i as int));
            } else {
                if erase_rule_deleted(pre.ctrl@, bk, i as int) {
                    let (lz2, tz2): (int, int) = choose|lz2: int, tz2: int|
                        #[trigger] run_high_char(pre.ctrl@, before_pos(bk, i as int), lz2)
                            && #[trigger] run_low_char(pre.ctrl@, i as int, tz2) && lz2 + tz2
                            >= GROUP_WIDTH;
                    // the characterizations pin the run lengths down
                    Self::lemma_run_low_unique(pre.ctrl@, i as int, tz as int, tz2);
                    Self::lemma_run_high_unique(
                        pre.ctrl@,
                        index_before as int,
                        lz as int,
                        lz2,
                    );
                }
            }
        }
        if deleted {
            self.set_ctrl(i, DELETED);
        } else {
            proof {
                lemma_count_bounds(self.ctrl@, deleted_pred(), bk);
                lemma_count_bounds(self.ctrl@, full_pred(), bk);
                crate::group::lemma_capacity_below_buckets(self.spec_bucket_mask());
            }
            self.growth_left = self.growth_left + 1;
            self.set_ctrl(i, EMPTY);
        }
        self.slots.set(i, None);
        proof {
            lemma_count_at_least_one(pre.ctrl@, full_pred(), bk, i as int);
            assert(pre.spec_items() >= 1);
        }
        self.items = self.items - 1;
        proof {
            assert forall|j: int|
                0 <= j < bk implies ((#[trigger] self.spec_ctrl(j)) == EMPTY || self.spec_ctrl(j)
                == DELETED || spec_is_full(self.spec_ctrl(j))) by {
                if j != i {
                    assert(self.spec_ctrl(j) == pre.spec_ctrl(j));
                }
            }
            assert forall|j: int|
                0 <= j < bk && j != i implies pre.ctrl@[j] == self.ctrl@[j] by {}
            lemma_count_update(pre.ctrl@, self.ctrl@, full_pred(), bk, i as int);
            lemma_count_update(pre.ctrl@, self.ctrl@, deleted_pred(), bk, i as int);
            assert(!spec_is_full(EMPTY) && !spec_is_full(DELETED)) by (bit_vector);
            // findability of the remaining resident buckets
            assert forall|j: int|
                0 <= j < bk && j != i && spec_is_full(#[trigger] self.spec_ctrl(j))
                    implies self.spec_ctrl(j) == spec_h2(self.spec_hash(j)) && slot_findable(
                self.ctrl@,
                self.spec_hash(j) as int,
                bk,
                j,
            ) by {
                assert(self.spec_ctrl(j) == pre.spec_ctrl(j));
                assert(spec_is_full(pre.spec_ctrl(j)));
                let hj = pre.spec_hash(j) as int;
                assert(slot_findable(pre.ctrl@, hj, bk, j));
                let ts = choose|ts: nat|
                    ts < probe_len(bk - 1) && #[trigger] in_window(hj, bk, ts, j) && (forall|
                        t2: nat,
                    |
                        t2 < ts ==> !window_has_empty(pre.ctrl@, hj, bk, t2));
                assert forall|t2: nat| t2 < ts implies !window_has_empty(
                    self.ctrl@,
                    hj,
                    bk,
                    t2,
                ) by {
                    if window_has_empty(self.ctrl@, hj, bk, t2) {
                        let b = choose|b: int|
                            0 <= b < GROUP_WIDTH && self.ctrl@[#[trigger] window_slot(
                                hj,
                                bk,
                                t2,
                                b,
                            )] == EMPTY;
                        let ws = window_slot(hj, bk, t2, b);
                        vstd::arithmetic::div_mod::lemma_mod_bound(
                            probe_pos(hj, bk, t2) + b,
                            bk,
                        );
                        crate::probe::lemma_probe_pos_bound(hj, bk, t2);
                        if ws != i {
                            assert(pre.ctrl@[ws] == EMPTY);
                            assert(window_has_empty(pre.ctrl@, hj, bk, t2));
                        } else {
                            // the erased slot: its runs were short, so this
                            // window already had an EMPTY byte elsewhere
                            assert(!deleted);
                            assert(bk >= GROUP_WIDTH) by {
                                if bk < GROUP_WIDTH {
                                    assert(probe_len(bk - 1) <= 1);
                                }
                            };
                            Self::lemma_runs_to_logical(
                                pre.ctrl@,
                                bk,
                                i as int,
                                index_before as int,
                                lz as int,
                                tz as int,
                            );
                            assert(in_window(hj, bk, t2, i as int));
                            lemma_short_run_window_empty(
                                pre.ctrl@,
                                bk,
                                i as int,
                                lz as int,
                                tz as int,
                                hj,
                                t2,
                            );
                            assert(window_has_empty(pre.ctrl@, hj, bk, t2));
                        }
                        assert(!window_has_empty(pre.ctrl@, hj, bk, t2));
                    }
                }
                assert(in_window(hj, bk, ts, j));
                assert(slot_findable(self.ctrl@, hj, bk, j));
            }
        }
    }

    /// Run-length characterizations are unique.
    proof fn lemma_run_low_unique(s: Seq<u8>, pos: int, a: int, b: int)
        requires
            run_low_char(s, pos, a),
            run_low_char(s, pos, b),
        ensures
            a == b,
    {
        if a < b {
            assert(s[pos + a] == EMPTY);
            assert(s[pos + a] != EMPTY);
        }
        if b < a {
            assert(s[pos + b] == EMPTY);
            assert(s[pos + b] != EMPTY);
        }
    }

    proof fn lemma_run_high_unique(s: Seq<u8>, pos: int, a: int, b: int)
        requires
            run_high_char(s, pos, a),
            run_high_char(s, pos, b),
        ensures
            a == b,
    {
        if a < b {
            let m: int = GROUP_WIDTH - 1 - a;
            assert(GROUP_WIDTH - b <= m < GROUP_WIDTH);
            assert(s[pos + m] == EMPTY);
            assert(s[pos + m] != EMPTY);
        }
        if b < a {
            let m: int = GROUP_WIDTH - 1 - b;
            assert(GROUP_WIDTH - a <= m < GROUP_WIDTH);
            assert(s[pos + m] == EMPTY);
            assert(s[pos + m] != EMPTY);
        }
    }

    /// Converts the physical run characterizations of the erase scan into
    /// the logical facts the window argument needs, for tables of at
    /// least one group.
    proof fn lemma_runs_to_logical(
        ctrl: Seq<u8>,
        bk: int,
        i: int,
        ib: int,
        lz: int,
        tz: int,
    )
        requires
            is_pow2(bk),
            GROUP_WIDTH <= bk <= 0x4000_0000,
            ctrl.len() == bk + GROUP_WIDTH,
            replicated(ctrl, bk, EMPTY),
            0 <= i < bk,
            ib == before_pos(bk, i),
            run_high_char(ctrl, ib, lz),
            run_low_char(ctrl, i, tz),
            0 <= lz <= GROUP_WIDTH,
            0 <= tz < GROUP_WIDTH,
            lz < GROUP_WIDTH,
        ensures
            forall|m: int| 0 <= m < tz ==> ctrl[#[trigger] ((i + m) % bk)] != EMPTY,
            ctrl[(i + tz) % bk] == EMPTY,
            ctrl[(i - 1 - lz) % bk] == EMPTY,
    {
        let gw = GROUP_WIDTH as int;
        assert forall|m: int| 0 <= m < tz implies ctrl[#[trigger] ((i + m) % bk)] != EMPTY by {
            lemma_phys_to_log(ctrl, bk, EMPTY, i + m);
            assert(ctrl[i + m] != EMPTY);
        }
        lemma_phys_to_log(ctrl, bk, EMPTY, i + tz);
        // the high run sits just below `i` once positions are reduced
        let top = ib + gw - 1 - lz;
        lemma_phys_to_log(ctrl, bk, EMPTY, top);
        assert(ctrl[top] == EMPTY);
        assert(top % bk == (i - 1 - lz) % bk) by {
            if i >= gw {
                assert(top == i - 1 - lz);
            } else {
                assert(top == i + bk - 1 - lz);
                vstd::arithmetic::div_mod::lemma_mod_multiples_vanish(1, i - 1 - lz, bk);
                assert(bk * 1 + (i - 1 - lz) == top);
            }
        };
    }
}


/// A physical byte of a replicated stream is either the filler byte or
/// the logical byte of the slot it denotes.
pub proof fn lemma_phys_byte(s: Seq<u8>, buckets: int, fill: u8, j: int)
    requires
        is_pow2(buckets),
        1 <= buckets <= 0x4000_0000,
        s.len() == buckets + GROUP_WIDTH,
        replicated(s, buckets, fill),
        0 <= j < buckets + GROUP_WIDTH,
    ensures
        s[j] == fill || s[j] == s[j % buckets],
{
    let gw = GROUP_WIDTH as int;
    if j < buckets {
        vstd::arithmetic::div_mod::lemma_small_mod(j as nat, buckets as nat);
    } else if buckets >= gw {
        lemma_phys_to_log(s, buckets, fill, j);
    } else {
        if j < gw {
            assert(s[j] == fill);
        } else {
            assert(s[j] == s[j - gw]);
            lemma_small_pow2(buckets);
            vstd::arithmetic::div_mod::lemma_fundamental_div_mod(16, buckets);
            let m = 16int / buckets;
            vstd::arithmetic::div_mod::lemma_mod_multiples_vanish(m, j - gw, buckets);
            assert(buckets * m + (j - gw) == j);
            vstd::arithmetic::div_mod::lemma_small_mod((j - gw) as nat, buckets as nat);
        }
    }
}

impl<K: Key, V: Value> RawTable<K, V> {
    /// Erases a clean resident bucket by index. Inside a fully occupied
    /// probe run the control byte falls to DELETED so later lookups keep
    /// probing past it; otherwise it falls back to EMPTY and the freed
    /// slot returns to the growth budget.
    pub fn erase_by_index(&mut self, index: usize)
        requires
            old(self).wf(),
            index < old(self).spec_buckets(),
            old(self).is_bucket_full(index as int),
            spec_is_safe(old(self).spec_meta(index as int)),
        ensures
            final(self).wf(),
            final(self).spec_buckets() == old(self).spec_buckets(),
            final(self).spec_items() == old(self).spec_items() - 1,
            final(self).spec_mod_counter() == old(self).spec_mod_counter(),
            final(self).spec_mod_limit() == old(self).spec_mod_limit(),
            final(self).spec_slot(index as int) is None,
            final(self).spec_ctrl(index as int) == (if erase_rule_deleted(
                old(self).ctrl_stream(),
                old(self).spec_buckets(),
                index as int,
            ) {
                DELETED
            } else {
                EMPTY
            }),
            final(self).spec_growth_left() == old(self).spec_growth_left() + (
            if erase_rule_deleted(old(self).ctrl_stream(), old(self).spec_buckets(), index as int) {
                0int
            } else {
                1int
            }),
            forall|j: int|
                0 <= j < old(self).spec_buckets() && j != index
                    ==> #[trigger] final(self).spec_slot(j) == old(self).spec_slot(j)
                    && final(self).spec_ctrl(j) == old(self).spec_ctrl(j)
                    && final(self).spec_meta(j) == old(self).spec_meta(j)
                    && final(self).spec_hash(j) == old(self).spec_hash(j),
    {
        let ghost pre = *self;
        self.erase_inner(index);
        proof {
            crate::group::lemma_byte_values();
            let bk = self.spec_buckets();
            assert forall|j: int|
                0 <= j < bk && j != index implies pre.meta@[j] == self.meta@[j] by {}
            assert forall|j: int|
                0 <= j < bk implies crate::group::meta_state(#[trigger] self.spec_meta(j)) by {
                assert(self.spec_meta(j) == pre.spec_meta(j));
            }
            assert forall|j: int|
                0 <= j < bk && !spec_is_full(#[trigger] self.spec_ctrl(j)) implies spec_is_safe(
                self.spec_meta(j),
            ) by {
                assert(self.spec_meta(j) == pre.spec_meta(j));
                if j != index {
                    assert(self.spec_ctrl(j) == pre.spec_ctrl(j));
                }
            }
            assert(count_byte_if(self.meta@, dirty_pred(), bk) == count_byte_if(
                pre.meta@,
                dirty_pred(),
                bk,
            ));
            assert forall|j: int|
                0 <= j < bk implies ((#[trigger] self.spec_slot(j)) is Some == spec_is_full(
                self.spec_ctrl(j),
            )) by {
                if j != index {
                    assert(self.spec_slot(j) == pre.spec_slot(j));
                    assert(self.spec_ctrl(j) == pre.spec_ctrl(j));
                }
            }
            assert(!spec_is_full(EMPTY) && !spec_is_full(DELETED)) by (bit_vector);
        }
    }

    /// Makes room for an insertion whose probe starts at `hash` by erasing
    /// one clean resident bucket from the hash's probe windows — a victim
    /// the durable store already holds, so nothing is lost. Prefers cold
    /// (untouched) clean buckets to hot ones within each window. Returns
    /// whether a victim was found; when it reports `false` every resident
    /// bucket is dirty and the table is left untouched.
    #[verifier::loop_isolation(false)]
    pub fn clear_safe_bucket(&mut self, hash: u64) -> (cleared: bool)
        requires
            old(self).wf(),
        ensures
            final(self).wf(),
            final(self).spec_buckets() == old(self).spec_buckets(),
            final(self).spec_mod_limit() == old(self).spec_mod_limit(),
            !cleared ==> *final(self) == *old(self) && (forall|j: int|
                0 <= j < old(self).spec_buckets() && #[trigger] old(self).is_bucket_full(j)
                    ==> spec_is_modified(old(self).spec_meta(j))),
            cleared ==> exists|v: int|
                {
                    &&& 0 <= v < old(self).spec_buckets()
                    &&& #[trigger] old(self).is_bucket_full(v)
                    &&& spec_is_safe(old(self).spec_meta(v))
                    &&& (exists|tw: nat|
                        tw < probe_len(old(self).spec_buckets() - 1) && #[trigger] in_window(
                            hash as int,
                            old(self).spec_buckets(),
                            tw,
                            v,
                        ) && (forall|t2: nat, j: int|
                            t2 < tw && 0 <= j < old(self).spec_buckets() && old(
                                self,
                            ).is_bucket_full(j) && spec_is_safe(old(self).spec_meta(j)) ==> !(
                            #[trigger] in_window(hash as int, old(self).spec_buckets(), t2, j)))
                            && (old(self).spec_meta(v) == SAFE_TOUCHED ==> forall|j: int|
                            0 <= j < old(self).spec_buckets() && old(self).is_bucket_full(j)
                                && old(self).spec_meta(j) == SAFE ==> !in_window(
                                hash as int,
                                old(self).spec_buckets(),
                                tw,
                                j,
                            )))
                    &&& final(self).spec_slot(v) is None
                    &&& final(self).spec_meta(v) == SAFE
                    &&& final(self).spec_items() == old(self).spec_items() - 1
                    &&& final(self).spec_mod_counter() == old(self).spec_mod_counter()
                    &&& final(self).spec_ctrl(v) == (if erase_rule_deleted(
                        old(self).ctrl_stream(),
                        old(self).spec_buckets(),
                        v,
                    ) {
                        DELETED
                    } else {
                        EMPTY
                    })
                    &&& final(self).spec_growth_left() == old(self).spec_growth_left() + (
                    if erase_rule_deleted(old(self).ctrl_stream(), old(self).spec_buckets(), v) {
                        0int
                    } else {
                        1int
                    })
                    &&& (forall|j: int|
                        0 <= j < old(self).spec_buckets() && j != v
                            ==> #[trigger] final(self).spec_slot(j) == old(self).spec_slot(j)
                            && final(self).spec_meta(j) == old(self).spec_meta(j)
                            && final(self).spec_hash(j) == old(self).spec_hash(j))
                },
    {
        let ghost orig = *self;
        let buckets = self.bucket_mask + 1;
        let ghost bk = buckets as int;
        let ghost hh = hash as int;
        let mut pos: usize = (hash % (buckets as u64)) as usize;
        let mut stride: usize = 0;
        let mut t: usize = 0;
        proof {
            vstd::arithmetic::div_mod::lemma_mod_bound(hh, bk);
        }
        while stride < self.bucket_mask
            invariant
                self.wf(),
                *self == orig,
                buckets == self.spec_buckets(),
                bk == buckets as int,
                hh == hash as int,
                stride == t * GROUP_WIDTH,
                t <= probe_len(bk - 1),
                pos == probe_pos(hh, bk, t as nat),
                pos < buckets,
                forall|j: int|
                    0 <= j < bk && #[trigger] self.is_bucket_full(j) && spec_is_safe(
                        self.spec_meta(j),
                    ) ==> forall|t2: nat| t2 < t ==> !in_window(hh, bk, t2, j),
            decreases bk + GROUP_WIDTH - stride,
        {
            let ghost tn = t as nat;
            if let Some(v) = self.scan_clean_victim(pos, hash, t) {
                proof {
                    assert(orig.is_bucket_full(v as int));
                }
                self.erase_inner(v);
                let ghost mid = *self;
                self.set_meta(v, SAFE);
                proof {
                    crate::group::lemma_byte_values();
                    assert(crate::group::meta_state(SAFE));
                    assert forall|j: int|
                        0 <= j < bk && j != v implies orig.meta@[j] == self.meta@[j] by {}
                    lemma_count_update(orig.meta@, self.meta@, dirty_pred(), bk, v as int);
                    assert forall|j: int|
                        0 <= j < bk implies crate::group::meta_state(
                        #[trigger] self.spec_meta(j),
                    ) by {
                        if j != v {
                            assert(self.spec_meta(j) == orig.spec_meta(j));
                        }
                    }
                    assert forall|j: int|
                        0 <= j < bk && !spec_is_full(#[trigger] self.spec_ctrl(j))
                            implies spec_is_safe(self.spec_meta(j)) by {
                        if j != v {
                            assert(self.spec_meta(j) == orig.spec_meta(j));
                            assert(self.spec_ctrl(j) == mid.spec_ctrl(j));
                            assert(mid.ctrl@[j] == orig.ctrl@[j]);
                            assert(!spec_is_full(orig.spec_ctrl(j)));
                        } else {
                            assert(self.spec_meta(j) == SAFE);
                        }
                    }
                    assert forall|j: int|
                        0 <= j < bk implies ((#[trigger] self.spec_slot(j)) is Some
                        == spec_is_full(self.spec_ctrl(j))) by {
                        assert(self.spec_ctrl(j) == mid.spec_ctrl(j));
                        assert(self.spec_slot(j) == mid.spec_slot(j));
                        if j != v {
                            assert(mid.spec_slot(j) == orig.spec_slot(j));
                            assert(mid.ctrl@[j] == orig.ctrl@[j]);
                        } else {
                            assert(mid.spec_slot(j) is None);
                        }
                    }
                    assert forall|j: int|
                        0 <= j < bk && spec_is_full(#[trigger] self.spec_ctrl(j))
                            implies self.spec_ctrl(j) == spec_h2(self.spec_hash(j))
                        && slot_findable(self.ctrl@, self.spec_hash(j) as int, bk, j) by {
                        assert(self.spec_ctrl(j) == mid.spec_ctrl(j));
                        assert(j != v) by {
                            assert(!spec_is_full(mid.spec_ctrl(v as int))) by {
                                assert(!spec_is_full(EMPTY) && !spec_is_full(DELETED))
                                    by (bit_vector);
                            };
                        };
                        assert(mid.spec_ctrl(j) == spec_h2(mid.spec_hash(j)) && slot_findable(
                            mid.ctrl@,
                            mid.spec_hash(j) as int,
                            bk,
                            j,
                        ));
                    }
                    assert(count_byte_if(self.ctrl@, full_pred(), bk) == count_byte_if(
                        mid.ctrl@,
                        full_pred(),
                        bk,
                    ));
                    assert(count_byte_if(self.ctrl@, deleted_pred(), bk) == count_byte_if(
                        mid.ctrl@,
                        deleted_pred(),
                        bk,
                    ));
                    assert forall|j: int|
                        0 <= j < bk implies ((#[trigger] self.spec_ctrl(j)) == EMPTY
                        || self.spec_ctrl(j) == DELETED || spec_is_full(self.spec_ctrl(j))) by {
                        assert(self.spec_ctrl(j) == mid.spec_ctrl(j));
                    }
                    assert(self.bucket_mask == orig.bucket_mask && self.mod_limit
                        == orig.mod_limit);
                    assert(tn < probe_len(bk - 1)) by (nonlinear_arith)
                        requires
                            tn == t,
                            t * GROUP_WIDTH < bk - 1,
                            probe_len(bk - 1) == (bk - 1 + GROUP_WIDTH - 1) / (
                            GROUP_WIDTH as int),
                            GROUP_WIDTH == 16,
                    ;
                    assert(in_window(hh, bk, tn, v as int));
                    let vv = v as int;
                    assert(0 <= vv < bk && orig.is_bucket_full(vv) && spec_is_safe(
                        orig.spec_meta(vv),
                    ) && self.spec_slot(vv) is None && self.spec_meta(vv) == SAFE
                        && self.spec_items() == orig.spec_items() - 1 && self.spec_mod_counter()
                        == orig.spec_mod_counter() && self.spec_growth_left()
                        >= orig.spec_growth_left());
                    assert forall|j: int|
                        0 <= j < bk && j != vv implies #[trigger] self.spec_slot(j)
                        == orig.spec_slot(j) && self.spec_meta(j) == orig.spec_meta(j)
                        && self.spec_hash(j) == orig.spec_hash(j) by {
                        assert(mid.spec_slot(j) == orig.spec_slot(j));
                        assert(self.spec_slot(j) == mid.spec_slot(j));
                        assert(self.spec_meta(j) == orig.spec_meta(j));
                        assert(self.hashes@ == orig.hashes@);
                    }
                }
                return true;
            }
            proof {
                assert forall|j: int|
                    0 <= j < bk && #[trigger] self.is_bucket_full(j) && spec_is_safe(
                        self.spec_meta(j),
                    ) implies !in_window(hh, bk, tn, j) by {
                    if in_window(hh, bk, tn, j) {
                        crate::group::lemma_byte_values();
                        lemma_window_occurrence(self.meta@, SAFE, bk, hh, tn, j);
                        let b3 = choose|b3: int|
                            0 <= b3 < GROUP_WIDTH && #[trigger] window_slot(hh, bk, tn, b3) == j
                                && self.meta@[probe_pos(hh, bk, tn) + b3] == self.meta@[j];
                        assert(crate::group::meta_state(self.spec_meta(j)));
                        assert(self.meta@[j] == SAFE || self.meta@[j] == SAFE_TOUCHED);
                        assert((pos + b3) % bk == j);
                        assert(self.meta@[pos + b3] == SAFE || self.meta@[pos + b3]
                            == SAFE_TOUCHED);
                    }
                }
            }
            stride = stride + GROUP_WIDTH;
            pos = (pos + stride) % buckets;
            t = t + 1;
            proof {
                vstd::arithmetic::div_mod::lemma_mod_bound((probe_pos(hh, bk, (t - 1) as nat)
                    + t * GROUP_WIDTH) as int, bk);
                assert(t <= probe_len(bk - 1)) by (nonlinear_arith)
                    requires
                        (t - 1) * GROUP_WIDTH < bk - 1,
                        probe_len(bk - 1) == (bk - 1 + GROUP_WIDTH - 1) / (GROUP_WIDTH as int),
                        GROUP_WIDTH == 16,
                        t >= 1,
                ;
            }
        }
        proof {
            assert(t * GROUP_WIDTH >= bk - 1);
            assert(t >= probe_len(bk - 1)) by (nonlinear_arith)
                requires
                    t * GROUP_WIDTH >= bk - 1,
                    probe_len(bk - 1) == (bk - 1 + GROUP_WIDTH - 1) / (GROUP_WIDTH as int),
                    GROUP_WIDTH == 16,
            ;
            assert forall|j: int|
                0 <= j < bk && #[trigger] self.is_bucket_full(j) implies spec_is_modified(
                self.spec_meta(j),
            ) by {
                if !spec_is_modified(self.spec_meta(j)) {
                    lemma_probe_covers(hh, bk, j);
                    let t3 = choose|t3: nat|
                        t3 < probe_len(bk - 1) && #[trigger] in_window(hh, bk, t3, j);
                }
            }
        }
        false
    }

    /// Lowest slot of the window at `pos` that holds a clean resident
    /// bucket with an untouched meta byte, falling back to a touched one:
    /// cold clean victims are taken before hot ones.
    fn scan_clean_victim(&self, pos: usize, hash: u64, t: usize) -> (r: Option<usize>)
        requires
            self.wf(),
            pos < self.spec_buckets(),
            pos == probe_pos(hash as int, self.spec_buckets(), t as nat),
        ensures
            match r {
                Some(v) => {
                    &&& v < self.spec_buckets()
                    &&& self.is_bucket_full(v as int)
                    &&& spec_is_safe(self.spec_meta(v as int))
                    &&& in_window(hash as int, self.spec_buckets(), t as nat, v as int)
                    &&& self.spec_meta(v as int) == SAFE_TOUCHED ==> forall|j: int|
                        0 <= j < self.spec_buckets() && self.is_bucket_full(j) && self.spec_meta(
                            j,
                        ) == SAFE ==> !in_window(hash as int, self.spec_buckets(), t as nat, j)
                },
                None => forall|b: int|
                    0 <= b < GROUP_WIDTH ==> ((#[trigger] self.meta@[pos + b]) == SAFE ==> !(
                    self.is_bucket_full((pos + b) % self.spec_buckets()) && self.spec_meta(
                        (pos + b) % self.spec_buckets(),
                    ) == SAFE)) && (self.meta@[pos + b] == SAFE_TOUCHED ==> !(
                    self.is_bucket_full((pos + b) % self.spec_buckets()) && self.spec_meta(
                        (pos + b) % self.spec_buckets(),
                    ) == SAFE_TOUCHED)),
            },
{
        let ghost bk = self.spec_buckets();
        let buckets = self.bucket_mask + 1;
        let mut pass: usize = 0;
        while pass < 2
            invariant
                self.wf(),
                bk == self.spec_buckets(),
                buckets == self.spec_buckets(),
                pos < bk,
                pos == probe_pos(hash as int, bk, t as nat),
                pass <= 2,
                forall|b: int|
                    0 <= b < GROUP_WIDTH && pass >= 1 ==> (#[trigger] self.meta@[pos + b])
                        != SAFE || !(self.is_bucket_full((pos + b) % bk) && self.spec_meta(
                        (pos + b) % bk,
                    ) == SAFE),
                forall|b: int|
                    0 <= b < GROUP_WIDTH && pass >= 2 ==> (#[trigger] self.meta@[pos + b])
                        != SAFE_TOUCHED || !(self.is_bucket_full((pos + b) % bk)
                        && self.spec_meta((pos + b) % bk) == SAFE_TOUCHED),
            decreases 2 - pass,
        {
            let byte = if pass == 0 {
                SAFE
            } else {
                SAFE_TOUCHED
            };
            let mut b: usize = 0;
            loop
                invariant
                    self.wf(),
                    bk == self.spec_buckets(),
                    buckets == self.spec_buckets(),
                    pos < bk,
                    pos == probe_pos(hash as int, bk, t as nat),
                    b <= GROUP_WIDTH,
                    byte == (if pass == 0 {
                        SAFE
                    } else {
                        SAFE_TOUCHED
                    }),
                    pass < 2,
                    forall|b2: int|
                        0 <= b2 < GROUP_WIDTH && pass >= 1 ==> (#[trigger] self.meta@[pos + b2])
                            != SAFE || !(self.is_bucket_full((pos + b2) % bk) && self.spec_meta(
                            (pos + b2) % bk,
                        ) == SAFE),
                    forall|b2: int|
                        0 <= b2 < b && (#[trigger] self.meta@[pos + b2]) == byte ==> !(
                        self.is_bucket_full((pos + b2) % bk) && self.spec_meta((pos + b2) % bk)
                            == byte),
                ensures
                    forall|b2: int|
                        0 <= b2 < GROUP_WIDTH && (#[trigger] self.meta@[pos + b2]) == byte ==> !(
                        self.is_bucket_full((pos + b2) % bk) && self.spec_meta((pos + b2) % bk)
                            == byte),
                decreases GROUP_WIDTH - b,
            {
                match group_match_byte_from(&self.meta, pos, byte, b) {
                    Some(bit) => {
                        let idx = (pos + bit) % buckets;
                        proof {
                            vstd::arithmetic::div_mod::lemma_mod_bound((pos + bit) as int, bk);
                        }
                        if is_full(self.ctrl[idx]) && self.meta[idx] == byte {
                            proof {
                                crate::group::lemma_byte_values();
                                assert(window_slot(hash as int, bk, t as nat, bit as int)
                                    == idx as int);
                                assert(in_window(hash as int, bk, t as nat, idx as int));
                                if byte == SAFE_TOUCHED {
                                    assert forall|j: int|
                                        0 <= j < bk && self.is_bucket_full(j) && self.spec_meta(
                                            j,
                                        ) == SAFE implies !in_window(
                                        hash as int,
                                        bk,
                                        t as nat,
                                        j,
                                    ) by {
                                        if in_window(hash as int, bk, t as nat, j) {
                                            lemma_window_occurrence(
                                                self.meta@,
                                                SAFE,
                                                bk,
                                                hash as int,
                                                t as nat,
                                                j,
                                            );
                                            let b3 = choose|b3: int|
                                                0 <= b3 < GROUP_WIDTH && #[trigger] window_slot(
                                                    hash as int,
                                                    bk,
                                                    t as nat,
                                                    b3,
                                                ) == j && self.meta@[probe_pos(
                                                    hash as int,
                                                    bk,
                                                    t as nat,
                                                ) + b3] == self.meta@[j];
                                            assert(self.meta@[pos + b3] == SAFE);
                                            assert(!(self.is_bucket_full((pos + b3) % bk)
                                                && self.spec_meta((pos + b3) % bk) == SAFE));
                                        }
                                    }
                                }
                            }
                            return Some(idx);
                        }
                        proof {
                            assert(self.meta@[pos + bit] == byte);
                        }
                        b = bit + 1;
                    },
                    None => {
                        break;
                    },
                }
            }
            pass = pass + 1;
        }
        proof {
            crate::group::lemma_byte_values();
        }
        None
    }
}


impl<K: Key, V: Value> RawTable<K, V> {
    /// Whether an insertion is admissible: the table is no sentinel, and
    /// either free budget remains, or a clean victim exists for safe
    /// eviction, or the table is empty.
    pub open spec fn can_insert(&self) -> bool {
        &&& self.spec_bucket_mask() >= 1
        &&& (self.spec_growth_left() > 0 || self.spec_mod_counter() < self.spec_items()
            || self.spec_items() == 0)
    }

    /// Picks the dirty bucket one probe walk from `hash` reaches first —
    /// cold dirty buckets ahead of touched ones within each window — and
    /// hands its pair out for forwarding to the durable store. The bucket
    /// is stamped clean; with no free budget left it is erased outright,
    /// so its slot can be reused at once.
    #[verifier::loop_isolation(false)]
    pub fn evict_mod_bucket(&mut self, hash: u64) -> (r: ((K, V), Ghost<int>))
        requires
            old(self).wf(),
            old(self).spec_mod_counter() >= 1,
        ensures
            final(self).wf(),
            final(self).spec_buckets() == old(self).spec_buckets(),
            final(self).spec_mod_limit() == old(self).spec_mod_limit(),
            final(self).spec_mod_counter() == old(self).spec_mod_counter() - 1,
            ({
                let v = r.1@;
                &&& 0 <= v < old(self).spec_buckets()
                &&& old(self).is_bucket_full(v)
                &&& spec_is_modified(old(self).spec_meta(v))
                &&& exists|t: nat|
                    t < probe_len(old(self).spec_buckets() - 1) && #[trigger] in_window(
                        hash as int,
                        old(self).spec_buckets(),
                        t,
                        v,
                    ) && (forall|t2: nat, j: int|
                        t2 < t && 0 <= j < old(self).spec_buckets() && old(self).is_bucket_full(
                            j,
                        ) && spec_is_modified(old(self).spec_meta(j)) ==> !(
                        #[trigger] in_window(hash as int, old(self).spec_buckets(), t2, j)))
                        && (old(self).spec_meta(v) == MODIFIED_TOUCHED ==> forall|j: int|
                        0 <= j < old(self).spec_buckets() && old(self).is_bucket_full(j)
                            && old(self).spec_meta(j) == MODIFIED ==> !in_window(
                            hash as int,
                            old(self).spec_buckets(),
                            t,
                            j,
                        ))
                &&& old(self).spec_slot(v) == Some(r.0)
                &&& final(self).spec_meta(v) == SAFE
                &&& final(self).spec_hash(v) == old(self).spec_hash(v)
                &&& (old(self).spec_growth_left() == 0 ==> final(self).spec_slot(v) is None
                    && final(self).spec_items() == old(self).spec_items() - 1)
                &&& (old(self).spec_growth_left() > 0 ==> final(self).spec_slot(v) == old(
                    self,
                ).spec_slot(v) && final(self).spec_items() == old(self).spec_items()
                    && final(self).ctrl_stream() == old(self).ctrl_stream()
                    && final(self).spec_growth_left() == old(self).spec_growth_left())
                &&& (forall|j: int|
                    0 <= j < old(self).spec_buckets() && j != v
                        ==> #[trigger] final(self).spec_slot(j) == old(self).spec_slot(j)
                        && final(self).spec_meta(j) == old(self).spec_meta(j)
                        && final(self).spec_hash(j) == old(self).spec_hash(j)
                        && final(self).spec_ctrl(j) == old(self).spec_ctrl(j))
            }),
    {
        let ghost orig = *self;
        let buckets = self.bucket_mask + 1;
        let ghost bk = buckets as int;
        let ghost hh = hash as int;
        let mut pos: usize = (hash % (buckets as u64)) as usize;
        let mut stride: usize = 0;
        let mut t: usize = 0;
        proof {
            vstd::arithmetic::div_mod::lemma_mod_bound(hh, bk);
            crate::group::lemma_byte_values();
        }
        while stride < self.bucket_mask
            invariant
                *self == orig,
                stride == t * GROUP_WIDTH,
                t <= probe_len(bk - 1),
                pos == probe_pos(hh, bk, t as nat),
                pos < buckets,
                forall|j: int|
                    0 <= j < bk && #[trigger] self.is_bucket_full(j) && spec_is_modified(
                        self.spec_meta(j),
                    ) ==> forall|t2: nat| t2 < t ==> !in_window(hh, bk, t2, j),
            decreases bk + GROUP_WIDTH - stride,
        {
            let ghost tn = t as nat;
            let mut pass: usize = 0;
            while pass < 2
                invariant
                    *self == orig,
                    pos == probe_pos(hh, bk, tn),
                    pos < buckets,
                    pass <= 2,
                    forall|b: int|
                        0 <= b < GROUP_WIDTH && pass >= 1 ==> (#[trigger] self.meta@[pos + b])
                            != MODIFIED,
                    forall|b: int|
                        0 <= b < GROUP_WIDTH && pass >= 2 ==> (#[trigger] self.meta@[pos + b])
                            != MODIFIED_TOUCHED,
                decreases 2 - pass,
            {
                let byte = if pass == 0 {
                    MODIFIED
                } else {
                    MODIFIED_TOUCHED
                };
                if let Some(bit) = group_match_byte_from(&self.meta, pos, byte, 0) {
                    let idx = (pos + bit) % buckets;
                    proof {
                        vstd::arithmetic::div_mod::lemma_mod_bound((pos + bit) as int, bk);
                        lemma_phys_byte(self.meta@, bk, SAFE, (pos + bit) as int);
                        assert(self.spec_meta(idx as int) == byte);
                        assert(spec_is_modified(byte));
                        assert(self.is_bucket_full(idx as int));
                    }
                    proof {
                        assert(self.spec_slot(idx as int) is Some);
                    }
                    let (rk, rv) = match &self.slots[idx] {
                        Some(p) => (p.0.key_clone(), p.1.val_clone()),
                        None => {
                            proof {
                                assert(false);
                            }
                            vstd::pervasive::unreached()
                        },
                    };
                    let erase = self.growth_left == 0;
                    if erase {
                        self.erase_inner(idx);
                    }
                    let ghost mid = *self;
                    self.set_meta(idx, SAFE);
                    proof {
                        lemma_count_at_least_one(orig.meta@, dirty_pred(), bk, idx as int);
                    }
                    self.mod_counter = self.mod_counter - 1;
                    proof {
                        assert(crate::group::meta_state(SAFE));
                        assert forall|j: int|
                            0 <= j < bk && j != idx implies orig.meta@[j] == self.meta@[j] by {}
                        lemma_count_update(orig.meta@, self.meta@, dirty_pred(), bk, idx as int);
                        assert forall|j: int|
                            0 <= j < bk implies crate::group::meta_state(
                            #[trigger] self.spec_meta(j),
                        ) by {
                            if j != idx {
                                assert(self.spec_meta(j) == orig.spec_meta(j));
                            }
                        }
                        assert forall|j: int|
                            0 <= j < bk && !spec_is_full(#[trigger] self.spec_ctrl(j))
                                implies spec_is_safe(self.spec_meta(j)) by {
                            assert(self.spec_ctrl(j) == mid.spec_ctrl(j));
                            if j != idx {
                                assert(self.spec_meta(j) == orig.spec_meta(j));
                                assert(mid.ctrl@[j] == orig.ctrl@[j]);
                                assert(!spec_is_full(orig.spec_ctrl(j)));
                            } else {
                                assert(self.spec_meta(j) == SAFE);
                            }
                        }
                        assert forall|j: int|
                            0 <= j < bk implies ((#[trigger] self.spec_slot(j)) is Some
                            == spec_is_full(self.spec_ctrl(j))) by {
                            assert(self.spec_ctrl(j) == mid.spec_ctrl(j));
                            assert(self.spec_slot(j) == mid.spec_slot(j));
                            if j != idx {
                                assert(mid.spec_slot(j) == orig.spec_slot(j));
                                assert(mid.ctrl@[j] == orig.ctrl@[j]);
                            } else {
                                if erase {
                                    assert(mid.spec_slot(j) is None);
                                } else {
                                    assert(mid.spec_slot(j) == orig.spec_slot(j));
                                }
                            }
                        }
                        assert forall|j: int|
                            0 <= j < bk && spec_is_full(#[trigger] self.spec_ctrl(j))
                                implies self.spec_ctrl(j) == spec_h2(self.spec_hash(j))
                            && slot_findable(self.ctrl@, self.spec_hash(j) as int, bk, j) by {
                            assert(self.spec_ctrl(j) == mid.spec_ctrl(j));
                            if erase {
                                assert(j != idx) by {
                                    assert(!spec_is_full(mid.spec_ctrl(idx as int)));
                                };
                                assert(mid.spec_ctrl(j) == spec_h2(mid.spec_hash(j))
                                    && slot_findable(mid.ctrl@, mid.spec_hash(j) as int, bk, j));
                            } else {
                                assert(mid == orig);
                                assert(orig.spec_ctrl(j) == spec_h2(orig.spec_hash(j))
                                    && slot_findable(
                                    orig.ctrl@,
                                    orig.spec_hash(j) as int,
                                    bk,
                                    j,
                                ));
                            }
                        }
                        assert forall|j: int|
                            0 <= j < bk implies ((#[trigger] self.spec_ctrl(j)) == EMPTY
                            || self.spec_ctrl(j) == DELETED || spec_is_full(self.spec_ctrl(j)))
                            by {
                            assert(self.spec_ctrl(j) == mid.spec_ctrl(j));
                            if !erase {
                                assert(mid == orig);
                            }
                        }
                        assert(count_byte_if(self.ctrl@, full_pred(), bk) == count_byte_if(
                            mid.ctrl@,
                            full_pred(),
                            bk,
                        ));
                        assert(count_byte_if(self.ctrl@, deleted_pred(), bk) == count_byte_if(
                            mid.ctrl@,
                            deleted_pred(),
                            bk,
                        ));
                        let vv = idx as int;
                        assert(0 <= vv < bk && orig.is_bucket_full(vv) && spec_is_modified(
                            orig.spec_meta(vv),
                        ) && orig.spec_slot(vv) == Some((rk, rv)) && self.spec_meta(vv) == SAFE);
                        assert(self.spec_hash(vv) == orig.spec_hash(vv)) by {
                            assert(self.hashes@ == orig.hashes@);
                        };
                        // the policy witness: this window is the first
                        // with a dirty bucket, and a touched victim means
                        // the window held no untouched dirty bucket
                        assert(window_slot(hh, bk, tn, bit as int) == vv);
                        assert(in_window(hh, bk, tn, vv));
                        assert(tn < probe_len(bk - 1)) by (nonlinear_arith)
                            requires
                                tn == t,
                                t * GROUP_WIDTH < bk - 1,
                                probe_len(bk - 1) == (bk - 1 + GROUP_WIDTH - 1) / (
                                GROUP_WIDTH as int),
                                GROUP_WIDTH == 16,
                        ;
                        if orig.spec_meta(vv) == MODIFIED_TOUCHED {
                            assert forall|j: int|
                                0 <= j < bk && orig.is_bucket_full(j) && orig.spec_meta(j)
                                    == MODIFIED implies !in_window(hh, bk, tn, j) by {
                                if in_window(hh, bk, tn, j) {
                                    lemma_window_occurrence(orig.meta@, SAFE, bk, hh, tn, j);
                                    let b3 = choose|b3: int|
                                        0 <= b3 < GROUP_WIDTH && #[trigger] window_slot(
                                            hh,
                                            bk,
                                            tn,
                                            b3,
                                        ) == j && orig.meta@[probe_pos(hh, bk, tn) + b3]
                                            == orig.meta@[j];
                                    assert(orig.meta@[pos + b3] == MODIFIED);
                                }
                            }
                        }
                        assert forall|j: int|
                            0 <= j < bk && j != vv implies #[trigger] self.spec_slot(j)
                            == orig.spec_slot(j) && self.spec_meta(j) == orig.spec_meta(j)
                            && self.spec_hash(j) == orig.spec_hash(j) && self.spec_ctrl(j)
                            == orig.spec_ctrl(j) by {
                            assert(self.spec_slot(j) == mid.spec_slot(j));
                            assert(self.spec_ctrl(j) == mid.spec_ctrl(j));
                            assert(mid.spec_slot(j) == orig.spec_slot(j));
                            assert(mid.ctrl@[j] == orig.ctrl@[j]);
                            assert(self.hashes@ == orig.hashes@);
                        }
                    }
                    return ((rk, rv), Ghost(idx as int));
                }
                pass = pass + 1;
            }
            proof {
                assert forall|j: int|
                    0 <= j < bk && #[trigger] self.is_bucket_full(j) && spec_is_modified(
                        self.spec_meta(j),
                    ) implies !in_window(hh, bk, tn, j) by {
                    if in_window(hh, bk, tn, j) {
                        lemma_window_occurrence(self.meta@, SAFE, bk, hh, tn, j);
                        let b3 = choose|b3: int|
                            0 <= b3 < GROUP_WIDTH && #[trigger] window_slot(hh, bk, tn, b3) == j
                                && self.meta@[probe_pos(hh, bk, tn) + b3] == self.meta@[j];
                        assert(crate::group::meta_state(self.spec_meta(j)));
                        assert(self.meta@[j] == MODIFIED || self.meta@[j] == MODIFIED_TOUCHED);
                        assert(self.meta@[pos + b3] == MODIFIED || self.meta@[pos + b3]
                            == MODIFIED_TOUCHED);
                    }
                }
            }
            stride = stride + GROUP_WIDTH;
            pos = (pos + stride) % buckets;
            t = t + 1;
            proof {
                vstd::arithmetic::div_mod::lemma_mod_bound((probe_pos(hh, bk, (t - 1) as nat)
                    + t * GROUP_WIDTH) as int, bk);
                assert(t <= probe_len(bk - 1)) by (nonlinear_arith)
                    requires
                        (t - 1) * GROUP_WIDTH < bk - 1,
                        probe_len(bk - 1) == (bk - 1 + GROUP_WIDTH - 1) / (GROUP_WIDTH as int),
                        GROUP_WIDTH == 16,
                        t >= 1,
                ;
            }
        }
        proof {
            assert(t * GROUP_WIDTH >= bk - 1);
            assert(t >= probe_len(bk - 1)) by (nonlinear_arith)
                requires
                    t * GROUP_WIDTH >= bk - 1,
                    probe_len(bk - 1) == (bk - 1 + GROUP_WIDTH - 1) / (GROUP_WIDTH as int),
                    GROUP_WIDTH == 16,
            ;
            lemma_count_pos_exists(self.meta@, dirty_pred(), bk);
            let j0 = choose|j0: int| 0 <= j0 < bk && dirty_pred()(self.meta@[j0]);
            assert(self.is_bucket_full(j0)) by {
                if !self.is_bucket_full(j0) {
                    assert(spec_is_safe(self.spec_meta(j0)));
                }
            };
            lemma_probe_covers(hh, bk, j0);
            let t3 = choose|t3: nat|
                t3 < probe_len(bk - 1) && #[trigger] in_window(hh, bk, t3, j0);
            assert(false);
        }
        vstd::pervasive::unreached()
    }

    /// Index of the first empty-or-deleted slot one probe walk from `hash`
    /// reaches; the windows before it show no EMPTY byte, so a key placed
    /// there is found again.
    fn find_insert_slot(&self, hash: u64) -> (r: usize)
        requires
            self.wf(),
            self.spec_bucket_mask() >= 1,
            exists|i: int|
                0 <= i < self.spec_buckets() && !spec_is_full(#[trigger] self.spec_ctrl(i)),
        ensures
            r < self.spec_buckets(),
            !spec_is_full(self.spec_ctrl(r as int)),
            exists|t: nat|
                t < probe_len(self.spec_buckets() - 1) && #[trigger] in_window(
                    hash as int,
                    self.spec_buckets(),
                    t,
                    r as int,
                ) && (forall|t2: nat|
                    t2 < t ==> !window_has_empty(
                        self.ctrl_stream(),
                        hash as int,
                        self.spec_buckets(),
                        t2,
                    )),
    {
        let buckets = self.bucket_mask + 1;
        let ghost bk = buckets as int;
        let ghost hh = hash as int;
        let mut pos: usize = (hash % (buckets as u64)) as usize;
        let mut stride: usize = 0;
        let mut t: usize = 0;
        proof {
            vstd::arithmetic::div_mod::lemma_mod_bound(hh, bk);
            crate::group::lemma_byte_values();
        }
        while stride < self.bucket_mask
            invariant
                self.wf(),
                buckets == self.spec_buckets(),
                bk == buckets as int,
                hh == hash as int,
                stride == t * GROUP_WIDTH,
                t <= probe_len(bk - 1),
                pos == probe_pos(hh, bk, t as nat),
                pos < buckets,
                bk >= GROUP_WIDTH ==> (forall|t2: nat|
                    t2 < t ==> !window_has_empty(self.ctrl@, hh, bk, t2)),
                bk >= GROUP_WIDTH ==> (forall|t2: nat, i: int|
                    t2 < t && 0 <= i < bk && !spec_is_full(self.spec_ctrl(i)) ==> !(
                    #[trigger] in_window(hh, bk, t2, i))),
            decreases bk + GROUP_WIDTH - stride,
        {
            let ghost tn = t as nat;
            let mut b: usize = 0;
            loop
                invariant
                    self.wf(),
                    buckets == self.spec_buckets(),
                    bk == buckets as int,
                    hh == hash as int,
                    tn == t as nat,
                    stride == t * GROUP_WIDTH,
                    stride < self.bucket_mask,
                    pos == probe_pos(hh, bk, tn),
                    pos < buckets,
                    b <= GROUP_WIDTH,
                    bk >= GROUP_WIDTH ==> (forall|t2: nat|
                        t2 < tn ==> !window_has_empty(self.ctrl@, hh, bk, t2)),
                    forall|b2: int|
                        0 <= b2 < b ==> !spec_is_special(#[trigger] self.ctrl@[pos + b2])
                            || spec_is_full(self.spec_ctrl((pos + b2) % bk)),
                ensures
                    forall|b2: int|
                        0 <= b2 < GROUP_WIDTH ==> !spec_is_special(
                            #[trigger] self.ctrl@[pos + b2],
                        ) || spec_is_full(self.spec_ctrl((pos + b2) % bk)),
                decreases GROUP_WIDTH - b,
            {
                match group_match_special_from(&self.ctrl, pos, b) {
                    Some(bit) => {
                        let idx = (pos + bit) % buckets;
                        proof {
                            vstd::arithmetic::div_mod::lemma_mod_bound((pos + bit) as int, bk);
                        }
                        if !is_full(self.ctrl[idx]) {
                            proof {
                                assert(window_slot(hh, bk, tn, bit as int) == idx as int);
                                assert(in_window(hh, bk, tn, idx as int));
                                if bk < GROUP_WIDTH {
                                    assert(probe_len(bk - 1) <= 1);
                                    assert(tn == 0);
                                } else {
                                    assert(forall|t2: nat|
                                        t2 < tn ==> !window_has_empty(self.ctrl@, hh, bk, t2));
                                }
                                assert(tn < probe_len(bk - 1)) by (nonlinear_arith)
                                    requires
                                        tn == t,
                                        t * GROUP_WIDTH < bk - 1,
                                        probe_len(bk - 1) == (bk - 1 + GROUP_WIDTH - 1) / (
                                        GROUP_WIDTH as int),
                                        GROUP_WIDTH == 16,
                                ;
                            }
                            return idx;
                        }
                        b = bit + 1;
                    },
                    None => {
                        break;
                    },
                }
            }
            // a full pattern sat under every special match: the table is
            // smaller than one group and the matches were trailing filler
            proof {
                crate::group::lemma_byte_values();
                if bk >= GROUP_WIDTH {
                    assert forall|b2: int|
                        0 <= b2 < GROUP_WIDTH implies !spec_is_special(
                        #[trigger] self.ctrl@[pos + b2],
                    ) by {
                        lemma_phys_to_log(self.ctrl@, bk, EMPTY, pos + b2);
                        vstd::arithmetic::div_mod::lemma_mod_bound((pos + b2) as int, bk);
                        if spec_is_special(self.ctrl@[pos + b2]) {
                            assert(spec_is_full(self.spec_ctrl((pos + b2) % bk)));
                        }
                    }
                    assert forall|i: int|
                        0 <= i < bk && !spec_is_full(#[trigger] self.spec_ctrl(i))
                            implies !in_window(hh, bk, tn, i) by {
                        if in_window(hh, bk, tn, i) {
                            lemma_window_occurrence(self.ctrl@, EMPTY, bk, hh, tn, i);
                            let b3 = choose|b3: int|
                                0 <= b3 < GROUP_WIDTH && #[trigger] window_slot(hh, bk, tn, b3)
                                    == i && self.ctrl@[probe_pos(hh, bk, tn) + b3]
                                    == self.ctrl@[i];
                            assert(self.spec_ctrl(i) == EMPTY || self.spec_ctrl(i) == DELETED);
                            assert(spec_is_special(self.ctrl@[pos + b3]));
                        }
                    }
                    assert(!window_has_empty(self.ctrl@, hh, bk, tn)) by {
                        if window_has_empty(self.ctrl@, hh, bk, tn) {
                            let b4 = choose|b4: int|
                                0 <= b4 < GROUP_WIDTH && self.ctrl@[#[trigger] window_slot(
                                    hh,
                                    bk,
                                    tn,
                                    b4,
                                )] == EMPTY;
                            let ws = window_slot(hh, bk, tn, b4);
                            vstd::arithmetic::div_mod::lemma_mod_bound(
                                probe_pos(hh, bk, tn) + b4,
                                bk,
                            );
                            assert(!spec_is_full(self.spec_ctrl(ws)));
                            assert(!in_window(hh, bk, tn, ws));
                        }
                    }
                } else {
                    // below one group the walk has a single step; the loop
                    // ends right after and the aligned rescan below fires
                    assert(probe_len(bk - 1) <= 1);
                }
            }
            stride = stride + GROUP_WIDTH;
            pos = (pos + stride) % buckets;
            t = t + 1;
            proof {
                vstd::arithmetic::div_mod::lemma_mod_bound((probe_pos(hh, bk, (t - 1) as nat)
                    + t * GROUP_WIDTH) as int, bk);
                assert(t <= probe_len(bk - 1)) by (nonlinear_arith)
                    requires
                        (t - 1) * GROUP_WIDTH < bk - 1,
                        probe_len(bk - 1) == (bk - 1 + GROUP_WIDTH - 1) / (GROUP_WIDTH as int),
                        GROUP_WIDTH == 16,
                        t >= 1,
                ;
            }
        }
        proof {
            assert(t * GROUP_WIDTH >= bk - 1);
            assert(t >= probe_len(bk - 1)) by (nonlinear_arith)
                requires
                    t * GROUP_WIDTH >= bk - 1,
                    probe_len(bk - 1) == (bk - 1 + GROUP_WIDTH - 1) / (GROUP_WIDTH as int),
                    GROUP_WIDTH == 16,
            ;
        }
        // tables below one group: scan the aligned first window, whose low
        // bits are the real slots, so the first special bit is a real one
        proof {
            if bk >= GROUP_WIDTH {
                let i0 = choose|i0: int|
                    0 <= i0 < bk && !spec_is_full(#[trigger] self.spec_ctrl(i0));
                lemma_probe_covers(hh, bk, i0);
                let t3 = choose|t3: nat|
                    t3 < probe_len(bk - 1) && #[trigger] in_window(hh, bk, t3, i0);
                assert(false);
            }
        }
        match group_match_special_from(&self.ctrl, 0, 0) {
            Some(b2) => {
                proof {
                    let i0 = choose|i0: int|
                        0 <= i0 < bk && !spec_is_full(#[trigger] self.spec_ctrl(i0));
                    assert(spec_is_special(self.ctrl@[i0])) by {
                        crate::group::lemma_byte_values();
                    };
                    assert(b2 <= i0);
                    assert(b2 < bk);
                    assert(!spec_is_full(self.spec_ctrl(b2 as int)));
                    lemma_probe_covers(hh, bk, b2 as int);
                    let t4 = choose|t4: nat|
                        t4 < probe_len(bk - 1) && #[trigger] in_window(hh, bk, t4, b2 as int);
                    assert(probe_len(bk - 1) == 1);
                    assert(t4 == 0);
                }
                b2
            },
            None => {
                proof {
                    let i0 = choose|i0: int|
                        0 <= i0 < bk && !spec_is_full(#[trigger] self.spec_ctrl(i0));
                    assert(spec_is_special(self.ctrl@[i0])) by {
                        crate::group::lemma_byte_values();
                    };
                    assert(false);
                }
                vstd::pervasive::unreached()
            },
        }
    }
}


impl<K: Key, V: Value> RawTable<K, V> {
    /// Inserts a pair under `hash` without checking for an existing copy
    /// of the key. With no free budget left, one clean resident bucket is
    /// first evicted along the same probe walk; the new bucket starts
    /// dirty. Callers that must not duplicate keys look the key up first.
    pub fn insert(&mut self, hash: u64, key: K, value: V) -> (r: Bucket)
        requires
            old(self).wf(),
            old(self).can_insert(),
        ensures
            final(self).wf(),
            r.index < old(self).spec_buckets(),
            final(self).spec_buckets() == old(self).spec_buckets(),
            final(self).spec_mod_limit() == old(self).spec_mod_limit(),
            final(self).spec_slot(r.index as int) == Some((key, value)),
            final(self).spec_hash(r.index as int) == hash,
            final(self).spec_meta(r.index as int) == MODIFIED,
            final(self).is_bucket_full(r.index as int),
            final(self).spec_ctrl(r.index as int) == spec_h2(hash),
            final(self).spec_mod_counter() == old(self).spec_mod_counter() + 1,
            old(self).is_bucket_full(r.index as int) ==> spec_is_safe(old(self).spec_meta(
                r.index as int,
            )),
            old(self).spec_growth_left() > 0 ==> {
                &&& final(self).spec_items() == old(self).spec_items() + 1
                &&& !old(self).is_bucket_full(r.index as int)
                &&& final(self).spec_growth_left() == old(self).spec_growth_left() - (if old(
                    self,
                ).spec_ctrl(r.index as int) == EMPTY {
                    1int
                } else {
                    0int
                })
                &&& (forall|j: int|
                    0 <= j < old(self).spec_buckets() && j != r.index
                        ==> #[trigger] final(self).spec_slot(j) == old(self).spec_slot(j)
                        && final(self).spec_meta(j) == old(self).spec_meta(j)
                        && final(self).spec_hash(j) == old(self).spec_hash(j))
            },
            old(self).spec_growth_left() == 0 && old(self).spec_mod_counter() < old(
                self,
            ).spec_items() ==> final(self).spec_items() == old(self).spec_items(),
            old(self).spec_growth_left() == 0 ==> {
                &&& old(self).spec_items() <= final(self).spec_items() <= old(self).spec_items()
                    + 1
                &&& (forall|j: int|
                    0 <= j < old(self).spec_buckets() && j != r.index
                        ==> (#[trigger] final(self).spec_slot(j) == old(self).spec_slot(j)
                        && final(self).spec_meta(j) == old(self).spec_meta(j)
                        && final(self).spec_hash(j) == old(self).spec_hash(j))
                        || (final(self).spec_slot(j) is None && old(self).is_bucket_full(j)
                        && spec_is_safe(old(self).spec_meta(j)) && final(self).spec_meta(j)
                        == SAFE))
            },
    {
        let ghost orig = *self;
        if self.growth_left == 0 {
            let cleared = self.clear_safe_bucket(hash);
            proof {
                if cleared {
                    let v = choose|v: int|
                        {
                            &&& 0 <= v < orig.spec_buckets()
                            &&& #[trigger] orig.is_bucket_full(v)
                            &&& spec_is_safe(orig.spec_meta(v))
                            &&& self.spec_slot(v) is None
                            &&& self.spec_meta(v) == SAFE
                            &&& self.spec_items() == orig.spec_items() - 1
                            &&& self.spec_mod_counter() == orig.spec_mod_counter()
                            &&& self.spec_growth_left() >= orig.spec_growth_left()
                            &&& (forall|j: int|
                                0 <= j < orig.spec_buckets() && j != v
                                    ==> #[trigger] self.spec_slot(j) == orig.spec_slot(j)
                                    && self.spec_meta(j) == orig.spec_meta(j)
                                    && self.spec_hash(j) == orig.spec_hash(j))
                        };
                    assert(!spec_is_full(self.spec_ctrl(v)));
                    assert(exists|i: int|
                        0 <= i < self.spec_buckets() && !spec_is_full(
                            #[trigger] self.spec_ctrl(i),
                        ));
                } else {
                    assert(orig.spec_items() == 0) by {
                        if orig.spec_items() > 0 {
                            if orig.spec_mod_counter() < orig.spec_items() {
                                lemma_count_bounds(orig.meta@, dirty_pred(), orig.spec_buckets());
                                // fewer dirty bytes than resident buckets
                                // leaves a clean resident bucket
                                Self::lemma_clean_resident_exists(orig);
                            }
                        }
                    };
                    lemma_count_partial_exists(self.ctrl@, full_pred(), self.spec_buckets());
                    let e = choose|e: int|
                        0 <= e < self.spec_buckets() && !full_pred()(self.ctrl@[e]);
                    assert(!spec_is_full(self.spec_ctrl(e)));
                    assert(exists|i: int|
                        0 <= i < self.spec_buckets() && !spec_is_full(
                            #[trigger] self.spec_ctrl(i),
                        ));
                }
            }
        } else {
            proof {
                crate::group::lemma_byte_values();
                assert forall|i: int|
                    0 <= i < self.spec_buckets() implies ((#[trigger] self.ctrl@[i]) == EMPTY
                    || self.ctrl@[i] == DELETED || spec_is_full(self.ctrl@[i])) by {
                    assert(self.spec_ctrl(i) == self.ctrl@[i]);
                }
                lemma_count_partition(self.ctrl@, self.spec_buckets());
                lemma_count_bounds(self.ctrl@, deleted_pred(), self.spec_buckets());
                assert(count_byte_if(self.ctrl@, empty_pred(), self.spec_buckets()) > 0);
                lemma_count_pos_exists(self.ctrl@, empty_pred(), self.spec_buckets());
                let e = choose|e: int|
                    0 <= e < self.spec_buckets() && empty_pred()(self.ctrl@[e]);
                assert(!spec_is_full(self.spec_ctrl(e)));
                assert(exists|i: int|
                    0 <= i < self.spec_buckets() && !spec_is_full(#[trigger] self.spec_ctrl(i)));
            }
        }
        let ghost mid = *self;
        proof {
            crate::group::lemma_byte_values();
        }
        let idx = self.find_insert_slot(hash);
        let old_ctrl = self.ctrl[idx];
        if special_is_empty(old_ctrl) {
            if self.growth_left > 0 {
                self.growth_left = self.growth_left - 1;
            }
        }
        let h2b = h2(hash);
        self.set_ctrl(idx, h2b);
        let ghost afterctrl = *self;
        self.set_meta(idx, MODIFIED);
        self.slots.set(idx, Some((key, value)));
        self.hashes = Ghost(self.hashes@.update(idx as int, hash));
        proof {
            lemma_count_bounds(mid.ctrl@, full_pred(), mid.spec_buckets());
            lemma_count_bounds(mid.meta@, dirty_pred(), mid.spec_buckets());
        }
        self.items = self.items + 1;
        self.mod_counter = self.mod_counter + 1;
        proof {
            let bk = mid.spec_buckets();
            let ii = idx as int;
            assert(mid.spec_ctrl(ii) == EMPTY || mid.spec_ctrl(ii) == DELETED);
            assert forall|j: int| 0 <= j < bk && j != ii implies mid.ctrl@[j] == self.ctrl@[j]
                by {}
            assert forall|j: int| 0 <= j < bk && j != ii implies mid.meta@[j] == self.meta@[j]
                by {}
            lemma_count_update(mid.ctrl@, self.ctrl@, full_pred(), bk, ii);
            lemma_count_update(mid.ctrl@, self.ctrl@, deleted_pred(), bk, ii);
            lemma_count_update(mid.meta@, self.meta@, dirty_pred(), bk, ii);
            assert(spec_is_safe(mid.spec_meta(ii)));
            assert(spec_is_full(spec_h2(hash)));
            if mid.spec_ctrl(ii) == EMPTY && mid.spec_growth_left() == 0 {
                assert forall|q: int|
                    0 <= q < bk implies ((#[trigger] mid.ctrl@[q]) == EMPTY || mid.ctrl@[q]
                    == DELETED || spec_is_full(mid.ctrl@[q])) by {
                    assert(mid.spec_ctrl(q) == mid.ctrl@[q]);
                }
                lemma_count_partition(mid.ctrl@, bk);
                lemma_count_at_least_one(mid.ctrl@, empty_pred(), bk, ii);
            }
            // the new bucket is findable through the witness the slot
            // search produced; everyone else only lost an EMPTY byte
            assert(mid.ctrl_stream() == mid.ctrl@);
            let t0 = choose|t0: nat|
                t0 < probe_len(bk - 1) && #[trigger] in_window(hash as int, bk, t0, ii) && (
                forall|t2: nat|
                    t2 < t0 ==> !window_has_empty(mid.ctrl_stream(), hash as int, bk, t2));
            assert(forall|t2: nat|
                t2 < t0 ==> !window_has_empty(mid.ctrl@, hash as int, bk, t2));
            assert forall|t2: nat| t2 < t0 implies !window_has_empty(
                self.ctrl@,
                hash as int,
                bk,
                t2,
            ) by {
                if window_has_empty(self.ctrl@, hash as int, bk, t2) {
                    let b = choose|b: int|
                        0 <= b < GROUP_WIDTH && self.ctrl@[#[trigger] window_slot(
                            hash as int,
                            bk,
                            t2,
                            b,
                        )] == EMPTY;
                    let ws = window_slot(hash as int, bk, t2, b);
                    vstd::arithmetic::div_mod::lemma_mod_bound(
                        probe_pos(hash as int, bk, t2) + b,
                        bk,
                    );
                    crate::probe::lemma_probe_pos_bound(hash as int, bk, t2);
                    assert(self.ctrl@[ii] == spec_h2(hash));
                    assert(spec_is_full(spec_h2(hash)) && !spec_is_full(EMPTY));
                    assert(ws != ii);
                    assert(mid.ctrl@[ws] == EMPTY);
                    assert(window_has_empty(mid.ctrl@, hash as int, bk, t2));
                }
            }
            assert(in_window(hash as int, bk, t0, ii));
            assert(slot_findable(self.ctrl@, hash as int, bk, ii));
            assert forall|j: int|
                0 <= j < bk && j != ii && spec_is_full(#[trigger] self.spec_ctrl(j))
                    implies self.spec_ctrl(j) == spec_h2(self.spec_hash(j)) && slot_findable(
                self.ctrl@,
                self.spec_hash(j) as int,
                bk,
                j,
            ) by {
                assert(self.spec_ctrl(j) == mid.spec_ctrl(j));
                assert(spec_is_full(mid.spec_ctrl(j)));
                assert(self.spec_hash(j) == mid.spec_hash(j));
                let hj = mid.spec_hash(j) as int;
                assert(slot_findable(mid.ctrl@, hj, bk, j));
                let ts = choose|ts: nat|
                    ts < probe_len(bk - 1) && #[trigger] in_window(hj, bk, ts, j) && (forall|
                        t2: nat,
                    |
                        t2 < ts ==> !window_has_empty(mid.ctrl@, hj, bk, t2));
                assert forall|t2: nat| t2 < ts implies !window_has_empty(
                    self.ctrl@,
                    hj,
                    bk,
                    t2,
                ) by {
                    if window_has_empty(self.ctrl@, hj, bk, t2) {
                        let b = choose|b: int|
                            0 <= b < GROUP_WIDTH && self.ctrl@[#[trigger] window_slot(
                                hj,
                                bk,
                                t2,
                                b,
                            )] == EMPTY;
                        let ws = window_slot(hj, bk, t2, b);
                        vstd::arithmetic::div_mod::lemma_mod_bound(
                            probe_pos(hj, bk, t2) + b,
                            bk,
                        );
                        crate::probe::lemma_probe_pos_bound(hj, bk, t2);
                        assert(ws != ii);
                        assert(mid.ctrl@[ws] == EMPTY);
                        assert(window_has_empty(mid.ctrl@, hj, bk, t2));
                    }
                }
                assert(in_window(hj, bk, ts, j));
            }
            assert forall|j: int|
                0 <= j < bk implies crate::group::meta_state(#[trigger] self.spec_meta(j)) by {
                if j != ii {
                    assert(self.spec_meta(j) == mid.spec_meta(j));
                }
            }
            assert forall|j: int|
                0 <= j < bk && !spec_is_full(#[trigger] self.spec_ctrl(j)) implies spec_is_safe(
                self.spec_meta(j),
            ) by {
                assert(j != ii);
                assert(self.spec_ctrl(j) == mid.spec_ctrl(j));
                assert(self.spec_meta(j) == mid.spec_meta(j));
            }
            assert forall|j: int|
                0 <= j < bk implies ((#[trigger] self.spec_slot(j)) is Some == spec_is_full(
                self.spec_ctrl(j),
            )) by {
                if j != ii {
                    assert(self.spec_slot(j) == mid.spec_slot(j));
                    assert(self.spec_ctrl(j) == mid.spec_ctrl(j));
                }
            }
            assert forall|j: int|
                0 <= j < bk implies ((#[trigger] self.spec_ctrl(j)) == EMPTY || self.spec_ctrl(
                j,
            ) == DELETED || spec_is_full(self.spec_ctrl(j))) by {
                if j != ii {
                    assert(self.spec_ctrl(j) == mid.spec_ctrl(j));
                }
            }
            // tie the final state back to the entry state
            if orig.spec_growth_left() == 0 {
                if mid.spec_items() == orig.spec_items() - 1 {
                    let v = choose|v: int|
                        {
                            &&& 0 <= v < orig.spec_buckets()
                            &&& #[trigger] orig.is_bucket_full(v)
                            &&& spec_is_safe(orig.spec_meta(v))
                            &&& mid.spec_slot(v) is None
                            &&& mid.spec_meta(v) == SAFE
                            &&& mid.spec_items() == orig.spec_items() - 1
                            &&& mid.spec_mod_counter() == orig.spec_mod_counter()
                            &&& mid.spec_growth_left() >= orig.spec_growth_left()
                            &&& (forall|j: int|
                                0 <= j < orig.spec_buckets() && j != v
                                    ==> #[trigger] mid.spec_slot(j) == orig.spec_slot(j)
                                    && mid.spec_meta(j) == orig.spec_meta(j) && mid.spec_hash(j)
                                    == orig.spec_hash(j))
                        };
                    assert(0 <= v < bk && orig.is_bucket_full(v) && spec_is_safe(
                        orig.spec_meta(v),
                    ) && self.spec_items() == orig.spec_items());
                    assert forall|j: int|
                        0 <= j < bk && j != ii && j != v
                            implies #[trigger] self.spec_slot(j) == orig.spec_slot(j)
                        && self.spec_meta(j) == orig.spec_meta(j) && self.spec_hash(j)
                        == orig.spec_hash(j) by {
                        assert(self.spec_slot(j) == mid.spec_slot(j));
                        assert(self.spec_meta(j) == mid.spec_meta(j));
                        assert(self.spec_hash(j) == mid.spec_hash(j));
                    }
                    if v != ii {
                        assert(self.spec_slot(v) == mid.spec_slot(v));
                    }
                } else {
                    assert(mid == orig);
                    assert(self.spec_items() == orig.spec_items() + 1);
                    let v = ii;
                    assert forall|j: int|
                        0 <= j < bk && j != ii implies #[trigger] self.spec_slot(j)
                        == orig.spec_slot(j) && self.spec_meta(j) == orig.spec_meta(j)
                        && self.spec_hash(j) == orig.spec_hash(j) by {
                        assert(self.spec_slot(j) == mid.spec_slot(j));
                        assert(self.spec_meta(j) == mid.spec_meta(j));
                    }
                }
            } else {
                assert(mid == orig);
                assert(!spec_is_full(orig.spec_ctrl(ii)));
                assert forall|j: int|
                    0 <= j < bk && j != ii implies #[trigger] self.spec_slot(j)
                    == orig.spec_slot(j) && self.spec_meta(j) == orig.spec_meta(j)
                    && self.spec_hash(j) == orig.spec_hash(j) by {
                    assert(self.spec_slot(j) == mid.spec_slot(j));
                    assert(self.spec_meta(j) == mid.spec_meta(j));
                }
            }
        }
        proof {
            assert(orig == *old(self));
            if orig.spec_growth_left() == 0 && orig.spec_mod_counter() < orig.spec_items() {
                // a clean resident victim existed, so the safe eviction ran
                // and the insertion refilled its slot: items balance out
                assert(mid.spec_items() == orig.spec_items() - 1) by {
                    if mid.spec_items() != orig.spec_items() - 1 {
                        assert(mid == orig);
                        assert(orig.spec_items() == 0) by {
                            if orig.spec_items() > 0 {
                                lemma_count_bounds(orig.meta@, dirty_pred(), orig.spec_buckets());
                                Self::lemma_clean_resident_exists(orig);
                            }
                        };
                    }
                };
            }
            let iidx = idx as int;
            if orig.is_bucket_full(iidx) {
                // a resident slot can only have been reused after the
                // safe eviction erased it, and eviction takes clean prey
                assert(spec_is_safe(orig.spec_meta(iidx))) by {
                    assert(!spec_is_full(mid.spec_ctrl(iidx)));
                    if mid.spec_items() == orig.spec_items() - 1 {
                        let v0 = choose|v0: int|
                            {
                                &&& 0 <= v0 < orig.spec_buckets()
                                &&& #[trigger] orig.is_bucket_full(v0)
                                &&& spec_is_safe(orig.spec_meta(v0))
                                &&& mid.spec_slot(v0) is None
                                &&& mid.spec_meta(v0) == SAFE
                                &&& mid.spec_items() == orig.spec_items() - 1
                                &&& mid.spec_mod_counter() == orig.spec_mod_counter()
                                &&& mid.spec_growth_left() >= orig.spec_growth_left()
                                &&& (forall|j: int|
                                    0 <= j < orig.spec_buckets() && j != v0
                                        ==> #[trigger] mid.spec_slot(j) == orig.spec_slot(j)
                                        && mid.spec_meta(j) == orig.spec_meta(j)
                                        && mid.spec_hash(j) == orig.spec_hash(j))
                            };
                        if iidx != v0 {
                            assert(mid.spec_slot(iidx) == orig.spec_slot(iidx));
                            assert(mid.spec_slot(iidx) is Some);
                            assert(spec_is_full(mid.spec_ctrl(iidx)));
                        }
                    } else {
                        assert(mid == orig);
                        assert(spec_is_full(mid.spec_ctrl(iidx)));
                    }
                };
            }
            if orig.spec_growth_left() == 0 {
                let ii = idx as int;
                if mid.spec_items() == orig.spec_items() - 1 {
                    let v = choose|v: int|
                        {
                            &&& 0 <= v < orig.spec_buckets()
                            &&& #[trigger] orig.is_bucket_full(v)
                            &&& spec_is_safe(orig.spec_meta(v))
                            &&& mid.spec_slot(v) is None
                            &&& mid.spec_meta(v) == SAFE
                            &&& mid.spec_items() == orig.spec_items() - 1
                            &&& mid.spec_mod_counter() == orig.spec_mod_counter()
                            &&& mid.spec_growth_left() >= orig.spec_growth_left()
                            &&& (forall|j: int|
                                0 <= j < orig.spec_buckets() && j != v
                                    ==> #[trigger] mid.spec_slot(j) == orig.spec_slot(j)
                                    && mid.spec_meta(j) == orig.spec_meta(j) && mid.spec_hash(j)
                                    == orig.spec_hash(j))
                        };
                    assert forall|j: int|
                        0 <= j < orig.spec_buckets() && j != ii
                            implies ((#[trigger] self.spec_slot(j) == orig.spec_slot(j)
                        && self.spec_meta(j) == orig.spec_meta(j) && self.spec_hash(j)
                        == orig.spec_hash(j)) || (self.spec_slot(j) is None
                        && orig.is_bucket_full(j) && spec_is_safe(orig.spec_meta(j))
                        && self.spec_meta(j) == SAFE)) by {
                        if j == v {
                            assert(self.spec_slot(v) == mid.spec_slot(v));
                            assert(self.spec_meta(v) == mid.spec_meta(v));
                        } else {
                            assert(self.spec_slot(j) == mid.spec_slot(j));
                            assert(self.spec_meta(j) == mid.spec_meta(j));
                            assert(self.spec_hash(j) == mid.spec_hash(j));
                        }
                    }
                } else {
                    assert(self.spec_items() == orig.spec_items() + 1);
                    assert forall|j: int|
                        0 <= j < orig.spec_buckets() && j != ii
                            implies ((#[trigger] self.spec_slot(j) == orig.spec_slot(j)
                        && self.spec_meta(j) == orig.spec_meta(j) && self.spec_hash(j)
                        == orig.spec_hash(j)) || (self.spec_slot(j) is None
                        && orig.is_bucket_full(j) && spec_is_safe(orig.spec_meta(j))
                        && self.spec_meta(j) == SAFE)) by {
                        assert(self.spec_slot(j) == mid.spec_slot(j));
                        assert(self.spec_meta(j) == mid.spec_meta(j));
                    }
                }
            }
        }
        Bucket { index: idx }
    }

    /// Fewer dirty meta bytes than resident buckets leave some resident
    /// bucket clean.
    proof fn lemma_clean_resident_exists(t: Self)
        requires
            t.wf(),
            t.spec_mod_counter() < t.spec_items(),
        ensures
            exists|j: int|
                0 <= j < t.spec_buckets() && #[trigger] t.is_bucket_full(j) && spec_is_safe(
                    t.spec_meta(j),
                ),
        decreases t.spec_buckets(),
    {
        let bk = t.spec_buckets();
        assert forall|i: int|
            0 <= i < bk && spec_is_modified(#[trigger] t.meta@[i]) implies spec_is_full(
            t.ctrl@[i],
        ) by {
            assert(t.spec_meta(i) == t.meta@[i] && t.spec_ctrl(i) == t.ctrl@[i]);
            if !spec_is_full(t.spec_ctrl(i)) {
                assert(spec_is_safe(t.spec_meta(i)));
            }
        }
        Self::lemma_clean_count(t.ctrl@, t.meta@, bk);
        let j0 = choose|j: int|
            0 <= j < bk && spec_is_full(#[trigger] t.ctrl@[j]) && spec_is_safe(t.meta@[j]);
        assert(t.is_bucket_full(j0) && spec_is_safe(t.spec_meta(j0)));
    }

    /// Counting argument: over any prefix, the resident buckets outnumber
    /// the dirty ones unless some resident bucket is clean.
    proof fn lemma_clean_count(ctrl: Seq<u8>, meta: Seq<u8>, n: int)
        requires
            0 <= n,
            forall|i: int|
                0 <= i < n && spec_is_modified(#[trigger] meta[i]) ==> spec_is_full(ctrl[i]),
            count_byte_if(meta, dirty_pred(), n) < count_byte_if(ctrl, full_pred(), n),
        ensures
            exists|j: int|
                0 <= j < n && spec_is_full(#[trigger] ctrl[j]) && spec_is_safe(meta[j]),
        decreases n,
    {
        if n > 0 {
            if spec_is_full(ctrl[n - 1]) && spec_is_safe(meta[n - 1]) {
            } else {
                Self::lemma_clean_count(ctrl, meta, n - 1);
            }
        }
    }
}


/// The pairs of the dirty buckets among the first `upto`, in bucket
/// order.
pub open spec fn dirty_pairs<K: Key, V: Value>(t: RawTable<K, V>, upto: int) -> Seq<(K, V)>
    decreases upto,
{
    if upto <= 0 {
        Seq::empty()
    } else if spec_is_modified(t.spec_meta(upto - 1)) {
        dirty_pairs(t, upto - 1).push(t.spec_slot(upto - 1)->Some_0)
    } else {
        dirty_pairs(t, upto - 1)
    }
}

/// Each collected pair sits in some dirty resident bucket.
pub proof fn lemma_dirty_pairs_member<K: Key, V: Value>(t: RawTable<K, V>, upto: int, n: int)
    requires
        t.wf(),
        0 <= upto <= t.spec_buckets(),
        0 <= n < dirty_pairs(t, upto).len(),
    ensures
        exists|j: int|
            0 <= j < upto && #[trigger] t.is_bucket_full(j) && spec_is_modified(t.spec_meta(j))
                && t.spec_slot(j)->Some_0 == dirty_pairs(t, upto)[n],
    decreases upto,
{
    crate::group::lemma_byte_values();
    if upto > 0 {
        if spec_is_modified(t.spec_meta(upto - 1)) && n == dirty_pairs(t, upto - 1).len() {
            assert(t.is_bucket_full(upto - 1)) by {
                if !t.is_bucket_full(upto - 1) {
                    assert(spec_is_safe(t.spec_meta(upto - 1)));
                }
            };
        } else {
            lemma_dirty_pairs_member(t, upto - 1, n);
            let j0 = choose|j0: int|
                0 <= j0 < upto - 1 && #[trigger] t.is_bucket_full(j0) && spec_is_modified(
                    t.spec_meta(j0),
                ) && t.spec_slot(j0)->Some_0 == dirty_pairs(t, upto - 1)[n];
            assert(dirty_pairs(t, upto)[n] == dirty_pairs(t, upto - 1)[n]);
        }
    }
}

/// Each dirty resident bucket's pair is collected.
pub proof fn lemma_dirty_pairs_complete<K: Key, V: Value>(t: RawTable<K, V>, upto: int, j: int)
    requires
        0 <= j < upto,
        spec_is_modified(t.spec_meta(j)),
    ensures
        exists|n: int|
            0 <= n < dirty_pairs(t, upto).len() && #[trigger] dirty_pairs(t, upto)[n]
                == t.spec_slot(j)->Some_0,
    decreases upto,
{
    if j == upto - 1 {
        assert(dirty_pairs(t, upto)[dirty_pairs(t, upto).len() - 1] == t.spec_slot(j)->Some_0);
    } else {
        lemma_dirty_pairs_complete(t, upto - 1, j);
        let n0 = choose|n0: int|
            0 <= n0 < dirty_pairs(t, upto - 1).len() && #[trigger] dirty_pairs(t, upto - 1)[n0]
                == t.spec_slot(j)->Some_0;
        assert(dirty_pairs(t, upto)[n0] == t.spec_slot(j)->Some_0);
    }
}

impl<K: Key, V: Value> RawTable<K, V> {
    /// Takes every dirty pair out for persisting, in bucket order, and
    /// stamps the drained buckets clean; the dirty counter falls to zero.
    /// The pairs stay resident - only their meta bytes change.
    pub fn drain_modified(&mut self) -> (r: Vec<(K, V)>)
        requires
            old(self).wf(),
        ensures
            final(self).wf(),
            final(self).same_but_meta(old(self)),
            final(self).spec_mod_counter() == 0,
            forall|j: int|
                0 <= j < old(self).spec_buckets() ==> #[trigger] final(self).spec_meta(j) == (
                if spec_is_modified(old(self).spec_meta(j)) {
                    SAFE
                } else {
                    old(self).spec_meta(j)
                }),
            r@ == dirty_pairs(*old(self), old(self).spec_buckets()),
    {
        let ghost orig = *self;
        let buckets = self.bucket_mask + 1;
        let ghost bk = buckets as int;
        let mut out: Vec<(K, V)> = Vec::new();
        let mut i: usize = 0;
        while i < buckets
            invariant
                self.wf(),
                buckets == self.spec_buckets(),
                bk == buckets as int,
                i <= buckets,
                self.same_but_meta(&orig),
                orig.wf(),
                self.spec_mod_limit() == orig.spec_mod_limit(),
                self.bucket_mask == orig.bucket_mask,
                forall|j: int|
                    0 <= j < bk ==> #[trigger] self.spec_meta(j) == (if j < i && spec_is_modified(
                        orig.spec_meta(j),
                    ) {
                        SAFE
                    } else {
                        orig.spec_meta(j)
                    }),
                self.spec_mod_counter() == count_byte_if(orig.meta@, dirty_pred(), bk)
                    - count_byte_if(orig.meta@, dirty_pred(), i as int),
                out@ == dirty_pairs(orig, i as int),
            decreases buckets - i,
        {
            proof {
                crate::group::lemma_byte_values();
                lemma_count_bounds(orig.meta@, dirty_pred(), i as int);
                lemma_count_bounds(orig.meta@, dirty_pred(), i + 1);
            }
            if is_modified(self.meta[i]) {
                proof {
                    assert(self.spec_meta(i as int) == orig.spec_meta(i as int));
                    assert(self.is_bucket_full(i as int));
                    assert(self.spec_slot(i as int) is Some);
                }
                let pair = match &self.slots[i] {
                    Some(p) => (p.0.key_clone(), p.1.val_clone()),
                    None => {
                        proof {
                            assert(false);
                        }
                        vstd::pervasive::unreached()
                    },
                };
                proof {
                    assert(self.spec_slot(i as int) == orig.spec_slot(i as int));
                    assert(pair.0 == orig.spec_slot(i as int)->Some_0.0 && pair.1
                        == orig.spec_slot(i as int)->Some_0.1);
                }
                let ghost out_pre = out@;
                out.push(pair);
                proof {
                    assert(out@.last() == orig.spec_slot(i as int)->Some_0);
                    assert(out@ == out_pre.push(orig.spec_slot(i as int)->Some_0));
                    assert(out_pre == dirty_pairs(orig, i as int));
                    assert(spec_is_modified(orig.spec_meta(i as int)));
                    assert(dirty_pairs(orig, i + 1) == dirty_pairs(orig, i as int).push(
                        orig.spec_slot(i as int)->Some_0,
                    ));
                    assert(out@ =~= dirty_pairs(orig, i + 1));
                }
                let ghost pre = *self;
                self.set_meta(i, SAFE);
                proof {
                    lemma_count_bounds(pre.meta@, dirty_pred(), bk);
                    assert(count_byte_if(orig.meta@, dirty_pred(), i + 1) == count_byte_if(
                        orig.meta@,
                        dirty_pred(),
                        i as int,
                    ) + 1);
                    lemma_count_monotone(orig.meta@, dirty_pred(), i + 1, bk);
                    assert(pre.spec_mod_counter() >= 1);
                }
                self.mod_counter = self.mod_counter - 1;
                proof {
                    Self::lemma_wf_after_meta_change(pre, *self, i as int, SAFE);
                    assert forall|j: int|
                        0 <= j < bk implies #[trigger] self.spec_slot(j) == orig.spec_slot(
                        j,
                    ) by {
                        assert(self.spec_slot(j) == pre.spec_slot(j));
                    }
                    assert forall|j: int|
                        0 <= j < bk implies #[trigger] self.spec_hash(j) == orig.spec_hash(
                        j,
                    ) by {
                        assert(self.spec_hash(j) == pre.spec_hash(j));
                    }
                    assert(self.ctrl_stream() == orig.ctrl_stream());
                    assert forall|j: int|
                        0 <= j < bk implies #[trigger] self.spec_meta(j) == (if j < i + 1
                        && spec_is_modified(orig.spec_meta(j)) {
                        SAFE
                    } else {
                        orig.spec_meta(j)
                    }) by {
                        if j != i {
                            assert(self.spec_meta(j) == pre.spec_meta(j));
                        }
                    }
                }
            } else {
                proof {
                    assert(self.spec_meta(i as int) == orig.spec_meta(i as int));
                    assert(!spec_is_modified(orig.spec_meta(i as int)));
                    assert(out@ =~= dirty_pairs(orig, i + 1));
                    assert forall|j: int|
                        0 <= j < bk implies #[trigger] self.spec_meta(j) == (if j < i + 1
                        && spec_is_modified(orig.spec_meta(j)) {
                        SAFE
                    } else {
                        orig.spec_meta(j)
                    }) by {}
                }
            }
            i = i + 1;
        }
        proof {
            lemma_count_bounds(orig.meta@, dirty_pred(), bk);
            assert(orig == *old(self));
        }
        out
    }
}


impl<K: Key, V: Value> RawTable<K, V> {
    /// Meta byte of the bucket holding `key` under `hash`, if resident;
    /// a pure probe that touches nothing.
    pub fn find_meta(&self, hash: u64, key: &K) -> (r: Option<u8>)
        requires
            self.wf(),
        ensures
            match r {
                Some(m) => exists|i: int|
                    0 <= i < self.spec_buckets() && #[trigger] self.is_bucket_full(i)
                        && self.spec_slot(i)->Some_0.0 == *key && self.spec_meta(i) == m,
                None => !self.has_key(hash, *key),
            },
    {
        match self.probe_find(hash, key) {
            Some(i) => {
                let m = self.meta[i];
                proof {
                    assert(self.is_bucket_full(i as int) && self.spec_slot(i as int)->Some_0.0
                        == *key && self.spec_meta(i as int) == m);
                }
                Some(m)
            },
            None => None,
        }
    }
}


impl<K: Key, V: Value> RawTable<K, V> {
    /// An empty table has no resident bucket.
    pub proof fn lemma_items_zero_no_full(&self)
        requires
            self.wf(),
            self.spec_items() == 0,
        ensures
            forall|i: int| 0 <= i < self.spec_buckets() ==> !(#[trigger] self.is_bucket_full(i)),
    {
        assert forall|i: int|
            0 <= i < self.spec_buckets() implies !(#[trigger] self.is_bucket_full(i)) by {
            if self.is_bucket_full(i) {
                lemma_count_at_least_one(self.ctrl@, full_pred(), self.spec_buckets(), i);
            }
        }
    }
}


impl<K: Key, V: Value> RawTable<K, V> {
    /// Tables with the same control stream agree on residency.
    pub proof fn lemma_ctrl_same_full(&self, other: Self, i: int)
        requires
            self.ctrl_stream() == other.ctrl_stream(),
        ensures
            self.is_bucket_full(i) == other.is_bucket_full(i),
    {
    }

    /// The counters are counts: none is negative, and the table has at
    /// least one bucket.
    pub proof fn lemma_counters_nonneg(&self)
        ensures
            self.spec_items() >= 0,
            self.spec_growth_left() >= 0,
            self.spec_mod_counter() >= 0,
            self.spec_mod_limit() >= 0,
            self.spec_buckets() >= 1,
            self.spec_bucket_mask() >= 0,
            self.spec_buckets() == self.spec_bucket_mask() + 1,
    {
    }

    /// Occupancy of one bucket, without assuming the whole invariant.
    pub proof fn lemma_full_iff_some_weak(&self, i: int)
        requires
            self.wf(),
            0 <= i < self.spec_buckets(),
        ensures
            self.is_bucket_full(i) == (self.spec_slot(i) is Some),
    {
    }

    /// Residency and slot occupancy coincide.
    pub proof fn lemma_full_iff_some(&self)
        requires
            self.wf(),
        ensures
            forall|i: int|
                0 <= i < self.spec_buckets() ==> #[trigger] self.is_bucket_full(i) == (
                self.spec_slot(i) is Some),
    {
    }

    /// Equal meta streams give equal meta bytes.
    pub proof fn lemma_meta_stream_eq(&self, other: Self, j: int)
        requires
            self.meta_stream() == other.meta_stream(),
        ensures
            self.spec_meta(j) == other.spec_meta(j),
    {
    }

    /// A zero dirty counter leaves no dirty bucket.
    pub proof fn lemma_no_dirty_when_zero(&self)
        requires
            self.wf(),
            self.spec_mod_counter() == 0,
        ensures
            forall|j: int|
                0 <= j < self.spec_buckets() ==> !spec_is_modified(
                    #[trigger] self.spec_meta(j),
                ),
    {
        assert forall|j: int|
            0 <= j < self.spec_buckets() implies !spec_is_modified(
            #[trigger] self.spec_meta(j),
        ) by {
            if spec_is_modified(self.spec_meta(j)) {
                lemma_count_at_least_one(self.meta@, dirty_pred(), self.spec_buckets(), j);
            }
        }
    }
}


/// The drain yields each bucket once, so with unique resident keys
/// two drain positions always carry different keys.
pub proof fn lemma_dirty_pairs_keys_distinct<K: Key, V: Value>(
t: RawTable<K, V>,
upto: int,
m: int,
m2: int,
)
    requires
        t.wf(),
        forall|a: int, b: int|
            0 <= a < b < t.spec_buckets() && #[trigger] t.is_bucket_full(a)
                && #[trigger] t.is_bucket_full(b) ==> t.spec_slot(a)->Some_0.0
                != t.spec_slot(b)->Some_0.0,
        0 <= upto <= t.spec_buckets(),
        0 <= m < m2 < dirty_pairs(t, upto).len(),
    ensures
        dirty_pairs(t, upto)[m].0 != dirty_pairs(t, upto)[m2].0,
    decreases upto,
{
    crate::group::lemma_byte_values();
    let prev = dirty_pairs(t, (upto - 1) as int);
    if spec_is_modified(t.spec_meta(upto - 1)) && m2 == prev.len() {
        lemma_dirty_pairs_member(t, upto - 1, m);
        let j0 = choose|j0: int|
            0 <= j0 < upto - 1 && #[trigger] t.is_bucket_full(j0) && spec_is_modified(
                t.spec_meta(j0),
            ) && t.spec_slot(j0)->Some_0 == prev[m];
        assert(t.is_bucket_full(upto - 1)) by {
            if !t.is_bucket_full(upto - 1) {
                assert(spec_is_safe(t.spec_meta(upto - 1)));
            }
        };
        assert(t.spec_slot(j0)->Some_0.0 != t.spec_slot(upto - 1)->Some_0.0);
        assert(dirty_pairs(t, upto)[m] == prev[m]);
    } else {
        assert(m2 < prev.len());
        lemma_dirty_pairs_keys_distinct(t, (upto - 1) as int, m, m2);
        assert(dirty_pairs(t, upto)[m] == prev[m]);
        assert(dirty_pairs(t, upto)[m2] == prev[m2]);
    }
}


/// Iterator over the pairs that were dirty when it was taken: the taking
/// resets their meta bytes to clean, so the walk must be driven to the
/// end and every yielded pair persisted.
pub struct ModifiedIterator<K: Key, V: Value> {
    pairs: Vec<(K, V)>,
    pos: usize,
}

impl<K: Key, V: Value> ModifiedIterator<K, V> {
    pub closed spec fn spec_pairs(&self) -> Seq<(K, V)> {
        self.pairs@
    }

    pub closed spec fn spec_pos(&self) -> int {
        self.pos as int
    }

    /// The next drained pair, in bucket order.
    pub fn next(&mut self) -> (r: Option<(K, V)>)
        requires
            old(self).spec_pos() <= old(self).spec_pairs().len(),
        ensures
            final(self).spec_pairs() == old(self).spec_pairs(),
            match r {
                Some(p) => old(self).spec_pos() < old(self).spec_pairs().len() && p == old(
                    self,
                ).spec_pairs()[old(self).spec_pos()]
                    && final(self).spec_pos() == old(self).spec_pos() + 1,
                None => old(self).spec_pos() == old(self).spec_pairs().len()
                    && final(self).spec_pos() == old(self).spec_pos(),
            },
    {
        if self.pos < self.pairs.len() {
            let p = &self.pairs[self.pos];
            let r = (p.0.key_clone(), p.1.val_clone());
            self.pos = self.pos + 1;
            Some(r)
        } else {
            None
        }
    }
}

/// Iterator over every resident pair.
pub struct RawIter<K: Key, V: Value> {
    pairs: Vec<(K, V)>,
    pos: usize,
}

impl<K: Key, V: Value> RawIter<K, V> {
    pub closed spec fn spec_pairs(&self) -> Seq<(K, V)> {
        self.pairs@
    }

    pub closed spec fn spec_pos(&self) -> int {
        self.pos as int
    }

    /// The next resident pair, in bucket order.
    pub fn next(&mut self) -> (r: Option<(K, V)>)
        requires
            old(self).spec_pos() <= old(self).spec_pairs().len(),
        ensures
            final(self).spec_pairs() == old(self).spec_pairs(),
            match r {
                Some(p) => old(self).spec_pos() < old(self).spec_pairs().len() && p == old(
                    self,
                ).spec_pairs()[old(self).spec_pos()]
                    && final(self).spec_pos() == old(self).spec_pos() + 1,
                None => old(self).spec_pos() == old(self).spec_pairs().len()
                    && final(self).spec_pos() == old(self).spec_pos(),
            },
    {
        if self.pos < self.pairs.len() {
            let p = &self.pairs[self.pos];
            let r = (p.0.key_clone(), p.1.val_clone());
            self.pos = self.pos + 1;
            Some(r)
        } else {
            None
        }
    }
}

impl<K: Key, V: Value> RawTable<K, V> {
    /// Takes every dirty pair into an iterator, stamping the buckets
    /// clean; the dirty counter falls to zero when the iterator is taken,
    /// so the caller must persist every pair it yields.
    pub fn iter_modified(&mut self) -> (r: ModifiedIterator<K, V>)
        requires
            old(self).wf(),
        ensures
            final(self).wf(),
            final(self).same_but_meta(old(self)),
            final(self).spec_mod_counter() == 0,
            forall|j: int|
                0 <= j < old(self).spec_buckets() ==> #[trigger] final(self).spec_meta(j) == (
                if spec_is_modified(old(self).spec_meta(j)) {
                    SAFE
                } else {
                    old(self).spec_meta(j)
                }),
            r.spec_pairs() == dirty_pairs(*old(self), old(self).spec_buckets()),
            r.spec_pos() == 0,
    {
        let pairs = self.drain_modified();
        ModifiedIterator { pairs, pos: 0 }
    }

    /// Clones every resident pair into an iterator, in bucket order.
    pub fn iter(&self) -> (r: RawIter<K, V>)
        requires
            self.wf(),
        ensures
            r.spec_pos() == 0,
            r.spec_pairs().len() == self.spec_items(),
    {
        let buckets = self.bucket_mask + 1;
        let ghost bk = buckets as int;
        let mut pairs: Vec<(K, V)> = Vec::new();
        let mut i: usize = 0;
        while i < buckets
            invariant
                self.wf(),
                buckets == self.spec_buckets(),
                bk == buckets as int,
                i <= buckets,
                pairs@.len() == count_byte_if(self.ctrl@, full_pred(), i as int),
            decreases buckets - i,
        {
            proof {
                crate::group::lemma_byte_values();
            }
            if is_full(self.ctrl_byte(i)) {
                proof {
                    assert(self.spec_slot(i as int) is Some);
                }
                match &self.slots[i] {
                    Some(p) => {
                        pairs.push((p.0.key_clone(), p.1.val_clone()));
                    },
                    None => {
                        proof {
                            assert(false);
                        }
                    },
                }
            }
            i = i + 1;
        }
        RawIter { pairs, pos: 0 }
    }
}

/// A table configuration probe: capacities and alignments must be powers
/// of two.
pub struct Table {
    pub capacity: usize,
    pub align: usize,
}

impl Table {
    pub fn new(capacity: usize, align: usize) -> (r: Table)
        requires
            is_pow2(capacity as int),
            is_pow2(align as int),
        ensures
            r.capacity == capacity,
            r.align == align,
    {
        Table { capacity, align }
    }
}

} // verus!
