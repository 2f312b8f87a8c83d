use vstd::prelude::*;

verus! {

/// Width of a probe group: how many control bytes one probe step inspects.
pub const GROUP_WIDTH: usize = 16;

/// Control byte of a bucket that has never been written, or was erased
/// outside a fully occupied probe run.
pub const EMPTY: u8 = 0xff;

/// Control byte of a bucket erased inside a fully occupied probe run.
pub const DELETED: u8 = 0x80;

/// Meta byte of a bucket that matches the durable store and was not read
/// since the last clearing.
pub const SAFE: u8 = 0x00;

/// Meta byte of a clean bucket that was read since the last clearing.
pub const SAFE_TOUCHED: u8 = 0x40;

/// Meta byte of a bucket that differs from the durable store.
pub const MODIFIED: u8 = 0x80;

/// Meta byte of a dirty bucket that was also read since the last clearing.
pub const MODIFIED_TOUCHED: u8 = 0xc0;

/// A control byte with a clear top bit carries the secondary hash of a
/// resident key.
pub open spec fn spec_is_full(ctrl: u8) -> bool {
    ctrl & 0x80 == 0
}

#[verifier::when_used_as_spec(spec_is_full)]
pub fn is_full(ctrl: u8) -> (r: bool)
    ensures
        r == spec_is_full(ctrl),
{
    ctrl & 0x80 == 0
}

/// A control byte with a set top bit is special: EMPTY or DELETED.
pub open spec fn spec_is_special(ctrl: u8) -> bool {
    ctrl & 0x80 != 0
}

#[verifier::when_used_as_spec(spec_is_special)]
pub fn is_special(ctrl: u8) -> (r: bool)
    ensures
        r == spec_is_special(ctrl),
{
    ctrl & 0x80 != 0
}

/// Among special control bytes, the low bit tells EMPTY from DELETED.
pub open spec fn spec_special_is_empty(ctrl: u8) -> bool {
    ctrl & 0x01 != 0
}

#[verifier::when_used_as_spec(spec_special_is_empty)]
pub fn special_is_empty(ctrl: u8) -> (r: bool)
    ensures
        r == spec_special_is_empty(ctrl),
{
    ctrl & 0x01 != 0
}

/// A meta byte with a set top bit marks a dirty bucket.
pub open spec fn spec_is_modified(meta: u8) -> bool {
    meta & 0x80 != 0
}

#[verifier::when_used_as_spec(spec_is_modified)]
pub fn is_modified(meta: u8) -> (r: bool)
    ensures
        r == spec_is_modified(meta),
{
    meta & 0x80 != 0
}

/// A meta byte with a clear top bit marks a clean bucket.
pub open spec fn spec_is_safe(meta: u8) -> bool {
    meta & 0x80 == 0
}

#[verifier::when_used_as_spec(spec_is_safe)]
pub fn is_safe(meta: u8) -> (r: bool)
    ensures
        r == spec_is_safe(meta),
{
    meta & 0x80 == 0
}

/// The four meta states a bucket can carry.
pub open spec fn meta_state(meta: u8) -> bool {
    meta == SAFE || meta == SAFE_TOUCHED || meta == MODIFIED || meta == MODIFIED_TOUCHED
}

/// Relates the named byte values to the bit predicates above.
pub proof fn lemma_byte_values()
    ensures
        !spec_is_full(EMPTY) && spec_is_special(EMPTY) && spec_special_is_empty(EMPTY),
        !spec_is_full(DELETED) && spec_is_special(DELETED) && !spec_special_is_empty(DELETED),
        spec_is_safe(SAFE) && spec_is_safe(SAFE_TOUCHED),
        spec_is_modified(MODIFIED) && spec_is_modified(MODIFIED_TOUCHED),
        !spec_is_modified(SAFE) && !spec_is_modified(SAFE_TOUCHED),
{
    assert(0xffu8 & 0x80 != 0 && 0xffu8 & 0x01 != 0 && 0x80u8 & 0x80 != 0 && 0x80u8 & 0x01 == 0
        && 0x00u8 & 0x80 == 0 && 0x40u8 & 0x80 == 0 && 0xc0u8 & 0x80 != 0) by (bit_vector);
}

/// Primary hash: selects the bucket the probe starts from.
pub open spec fn spec_h1(hash: u64) -> usize {
    hash as usize
}

#[verifier::when_used_as_spec(spec_h1)]
pub fn h1(hash: u64) -> (r: usize)
    ensures
        r == spec_h1(hash),
{
    hash as usize
}

/// Secondary hash: the top seven bits, stored in the control byte of a
/// resident key for group-parallel filtering.
pub open spec fn spec_h2(hash: u64) -> u8 {
    ((hash >> 57) & 0x7f) as u8
}

#[verifier::when_used_as_spec(spec_h2)]
pub fn h2(hash: u64) -> (r: u8)
    ensures
        r == spec_h2(hash),
        spec_is_full(spec_h2(hash)),
{
    let r: u8 = ((hash >> 57) & 0x7f) as u8;
    proof {
        assert(((((hash >> 57) & 0x7f) as u8) & 0x80) == 0) by (bit_vector);
    }
    r
}

/// Whether `n` is a power of two.
pub open spec fn is_pow2(n: int) -> bool
    decreases n,
{
    if n <= 0 {
        false
    } else if n == 1 {
        true
    } else {
        n % 2 == 0 && is_pow2(n / 2)
    }
}

/// A power of two below the group width is one of 1, 2, 4 or 8, so it
/// divides the group width.
pub proof fn lemma_small_pow2(n: int)
    requires
        is_pow2(n),
        n < 16,
    ensures
        n == 1 || n == 2 || n == 4 || n == 8,
        16int % n == 0,
    decreases n,
{
    if n > 1 {
        lemma_small_pow2(n / 2);
        assert(n == 2 * (n / 2));
    }
    assert(16int % 1int == 0 && 16int % 2int == 0 && 16int % 4int == 0 && 16int % 8int == 0);
}

/// Smallest power of two at or above `x`.
pub fn next_pow2(x: usize) -> (r: usize)
    requires
        1 <= x <= 0x4000_0000,
    ensures
        is_pow2(r as int),
        r >= x,
        r < 2 * x,
{
    let mut p: usize = 1;
    while p < x
        invariant
            1 <= p,
            is_pow2(p as int),
            p < 2 * x,
            x <= 0x4000_0000,
        decreases 2 * x - p,
    {
        p = p * 2;
    }
    p
}

/// Largest number of resident entries a table with the given bucket mask
/// may hold: one slot is reserved on small tables, an eighth on large ones.
pub open spec fn spec_bucket_mask_to_capacity(bucket_mask: int) -> int {
    if bucket_mask < 8 {
        bucket_mask
    } else {
        ((bucket_mask + 1) / 8) * 7
    }
}

pub fn bucket_mask_to_capacity(bucket_mask: usize) -> (r: usize)
    requires
        bucket_mask < 0x4000_0000,
    ensures
        r == spec_bucket_mask_to_capacity(bucket_mask as int),
{
    if bucket_mask < 8 {
        bucket_mask
    } else {
        ((bucket_mask + 1) / 8) * 7
    }
}

/// The reserved slots never shrink to nothing: the effective capacity sits
/// strictly below the bucket count.
pub proof fn lemma_capacity_below_buckets(bucket_mask: int)
    requires
        bucket_mask >= 0,
    ensures
        spec_bucket_mask_to_capacity(bucket_mask) < bucket_mask + 1,
{
}

/// Number of buckets needed to hold `cap` entries under the load ceiling,
/// `None` when the request is beyond what this machine can address.
pub fn capacity_to_buckets(cap: usize) -> (r: Option<usize>)
    requires
        cap >= 1,
    ensures
        match r {
            Some(b) => {
                &&& is_pow2(b as int)
                &&& b >= 2
                &&& b <= 0x4000_0000
                &&& spec_bucket_mask_to_capacity(b - 1) >= cap
            },
            None => cap > 0x1000_0000,
        },
{
    if cap > 0x1000_0000 {
        return None;
    }
    if cap < 8 {
        let b = next_pow2(cap + 1);
        proof {
            lemma_small_pow2(b as int);
            assert(b >= cap + 1);
            assert(b - 1 < 8);
        }
        Some(b)
    } else {
        let adjusted = (cap * 8) / 7;
        let b = next_pow2(adjusted);
        proof {
            let a = adjusted as int;
            let c = cap as int;
            let bi = b as int;
            assert(7 * a >= 8 * c - 6) by (nonlinear_arith)
                requires a == (8 * c) / 7 && c >= 8;
            assert(bi >= 16) by {
                assert(a >= 9) by (nonlinear_arith)
                    requires a == (8 * c) / 7 && c >= 8;
                lemma_pow2_ge_nine_is_ge_sixteen(bi, a);
            };
            assert(bi % 8 == 0) by {
                lemma_pow2_multiple_of_eight(bi);
            };
            if bi == a {
                assert(8 * c <= 7 * a + 6);
                assert((bi / 8) * 7 >= c) by (nonlinear_arith)
                    requires bi % 8 == 0 && 8 * c <= 7 * bi + 6 && bi >= 16;
            } else {
                assert(bi >= a + 1);
                assert((bi / 8) * 7 >= c) by (nonlinear_arith)
                    requires bi % 8 == 0 && 7 * a >= 8 * c - 6 && bi >= a + 1 && bi >= 16;
            }
            assert(spec_bucket_mask_to_capacity(bi - 1) == ((bi - 1 + 1) / 8) * 7);
        }
        Some(b)
    }
}

/// A power of two at or above nine is at least sixteen.
proof fn lemma_pow2_ge_nine_is_ge_sixteen(b: int, a: int)
    requires
        is_pow2(b),
        b >= a,
        a >= 9,
    ensures
        b >= 16,
{
    if b < 16 {
        lemma_small_pow2(b);
    }
}

/// A power of two at or above sixteen is a multiple of eight.
proof fn lemma_pow2_multiple_of_eight(b: int)
    requires
        is_pow2(b),
        b >= 16,
    ensures
        b % 8 == 0,
    decreases b,
{
    if b == 16 {
    } else {
        assert(b % 2 == 0 && b == 2 * (b / 2));
        if b / 2 < 16 {
            lemma_small_pow2(b / 2);
        }
        lemma_pow2_multiple_of_eight(b / 2);
        assert(b % 2 == 0 && (b / 2) % 8 == 0 ==> b % 8 == 0) by (nonlinear_arith);
    }
}

/// Mirror position of index `i` in the replicated trailing group: writing a
/// byte at `i` and at its mirror keeps every unaligned group load coherent.
pub open spec fn spec_mirror(buckets: int, i: int) -> int {
    if i >= GROUP_WIDTH {
        i
    } else if buckets >= GROUP_WIDTH {
        i + buckets
    } else {
        i + GROUP_WIDTH
    }
}

pub fn mirror(buckets: usize, i: usize) -> (r: usize)
    requires
        i < buckets,
        buckets <= 0x4000_0000,
    ensures
        r == spec_mirror(buckets as int, i as int),
{
    if i >= GROUP_WIDTH {
        i
    } else if buckets >= GROUP_WIDTH {
        i + buckets
    } else {
        i + GROUP_WIDTH
    }
}

/// The trailing `GROUP_WIDTH` bytes replicate the leading bytes (and carry
/// `fill` in the stretch a table smaller than one group never writes), so
/// that a group load at any in-range start reads a coherent window.
pub open spec fn replicated(s: Seq<u8>, buckets: int, fill: u8) -> bool {
    &&& (buckets >= GROUP_WIDTH ==> forall|j: int|
        buckets <= j < buckets + GROUP_WIDTH ==> #[trigger] s[j] == s[j - buckets])
    &&& (buckets < GROUP_WIDTH ==> {
        &&& (forall|j: int| buckets <= j < GROUP_WIDTH ==> #[trigger] s[j] == fill)
        &&& (forall|j: int|
            GROUP_WIDTH <= j < GROUP_WIDTH + buckets ==> #[trigger] s[j] == s[j - GROUP_WIDTH])
    })
}

/// Lowest position `b` in `[start, GROUP_WIDTH)` whose byte at `pos + b`
/// equals `byte`; `None` when no such position exists.
pub fn group_match_byte_from(v: &Vec<u8>, pos: usize, byte: u8, start: usize) -> (r: Option<
    usize,
>)
    requires
        pos + GROUP_WIDTH <= v@.len(),
        start <= GROUP_WIDTH,
    ensures
        match r {
            Some(b) => {
                &&& start <= b < GROUP_WIDTH
                &&& v@[pos + b] == byte
                &&& forall|j: int| pos + start <= j < pos + b ==> v@[j] != byte
            },
            None => forall|j: int| pos + start <= j < pos + GROUP_WIDTH ==> v@[j] != byte,
        },
{
    let n = v.len();
    let mut b = start;
    while b < GROUP_WIDTH
        invariant
            start <= b <= GROUP_WIDTH,
            pos + GROUP_WIDTH <= n == v@.len(),
            forall|j: int| pos + start <= j < pos + b ==> v@[j] != byte,
        decreases GROUP_WIDTH - b,
    {
        if v[pos + b] == byte {
            return Some(b);
        }
        b = b + 1;
    }
    None
}

/// Lowest position `b` in `[start, GROUP_WIDTH)` whose byte at `pos + b` is
/// special (EMPTY or DELETED); `None` when the whole window is full bytes.
pub fn group_match_special_from(v: &Vec<u8>, pos: usize, start: usize) -> (r: Option<usize>)
    requires
        pos + GROUP_WIDTH <= v@.len(),
        start <= GROUP_WIDTH,
    ensures
        match r {
            Some(b) => {
                &&& start <= b < GROUP_WIDTH
                &&& spec_is_special(v@[pos + b])
                &&& forall|j: int| pos + start <= j < pos + b ==> !spec_is_special(#[trigger] v@[j])
            },
            None => forall|j: int|
                pos + start <= j < pos + GROUP_WIDTH ==> !spec_is_special(#[trigger] v@[j]),
        },
{
    let n = v.len();
    let mut b = start;
    while b < GROUP_WIDTH
        invariant
            start <= b <= GROUP_WIDTH,
            pos + GROUP_WIDTH <= n == v@.len(),
            forall|j: int| pos + start <= j < pos + b ==> !spec_is_special(#[trigger] v@[j]),
        decreases GROUP_WIDTH - b,
    {
        if is_special(v[pos + b]) {
            return Some(b);
        }
        b = b + 1;
    }
    None
}

/// Whether the window at `pos` holds at least one EMPTY byte.
pub fn group_has_empty(v: &Vec<u8>, pos: usize) -> (r: bool)
    requires
        pos + GROUP_WIDTH <= v@.len(),
    ensures
        r == exists|j: int| pos <= j < pos + GROUP_WIDTH && v@[j] == EMPTY,
{
    match group_match_byte_from(v, pos, EMPTY, 0) {
        Some(b) => {
            proof {
                assert(v@[pos + b] == EMPTY);
            }
            true
        },
        None => {
            proof {
                assert(forall|j: int| pos <= j < pos + GROUP_WIDTH ==> v@[j] != EMPTY);
            }
            false
        },
    }
}

/// Length of the run of non-EMPTY bytes at the low end of the window at
/// `pos` (the `trailing_zeros` of its EMPTY mask).
pub fn group_nonempty_run_low(v: &Vec<u8>, pos: usize) -> (tz: usize)
    requires
        pos + GROUP_WIDTH <= v@.len(),
    ensures
        tz <= GROUP_WIDTH,
        forall|j: int| pos <= j < pos + tz ==> v@[j] != EMPTY,
        tz < GROUP_WIDTH ==> v@[pos + tz] == EMPTY,
{
    let n = v.len();
    let mut b: usize = 0;
    while b < GROUP_WIDTH
        invariant
            b <= GROUP_WIDTH,
            pos + GROUP_WIDTH <= n == v@.len(),
            forall|j: int| pos <= j < pos + b ==> v@[j] != EMPTY,
        decreases GROUP_WIDTH - b,
    {
        if v[pos + b] == EMPTY {
            return b;
        }
        b = b + 1;
    }
    GROUP_WIDTH
}

/// Length of the run of non-EMPTY bytes at the high end of the window at
/// `pos` (the `leading_zeros` of its EMPTY mask).
pub fn group_nonempty_run_high(v: &Vec<u8>, pos: usize) -> (lz: usize)
    requires
        pos + GROUP_WIDTH <= v@.len(),
    ensures
        lz <= GROUP_WIDTH,
        forall|j: int| pos + GROUP_WIDTH - lz <= j < pos + GROUP_WIDTH ==> v@[j] != EMPTY,
        lz < GROUP_WIDTH ==> v@[pos + (GROUP_WIDTH - 1 - lz)] == EMPTY,
{
    let n = v.len();
    let mut lz: usize = 0;
    while lz < GROUP_WIDTH
        invariant
            lz <= GROUP_WIDTH,
            pos + GROUP_WIDTH <= n == v@.len(),
            forall|j: int| pos + GROUP_WIDTH - lz <= j < pos + GROUP_WIDTH ==> v@[j] != EMPTY,
        decreases GROUP_WIDTH - lz,
    {
        if v[pos + (GROUP_WIDTH - 1 - lz)] == EMPTY {
            return lz;
        }
        lz = lz + 1;
    }
    GROUP_WIDTH
}

} // verus!
