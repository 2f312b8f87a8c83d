use vstd::prelude::*;
use crate::error::BrittMarieError;

verus! {

/// Little-endian base-128 varint encoding with continuation bits, as the
/// protobuf wire format defines it.
pub open spec fn varint(v: nat) -> Seq<u8>
    decreases v,
{
    if v < 128 {
        seq![v as u8]
    } else {
        seq![(128 + v % 128) as u8] + varint(v / 128)
    }
}

/// Bytes of the protobuf `UInt64Value` wrapper message holding `v`: nothing
/// for the default value, otherwise the field-one varint tag and `v` itself.
pub open spec fn prost_u64_bytes(v: u64) -> Seq<u8> {
    if v == 0 {
        seq![]
    } else {
        seq![0x08u8] + varint(v as nat)
    }
}

/// A varint encodes each number in exactly one way.
pub proof fn lemma_varint_injective(a: nat, b: nat)
    requires
        varint(a) == varint(b),
    ensures
        a == b,
    decreases a,
{
    if a < 128 && b < 128 {
        assert(varint(a)[0] == a as u8 && varint(b)[0] == b as u8);
    } else if a < 128 {
        assert(varint(a).len() == 1);
        assert(varint(b).len() == 1 + varint((b / 128) as nat).len());
    } else if b < 128 {
        assert(varint(b).len() == 1);
        assert(varint(a).len() == 1 + varint((a / 128) as nat).len());
    } else {
        assert(varint(a)[0] == (128 + a % 128) as u8);
        assert(varint(b)[0] == (128 + b % 128) as u8);
        assert(a % 128 == b % 128);
        assert(varint(a).subrange(1, varint(a).len() as int) =~= varint((a / 128) as nat));
        assert(varint(b).subrange(1, varint(b).len() as int) =~= varint((b / 128) as nat));
        lemma_varint_injective((a / 128) as nat, (b / 128) as nat);
        assert(a == 128 * (a / 128) + a % 128);
        assert(b == 128 * (b / 128) + b % 128);
    }
}

/// The shape of a `u64` encoding: empty, or led by the field-one tag.
/// Raw store keys that start with any other byte can never collide with
/// an encoded `u64` key.
pub proof fn lemma_prost_u64_bytes_shape(v: u64)
    ensures
        prost_u64_bytes(v).len() == 0 || (prost_u64_bytes(v).len() >= 2 && prost_u64_bytes(v)[0]
            == 8),
{
    if v != 0 {
        assert(varint(v as nat).len() >= 1);
    }
}

/// The `u64` encoding is injective.
pub proof fn lemma_prost_u64_injective(a: u64, b: u64)
    requires
        prost_u64_bytes(a) == prost_u64_bytes(b),
    ensures
        a == b,
{
    if a == 0 && b == 0 {
    } else if a == 0 {
        assert(prost_u64_bytes(b).len() >= 1);
    } else if b == 0 {
        assert(prost_u64_bytes(a).len() >= 1);
    } else {
        let sa = prost_u64_bytes(a);
        let sb = prost_u64_bytes(b);
        assert(sa.subrange(1, sa.len() as int) =~= varint(a as nat));
        assert(sb.subrange(1, sb.len() as int) =~= varint(b as nat));
        lemma_varint_injective(a as nat, b as nat);
    }
}

/// Relies on `prost::Message::encode_to_vec` for `u64` (the protobuf
/// `UInt64Value` wrapper): a zero value encodes to nothing, any other value
/// to the field-one varint tag followed by the value's varint bytes.
/// Encoding into a growable buffer cannot fail.
#[verifier::external_body]
fn prost_encode_u64(v: u64) -> (r: Vec<u8>)
    ensures
        r@ == prost_u64_bytes(v),
{
    let bytes: Vec<u8> = prost::Message::encode_to_vec(&v);
    bytes
}

/// Relies on `prost::Message::decode` for `u64`: decoding inverts the
/// encoding above, so bytes produced by it come back as the value encoded.
#[verifier::external_body]
fn prost_decode_u64(bytes: &[u8]) -> (r: Result<u64, BrittMarieError>)
    ensures
        (exists|v: u64| bytes@ == prost_u64_bytes(v)) ==> r is Ok && bytes@ == prost_u64_bytes(
            r->Ok_0,
        ),
{
    match <u64 as prost::Message>::decode(bytes) {
        Ok(v) => Ok(v),
        Err(e) => Err(BrittMarieError::Serde(e.to_string())),
    }
}

/// What fxhash computes for a `u64`: a pure function of the value alone.
pub uninterp spec fn fx_hash_of(k: u64) -> u64;

/// Relies on `fxhash::hash64` for `u64`: a seedless hash whose result
/// depends on the hashed value alone.
#[verifier::external_body]
fn fx_hash_u64(k: u64) -> (r: u64)
    ensures
        r == fx_hash_of(k),
{
    fxhash::hash64(&k)
}

/// A value an index can hold: it carries a symmetric byte encoding with
/// explicit failure, a default for warm starts, and an exact clone.
pub trait Value: Sized {
    /// The byte string this value encodes to.
    spec fn enc(&self) -> Seq<u8>;

    /// Whether encoding this value succeeds.
    spec fn enc_ok(&self) -> bool;

    /// The starting value of a freshly constructed single-value index.
    spec fn spec_default() -> Self;

    fn into_raw(&self) -> (r: Result<Vec<u8>, BrittMarieError>)
        ensures
            r is Ok <==> self.enc_ok(),
            r is Ok ==> r->Ok_0@ == self.enc(),
    ;

    fn from_raw(bytes: &[u8]) -> (r: Result<Self, BrittMarieError>)
        ensures
            forall|v: Self| bytes@ == v.enc() && v.enc_ok() ==> r == Ok::<Self, BrittMarieError>(
                v,
            ),
    ;

    fn default_value() -> (r: Self)
        ensures
            r == Self::spec_default(),
    ;

    fn val_clone(&self) -> (r: Self)
        ensures
            r == *self,
    ;
}

/// A key an index can hash and compare: a value with an injective encoding,
/// an equality test, and a hash that depends on the key alone.
pub trait Key: Sized {
    /// The byte string this key encodes to.
    spec fn enc(&self) -> Seq<u8>;

    /// Whether encoding this key succeeds.
    spec fn enc_ok(&self) -> bool;

    /// The hash the index probes with.
    spec fn hash_spec(&self) -> u64;

    /// Two keys with the same encoding are the same key, so distinct keys
    /// never collide in the durable store.
    proof fn lemma_enc_injective(a: &Self, b: &Self)
        ensures
            a.enc() == b.enc() ==> a == b,
    ;

    fn into_raw(&self) -> (r: Result<Vec<u8>, BrittMarieError>)
        ensures
            r is Ok <==> self.enc_ok(),
            r is Ok ==> r->Ok_0@ == self.enc(),
    ;

    fn from_raw(bytes: &[u8]) -> (r: Result<Self, BrittMarieError>)
        ensures
            forall|v: Self| bytes@ == v.enc() && v.enc_ok() ==> r == Ok::<Self, BrittMarieError>(
                v,
            ),
    ;

    fn key_hash(&self) -> (r: u64)
        ensures
            r == self.hash_spec(),
    ;

    fn key_eq(&self, other: &Self) -> (r: bool)
        ensures
            r == (*self == *other),
    ;

    fn key_clone(&self) -> (r: Self)
        ensures
            r == *self,
    ;
}

impl Value for u64 {
    open spec fn enc(&self) -> Seq<u8> {
        prost_u64_bytes(*self)
    }

    open spec fn enc_ok(&self) -> bool {
        true
    }

    open spec fn spec_default() -> u64 {
        0
    }

    fn into_raw(&self) -> (r: Result<Vec<u8>, BrittMarieError>) {
        Ok(prost_encode_u64(*self))
    }

    fn from_raw(bytes: &[u8]) -> (r: Result<u64, BrittMarieError>) {
        let r = prost_decode_u64(bytes);
        proof {
            assert forall|v: u64| bytes@ == prost_u64_bytes(v) implies r == Ok::<
                u64,
                BrittMarieError,
            >(v) by {
                lemma_prost_u64_injective(v, r->Ok_0);
            }
        }
        r
    }

    fn default_value() -> (r: u64) {
        0
    }

    fn val_clone(&self) -> (r: u64) {
        *self
    }
}

impl Key for u64 {
    open spec fn enc(&self) -> Seq<u8> {
        prost_u64_bytes(*self)
    }

    open spec fn enc_ok(&self) -> bool {
        true
    }

    open spec fn hash_spec(&self) -> u64 {
        fx_hash_of(*self)
    }

    proof fn lemma_enc_injective(a: &u64, b: &u64) {
        if prost_u64_bytes(*a) == prost_u64_bytes(*b) {
            lemma_prost_u64_injective(*a, *b);
        }
    }

    fn into_raw(&self) -> (r: Result<Vec<u8>, BrittMarieError>) {
        Ok(prost_encode_u64(*self))
    }

    fn from_raw(bytes: &[u8]) -> (r: Result<u64, BrittMarieError>) {
        let r = prost_decode_u64(bytes);
        proof {
            assert forall|v: u64| bytes@ == prost_u64_bytes(v) implies r == Ok::<
                u64,
                BrittMarieError,
            >(v) by {
                lemma_prost_u64_injective(v, r->Ok_0);
            }
        }
        r
    }

    fn key_hash(&self) -> (r: u64) {
        fx_hash_u64(*self)
    }

    fn key_eq(&self, other: &Self) -> (r: bool) {
        *self == *other
    }

    fn key_clone(&self) -> (r: u64) {
        *self
    }
}

} // verus!
