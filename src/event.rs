//! Event identifiers and the two time axes.
use vstd::prelude::*;
use crate::bytes::{be_bytes, be_value, lemma_be_canonical, lemma_be_round_trip, lemma_pow256_values, pow256, push_be, read_be};

verus! {

/// When the database recorded an event: a logical clock, the length of the
/// append log at some instant.
#[derive(Clone, Copy, Debug, PartialEq, Eq)]
pub struct Transaction<T>(pub T);

/// When the event happened in the real world: a physical time.
#[derive(Clone, Copy, Debug, PartialEq, Eq)]
pub struct Valid<T>(pub T);

pub const TIME_BITS_SPAN: u128 = 0x1_0000_0000_0000;

pub const RAND_BITS_SPAN: u128 = 0x1_0000_0000_0000_0000_0000;

/// An identifier made of a millisecond timestamp (high 48 bits) and
/// randomness (low 80 bits).
pub open spec fn id_of_parts(ts_ms: nat, random: nat) -> nat {
    (ts_ms % (TIME_BITS_SPAN as nat)) * (RAND_BITS_SPAN as nat) + random % (RAND_BITS_SPAN as nat)
}

/// Relies on ulid::Ulid::from_parts: the low 48 bits of the timestamp above
/// the low 80 bits of the randomness.
#[verifier::external_body]
fn ulid_from_parts(ts_ms: u64, random: u128) -> (r: u128)
    ensures
        r as nat == id_of_parts(ts_ms as nat, random as nat),
{
    ulid::Ulid::from_parts(ts_ms, random).0
}

/// Relies on ulid::Ulid::timestamp_ms: the bits above the low 80.
#[verifier::external_body]
fn ulid_timestamp_ms(bits: u128) -> (r: u64)
    ensures
        r as nat == bits as nat / (RAND_BITS_SPAN as nat),
{
    ulid::Ulid(bits).timestamp_ms()
}

/// Relies on ulid::Ulid::new: an identifier from the clock and a random
/// generator. Nothing is known of its value.
#[verifier::external_body]
fn ulid_new() -> (r: u128) {
    ulid::Ulid::new().0
}

/// Things that identify an event carry the time at which it happened.
pub trait ID {
    fn time(&self) -> Valid<u64>;
}

/// A 128-bit event identifier, ordered as an unsigned integer: by time, then
/// by its random part.
#[derive(Clone, Copy, Debug, PartialEq, Eq, PartialOrd, Ord, Hash, Structural)]
pub struct Id {
    pub bits: u128,
}

/// The 16-byte key under which an identifier is stored and sent.
pub open spec fn id_key(id: Id) -> Seq<u8> {
    be_bytes(id.bits as nat, 16)
}

pub proof fn lemma_id_key_injective(a: Id, b: Id)
    ensures
        id_key(a) == id_key(b) <==> a == b,
        id_key(a).len() == 16,
{
    lemma_pow256_values();
    lemma_be_round_trip(a.bits as nat, 16);
    lemma_be_round_trip(b.bits as nat, 16);
}

/// The identifier whose key is `k`, for a 16-byte `k`.
pub open spec fn key_id(k: Seq<u8>) -> Id {
    Id { bits: be_value(k) as u128 }
}

pub proof fn lemma_key_id(id: Id, k: Seq<u8>)
    requires
        id_key(id) == k,
    ensures
        key_id(k) == id,
{
    lemma_pow256_values();
    lemma_be_round_trip(id.bits as nat, 16);
}

pub proof fn lemma_id_of_key(k: Seq<u8>)
    requires
        k.len() == 16,
    ensures
        id_key(key_id(k)) == k,
{
    lemma_pow256_values();
    crate::bytes::lemma_be_value_bound(k);
    lemma_be_canonical(k);
}

impl Id {
    /// An identifier from a valid-time millisecond timestamp and 80 random bits;
    /// higher bits of either are dropped.
    pub fn new(ts_ms: u64, random: u128) -> (r: Id)
        ensures
            r.bits as nat == id_of_parts(ts_ms as nat, random as nat),
    {
        Id { bits: ulid_from_parts(ts_ms, random) }
    }

    /// A fresh identifier for an event that happens now.
    pub fn generate() -> (r: Id) {
        Id { bits: ulid_new() }
    }

    pub fn from_u128(bits: u128) -> (r: Id)
        ensures
            r.bits == bits,
    {
        Id { bits }
    }

    pub fn to_u128(&self) -> (r: u128)
        ensures
            r == self.bits,
    {
        self.bits
    }

    /// The fixed 16-byte big-endian form, whose byte order is the
    /// identifiers' order.
    pub fn to_bytes(&self) -> (r: Vec<u8>)
        ensures
            r@ == id_key(*self),
    {
        let mut out: Vec<u8> = Vec::new();
        push_be(&mut out, self.bits, 16);
        assert(out@ =~= id_key(*self));
        out
    }

    /// Reads the identifier stored at `pos` in 16 big-endian bytes.
    pub fn read_from(b: &[u8], pos: usize) -> (r: Id)
        requires
            pos + 16 <= b@.len(),
        ensures
            id_key(r) == b@.subrange(pos as int, pos + 16),
    {
        let bits = read_be(b, pos, 16);
        proof {
            lemma_be_canonical(b@.subrange(pos as int, pos + 16));
        }
        Id { bits }
    }

    /// Reads a 16-byte key as an identifier.
    pub fn from_bytes(b: &[u8]) -> (r: Option<Id>)
        ensures
            r.is_some() <==> b@.len() == 16,
            r.is_some() ==> id_key(r.unwrap()) == b@,
    {
        if b.len() != 16 {
            return None;
        }
        let id = Id::read_from(b, 0);
        assert(b@.subrange(0, 16) =~= b@);
        Some(id)
    }
}

impl ID for Id {
    /// The millisecond at which the event happened.
    fn time(&self) -> (r: Valid<u64>)
        ensures
            r.0 as nat == self.bits as nat / (RAND_BITS_SPAN as nat),
    {
        Valid(ulid_timestamp_ms(self.bits))
    }
}

} // verus!
