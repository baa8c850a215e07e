//! The bit layout of an identifier.
//!
//! From the most significant bit down, an identifier holds 42 bits of
//! milliseconds since [`EPOCH_UNIX_MILLIS`], 10 bits that name the generator
//! which issued it, and a 12-bit sequence number that tells apart the
//! identifiers one generator issues within one millisecond. Because the
//! timestamp sits on top, identifiers compare as plain integers in the order
//! of their creation.

use vstd::prelude::*;

verus! {

/// A unique, time-ordered key. Outside this module it is an opaque number.
pub type Identifier = u64;

/// The library's epoch, 2017-01-01T00:00:00Z, in milliseconds since the Unix epoch.
pub const EPOCH_UNIX_MILLIS: i64 = 1_483_228_800_000;

/// The timestamp field holds the values below this limit (2^42 milliseconds, about 139 years).
pub const TIMESTAMP_LIMIT: u64 = 4_398_046_511_104;

/// The node field holds the values below this limit (2^10).
pub const NODE_LIMIT: u64 = 1_024;

/// The sequence field holds the values below this limit (2^12).
pub const SEQUENCE_LIMIT: u64 = 4_096;

/// The weight of one millisecond in an identifier (2^22): the node and sequence fields lie below it.
pub const TIMESTAMP_STRIDE: u64 = 4_194_304;

/// The number that holds `timestamp`, `node` and `sequence` in the three
/// fields. It is an identifier when each of them is below its limit.
pub open spec fn pack(timestamp: nat, node: nat, sequence: nat) -> nat {
    (timestamp * TIMESTAMP_STRIDE + node * SEQUENCE_LIMIT + sequence) as nat
}

/// Whether the three values fit their fields.
pub open spec fn fits(timestamp: nat, node: nat, sequence: nat) -> bool {
    timestamp < TIMESTAMP_LIMIT && node < NODE_LIMIT && sequence < SEQUENCE_LIMIT
}

/// The milliseconds since the library's epoch that `id` holds.
pub open spec fn timestamp_of(id: Identifier) -> nat {
    (id / TIMESTAMP_STRIDE) as nat
}

/// The generator that `id` names.
pub open spec fn node_of(id: Identifier) -> nat {
    ((id / SEQUENCE_LIMIT) % NODE_LIMIT) as nat
}

/// The sequence number that `id` holds.
pub open spec fn sequence_of(id: Identifier) -> nat {
    (id % SEQUENCE_LIMIT) as nat
}

/// The creation time that `id` holds, in milliseconds since the Unix epoch.
pub open spec fn unix_millis_of(id: Identifier) -> int {
    EPOCH_UNIX_MILLIS + timestamp_of(id)
}

/// Packing is a bijection between the triples that fit and the 64-bit
/// numbers: the fields of a packed triple are the triple.
pub proof fn lemma_fields_of_pack(timestamp: nat, node: nat, sequence: nat)
    requires
        fits(timestamp, node, sequence),
    ensures
        pack(timestamp, node, sequence) <= u64::MAX,
        timestamp_of(pack(timestamp, node, sequence) as u64) == timestamp,
        node_of(pack(timestamp, node, sequence) as u64) == node,
        sequence_of(pack(timestamp, node, sequence) as u64) == sequence,
{
}

/// Every 64-bit number is the packing of its own fields, and they fit.
pub proof fn lemma_pack_of_fields(id: Identifier)
    ensures
        fits(timestamp_of(id), node_of(id), sequence_of(id)),
        pack(timestamp_of(id), node_of(id), sequence_of(id)) == id,
{
}

/// Packed triples are ordered as the triples are, the timestamp counting
/// first, then the node, then the sequence number.
pub proof fn lemma_pack_is_lexicographic(t1: nat, n1: nat, s1: nat, t2: nat, n2: nat, s2: nat)
    requires
        fits(t1, n1, s1),
        fits(t2, n2, s2),
    ensures
        pack(t1, n1, s1) < pack(t2, n2, s2) <==> (t1 < t2 || (t1 == t2 && (n1 < n2 || (n1 == n2
            && s1 < s2)))),
{
}

/// Builds the identifier with the given fields, if each fits its field.
pub fn compose(timestamp: u64, node: u64, sequence: u64) -> (id: Option<Identifier>)
    ensures
        id is Some <==> fits(timestamp as nat, node as nat, sequence as nat),
        id matches Some(v) ==> v == pack(timestamp as nat, node as nat, sequence as nat),
{
    if timestamp < TIMESTAMP_LIMIT && node < NODE_LIMIT && sequence < SEQUENCE_LIMIT {
        Some(pack_fields(timestamp, node, sequence))
    } else {
        None
    }
}

/// The identifier with the given fields, each of which fits.
pub(crate) fn pack_fields(timestamp: u64, node: u64, sequence: u64) -> (id: Identifier)
    requires
        fits(timestamp as nat, node as nat, sequence as nat),
    ensures
        id == pack(timestamp as nat, node as nat, sequence as nat),
{
    timestamp * TIMESTAMP_STRIDE + node * SEQUENCE_LIMIT + sequence
}

/// The timestamp field of `id`: milliseconds since the library's epoch.
pub fn timestamp(id: Identifier) -> (t: u64)
    ensures
        t == timestamp_of(id),
        t < TIMESTAMP_LIMIT,
{
    id / TIMESTAMP_STRIDE
}

/// The node field of `id`.
pub fn node(id: Identifier) -> (n: u64)
    ensures
        n == node_of(id),
        n < NODE_LIMIT,
{
    (id / SEQUENCE_LIMIT) % NODE_LIMIT
}

/// The creation time that `id` holds, in milliseconds since the Unix epoch.
pub fn unix_millis(id: Identifier) -> (millis: i64)
    ensures
        millis == unix_millis_of(id),
{
    let elapsed: u64 = id / TIMESTAMP_STRIDE;
    EPOCH_UNIX_MILLIS + elapsed as i64
}

/// The sequence field of `id`.
pub fn sequence(id: Identifier) -> (s: u64)
    ensures
        s == sequence_of(id),
        s < SEQUENCE_LIMIT,
{
    id % SEQUENCE_LIMIT
}

} // verus!
