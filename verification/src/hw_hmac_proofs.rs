//! What holds of chunk authentication, whatever digest drives it.

use crate::hw_hmac::{authenticated, keyed_hash, KeyedHashModel, HASH_SIZE};
use vstd::prelude::*;

verus! {

/// Every digest has the size of a tag.
pub open spec fn gives_tags(digest: spec_fn(Seq<u8>) -> Seq<u8>) -> bool {
    forall|message: Seq<u8>| (#[trigger] digest(message)).len() == HASH_SIZE
}

/// What the receiver makes of a packet: the payload behind the tag, when
/// the tag is the keyed hash of that payload.
pub open spec fn verified_payload(
    digest: spec_fn(Seq<u8>) -> Seq<u8>,
    inner_pad: Seq<u8>,
    outer_pad: Seq<u8>,
    packet: Seq<u8>,
) -> Option<Seq<u8>> {
    authenticated(packet, keyed_hash(digest, inner_pad, outer_pad, packet.skip(HASH_SIZE as int)))
}

/// The bytes with one bit turned over: bit `bit % 8` of byte `bit / 8`.
pub open spec fn flip_bit(bytes: Seq<u8>, bit: int) -> Seq<u8> {
    bytes.update(bit / 8, bytes[bit / 8] ^ (1u8 << ((bit % 8) as u8)))
}

/// A byte with one bit turned over is another byte.
proof fn lemma_flipped_byte_differs(byte: u8, shift: u8)
    requires
        shift < 8,
    ensures
        byte ^ (1u8 << shift) != byte,
{
    assert(byte ^ (1u8 << shift) != byte) by (bit_vector)
        requires
            shift < 8,
    ;
}

/// Bytes with one bit turned over are other bytes of the same length.
pub proof fn lemma_flip_bit_differs(bytes: Seq<u8>, bit: int)
    requires
        0 <= bit < 8 * bytes.len(),
    ensures
        flip_bit(bytes, bit).len() == bytes.len(),
        flip_bit(bytes, bit)[bit / 8] != bytes[bit / 8],
        forall|i: int| 0 <= i < bytes.len() && i != bit / 8 ==> flip_bit(bytes, bit)[i] == bytes[i],
{
    lemma_flipped_byte_differs(bytes[bit / 8], (bit % 8) as u8);
}

/// The machine of the two passes, driven by a digest function, ends with
/// the keyed hash as its tag.
pub proof fn lemma_two_passes_give_keyed_hash(
    digest: spec_fn(Seq<u8>) -> Seq<u8>,
    inner_pad: Seq<u8>,
    outer_pad: Seq<u8>,
    data: Seq<u8>,
)
    ensures
        ({
            let first = KeyedHashModel::start(inner_pad, outer_pad, data);
            let second = first.digested(digest(first.message));
            &&& first.tag(digest(first.message)) is None
            &&& second.tag(digest(second.message)) == Some(
                keyed_hash(digest, inner_pad, outer_pad, data),
            )
        }),
{
}

/// A chunk behind its own keyed hash is accepted, and comes back as it
/// was.
pub proof fn lemma_sealed_chunk_authenticates(
    digest: spec_fn(Seq<u8>) -> Seq<u8>,
    inner_pad: Seq<u8>,
    outer_pad: Seq<u8>,
    chunk: Seq<u8>,
)
    requires
        gives_tags(digest),
    ensures
        verified_payload(
            digest,
            inner_pad,
            outer_pad,
            keyed_hash(digest, inner_pad, outer_pad, chunk) + chunk,
        ) == Some(chunk),
{
    let tag = keyed_hash(digest, inner_pad, outer_pad, chunk);
    let packet = tag + chunk;
    assert(packet.skip(HASH_SIZE as int) =~= chunk);
    assert(packet.take(HASH_SIZE as int) =~= tag);
}

/// A sealed chunk with any one bit of its tag turned over is rejected.
pub proof fn lemma_flipped_tag_is_rejected(
    digest: spec_fn(Seq<u8>) -> Seq<u8>,
    inner_pad: Seq<u8>,
    outer_pad: Seq<u8>,
    chunk: Seq<u8>,
    bit: int,
)
    requires
        gives_tags(digest),
        0 <= bit < 8 * HASH_SIZE,
    ensures
        verified_payload(
            digest,
            inner_pad,
            outer_pad,
            flip_bit(keyed_hash(digest, inner_pad, outer_pad, chunk) + chunk, bit),
        ) is None,
{
    let tag = keyed_hash(digest, inner_pad, outer_pad, chunk);
    let packet = tag + chunk;
    let flipped = flip_bit(packet, bit);
    lemma_flip_bit_differs(packet, bit);
    assert(flipped.skip(HASH_SIZE as int) =~= chunk);
    assert(flipped.take(HASH_SIZE as int)[bit / 8] != tag[bit / 8]);
}

/// A sealed chunk with any one bit of the chunk turned over is rejected,
/// unless the digest gives the changed chunk the keyed hash of the
/// unchanged one.
pub proof fn lemma_flipped_chunk_is_rejected(
    digest: spec_fn(Seq<u8>) -> Seq<u8>,
    inner_pad: Seq<u8>,
    outer_pad: Seq<u8>,
    chunk: Seq<u8>,
    bit: int,
)
    requires
        gives_tags(digest),
        0 <= bit < 8 * chunk.len(),
        keyed_hash(digest, inner_pad, outer_pad, flip_bit(chunk, bit)) != keyed_hash(
            digest,
            inner_pad,
            outer_pad,
            chunk,
        ),
    ensures
        flip_bit(keyed_hash(digest, inner_pad, outer_pad, chunk) + chunk, 8 * HASH_SIZE + bit)
            == keyed_hash(digest, inner_pad, outer_pad, chunk) + flip_bit(chunk, bit),
        verified_payload(
            digest,
            inner_pad,
            outer_pad,
            keyed_hash(digest, inner_pad, outer_pad, chunk) + flip_bit(chunk, bit),
        ) is None,
{
    let tag = keyed_hash(digest, inner_pad, outer_pad, chunk);
    let changed = flip_bit(chunk, bit);
    let packet = tag + changed;
    lemma_flip_bit_differs(chunk, bit);
    assert(packet.skip(HASH_SIZE as int) =~= changed);
    assert(packet.take(HASH_SIZE as int) =~= tag);
    assert((8 * HASH_SIZE + bit) / 8 == HASH_SIZE + bit / 8);
    assert((8 * HASH_SIZE + bit) % 8 == bit % 8);
    assert(flip_bit(tag + chunk, 8 * HASH_SIZE + bit) =~= packet);
}

} // verus!
