//! Keyed-hash authentication of chunks around a digest that the caller
//! computes.
//!
//! The digest itself is an engine outside this crate. The two passes of the
//! keyed hash are therefore written as a small machine: it hands out the
//! message to be digested and takes the digest back.

use vstd::prelude::*;
use vstd::slice::slice_subrange;

verus! {

/// The block size of the digest.
pub const BLOCK_SIZE: usize = 64;

/// The size of a digest, and so of an authentication tag.
pub const HASH_SIZE: usize = 32;

pub const IPAD: u8 = 0x36;

pub const OPAD: u8 = 0x5C;

/// The keyed hash of `data` under the digest function `digest`: the digest
/// of the outer pad and the digest of the inner pad and the data.
pub open spec fn keyed_hash(
    digest: spec_fn(Seq<u8>) -> Seq<u8>,
    inner_pad: Seq<u8>,
    outer_pad: Seq<u8>,
    data: Seq<u8>,
) -> Seq<u8> {
    digest(outer_pad + digest(inner_pad + data))
}

/// The pad of a key: each of its first 64 bytes combined with `pad` by
/// exclusive or, and zero bytes up to the block size.
pub open spec fn key_pad(key: Seq<u8>, pad: u8) -> Seq<u8> {
    Seq::new(
        BLOCK_SIZE as nat,
        |i: int|
            if i < key.len() {
                key[i] ^ pad
            } else {
                0u8
            },
    )
}

/// The payload of a packet that starts with the tag `hmac`, and nothing for
/// any other packet.
pub open spec fn authenticated(packet: Seq<u8>, hmac: Seq<u8>) -> Option<Seq<u8>> {
    if packet.len() >= HASH_SIZE && packet.take(HASH_SIZE as int) == hmac {
        Some(packet.skip(HASH_SIZE as int))
    } else {
        None
    }
}

/// A keyed hash under way.
pub struct KeyedHashModel {
    /// What is to be digested next.
    pub message: Seq<u8>,
    /// The outer pad, until the inner pass is over.
    pub outer_pad: Option<Seq<u8>>,
}

impl KeyedHashModel {
    /// The keyed hash of `data` before its first pass.
    pub open spec fn start(inner_pad: Seq<u8>, outer_pad: Seq<u8>, data: Seq<u8>) -> Self {
        KeyedHashModel { message: inner_pad + data, outer_pad: Some(outer_pad) }
    }

    /// The state after a digest came back.
    pub open spec fn digested(self, digest: Seq<u8>) -> Self {
        match self.outer_pad {
            Some(pad) => KeyedHashModel { message: pad + digest, outer_pad: None },
            None => self,
        }
    }

    /// The tag, when the digest that came back was that of the outer pass.
    pub open spec fn tag(self, digest: Seq<u8>) -> Option<Seq<u8>> {
        match self.outer_pad {
            Some(_) => None,
            None => Some(digest),
        }
    }
}

/// The two passes of a keyed hash over one chunk.
pub struct KeyedHash {
    message: Vec<u8>,
    outer_pad: Option<[u8; BLOCK_SIZE]>,
}

impl View for KeyedHash {
    type V = KeyedHashModel;

    closed spec fn view(&self) -> KeyedHashModel {
        KeyedHashModel {
            message: self.message@,
            outer_pad: match self.outer_pad {
                Some(pad) => Some(pad@),
                None => None,
            },
        }
    }
}

/// Derives one pad of a key.
fn derive_pad(key: &[u8], pad: u8) -> (padded: [u8; BLOCK_SIZE])
    ensures
        padded@ == key_pad(key@, pad),
{
    let mut padded = [0u8;BLOCK_SIZE];
    let mut i: usize = 0;
    while i < BLOCK_SIZE && i < key.len()
        invariant
            i <= BLOCK_SIZE,
            i <= key@.len(),
            forall|k: int| 0 <= k < i ==> padded@[k] == key@[k] ^ pad,
            forall|k: int| i <= k < BLOCK_SIZE ==> padded@[k] == 0,
        decreases BLOCK_SIZE - i,
    {
        padded[i] = key[i] ^ pad;
        i = i + 1;
    }
    assert(padded@ =~= key_pad(key@, pad));
    padded
}

/// Starts the keyed hash of `chunk` under `key`, of which the first 64 bytes
/// count.
pub fn hmac_chunk(key: &[u8], chunk: &[u8]) -> (hash: KeyedHash)
    ensures
        hash@ == KeyedHashModel::start(key_pad(key@, IPAD), key_pad(key@, OPAD), chunk@),
{
    let ipad_key = derive_pad(key, IPAD);
    let opad_key = derive_pad(key, OPAD);
    hmac_cluster_chunk(&ipad_key, &opad_key, chunk)
}

/// Accelerated form of `hmac_chunk` using pre-computed ipad
/// and opad values for the cluster key
pub fn hmac_cluster_chunk(
    inner_pad: &[u8; BLOCK_SIZE],
    outer_pad: &[u8; BLOCK_SIZE],
    chunk: &[u8],
) -> (hash: KeyedHash)
    ensures
        hash@ == KeyedHashModel::start(inner_pad@, outer_pad@, chunk@),
{
    let mut message: Vec<u8> = Vec::new();
    let mut i: usize = 0;
    while i < BLOCK_SIZE
        invariant
            i <= BLOCK_SIZE,
            message@ == inner_pad@.take(i as int),
        decreases BLOCK_SIZE - i,
    {
        message.push(inner_pad[i]);
        i = i + 1;
        assert(message@ =~= inner_pad@.take(i as int));
    }
    message.extend_from_slice(chunk);
    assert(message@ =~= inner_pad@ + chunk@);
    KeyedHash { message, outer_pad: Some(*outer_pad) }
}

impl KeyedHash {
    /// What the caller is to digest now.
    pub fn message(&self) -> (message: &[u8])
        ensures
            message@ == self@.message,
    {
        self.message.as_slice()
    }

    /// Takes the digest of `message()`. After the inner pass the outer one
    /// is due; after the outer pass the digest is the tag.
    pub fn digested(&mut self, digest: &[u8; HASH_SIZE]) -> (tag: Option<[u8; HASH_SIZE]>)
        ensures
            final(self)@ == old(self)@.digested(digest@),
            tag is Some <==> old(self)@.tag(digest@) is Some,
            tag matches Some(t) ==> Some(t@) == old(self)@.tag(digest@),
    {
        match self.outer_pad {
            Some(pad) => {
                let mut message: Vec<u8> = Vec::new();
                let mut i: usize = 0;
                while i < BLOCK_SIZE
                    invariant
                        i <= BLOCK_SIZE,
                        message@ == pad@.take(i as int),
                    decreases BLOCK_SIZE - i,
                {
                    message.push(pad[i]);
                    i = i + 1;
                    assert(message@ =~= pad@.take(i as int));
                }
                let mut k: usize = 0;
                while k < HASH_SIZE
                    invariant
                        k <= HASH_SIZE,
                        message@ == pad@ + digest@.take(k as int),
                    decreases HASH_SIZE - k,
                {
                    message.push(digest[k]);
                    k = k + 1;
                    assert(message@ =~= pad@ + digest@.take(k as int));
                }
                assert(digest@.take(HASH_SIZE as int) =~= digest@);
                self.message = message;
                self.outer_pad = None;
                None
            },
            None => Some(*digest),
        }
    }
}

/// Verifies the authenticity of a packet: `hmac` is the keyed hash that the
/// caller computed over what stands behind the first 32 bytes. The payload
/// is returned only when those bytes are that hash.
pub fn authenticate_packet<'a>(packet: &'a [u8], hmac: &[u8; HASH_SIZE]) -> (data: Option<
    &'a [u8],
>)
    ensures
        data is Some <==> authenticated(packet@, hmac@) is Some,
        data matches Some(payload) ==> Some(payload@) == authenticated(packet@, hmac@),
{
    if packet.len() < HASH_SIZE {
        return None;
    }
    let mut i: usize = 0;
    while i < HASH_SIZE
        invariant
            i <= HASH_SIZE <= packet@.len(),
            forall|k: int| 0 <= k < i ==> packet@[k] == hmac@[k],
        decreases HASH_SIZE - i,
    {
        if packet[i] != hmac[i] {
            assert(packet@.take(HASH_SIZE as int)[i as int] != hmac@[i as int]);
            return None;
        }
        i = i + 1;
    }
    assert(packet@.take(HASH_SIZE as int) =~= hmac@);
    let data = slice_subrange(packet, HASH_SIZE, packet.len());
    assert(data@ =~= packet@.skip(HASH_SIZE as int));
    Some(data)
}

} // verus!
