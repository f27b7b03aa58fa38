//! What holds of chained encryption and decryption, whatever invertible
//! block transform drives them.

use crate::hw_aes::{
    chain_decrypt, chain_encrypt, inverts, keeps_block_size, padding_len, valid_encrypted_len,
    xor_bytes, zero_padded, zeros, DecryptionModel, EncryptionModel, AES_BLOCK_SIZE, IV_SIZE,
};
use vstd::prelude::*;

verus! {

/// Exclusive or with the same byte twice gives the byte back.
proof fn lemma_xor_twice(a: u8, b: u8)
    ensures
        (a ^ b) ^ b == a,
{
    assert((a ^ b) ^ b == a) by (bit_vector);
}

/// Exclusive or with the same block twice gives the block back.
pub proof fn lemma_xor_bytes_twice(a: Seq<u8>, b: Seq<u8>)
    requires
        a.len() == b.len(),
    ensures
        xor_bytes(xor_bytes(a, b), b) == a,
{
    assert forall|i: int| 0 <= i < a.len() implies xor_bytes(xor_bytes(a, b), b)[i] == a[i] by {
        lemma_xor_twice(a[i], b[i]);
    }
    assert(xor_bytes(xor_bytes(a, b), b) =~= a);
}

/// Chained encryption gives as many bytes as it takes.
pub proof fn lemma_chain_encrypt_len(
    cipher: spec_fn(Seq<u8>) -> Seq<u8>,
    previous: Seq<u8>,
    blocks: Seq<u8>,
)
    requires
        keeps_block_size(cipher),
        previous.len() == AES_BLOCK_SIZE,
        blocks.len() % AES_BLOCK_SIZE as nat == 0,
    ensures
        chain_encrypt(cipher, previous, blocks).len() == blocks.len(),
    decreases blocks.len(),
{
    if blocks.len() >= AES_BLOCK_SIZE {
        let first = cipher(xor_bytes(blocks.take(AES_BLOCK_SIZE as int), previous));
        lemma_chain_encrypt_len(cipher, first, blocks.skip(AES_BLOCK_SIZE as int));
    }
}

/// Chained decryption under the inverse block transform undoes chained
/// encryption.
pub proof fn lemma_chain_round_trip(
    cipher: spec_fn(Seq<u8>) -> Seq<u8>,
    inverse: spec_fn(Seq<u8>) -> Seq<u8>,
    previous: Seq<u8>,
    blocks: Seq<u8>,
)
    requires
        keeps_block_size(cipher),
        inverts(inverse, cipher),
        previous.len() == AES_BLOCK_SIZE,
        blocks.len() % AES_BLOCK_SIZE as nat == 0,
    ensures
        chain_decrypt(inverse, previous, chain_encrypt(cipher, previous, blocks)) == blocks,
    decreases blocks.len(),
{
    let encrypted = chain_encrypt(cipher, previous, blocks);
    lemma_chain_encrypt_len(cipher, previous, blocks);
    if blocks.len() >= AES_BLOCK_SIZE {
        let plain = blocks.take(AES_BLOCK_SIZE as int);
        let rest = blocks.skip(AES_BLOCK_SIZE as int);
        let first = cipher(xor_bytes(plain, previous));
        let tail = chain_encrypt(cipher, first, rest);
        lemma_chain_encrypt_len(cipher, first, rest);
        assert(encrypted.take(AES_BLOCK_SIZE as int) =~= first);
        assert(encrypted.skip(AES_BLOCK_SIZE as int) =~= tail);
        lemma_xor_bytes_twice(plain, previous);
        lemma_chain_round_trip(cipher, inverse, first, rest);
        assert(plain + rest =~= blocks);
    } else {
        assert(blocks =~= Seq::<u8>::empty());
    }
}

/// An encryption machine that is driven to its end by a block transform
/// holds the chained ciphertext of what was pending.
pub proof fn lemma_encryption_run(model: EncryptionModel, cipher: spec_fn(Seq<u8>) -> Seq<u8>)
    requires
        model.wf(),
        keeps_block_size(cipher),
    ensures
        model.run(cipher).iv == model.iv,
        model.run(cipher).pending.len() == 0,
        model.run(cipher).done == model.done + chain_encrypt(
            cipher,
            model.previous(),
            model.pending,
        ),
    decreases model.pending.len(),
{
    if model.pending.len() >= AES_BLOCK_SIZE {
        let block = cipher(model.next_block().unwrap());
        let next = model.accept(block);
        assert(next.previous() =~= block);
        lemma_encryption_run(next, cipher);
        assert(model.done + (block + chain_encrypt(cipher, block, next.pending)) =~= (model.done
            + block) + chain_encrypt(cipher, block, next.pending));
    } else {
        assert(model.done + Seq::<u8>::empty() =~= model.done);
    }
}

/// A decryption machine that is driven to its end by a block transform
/// holds the chained plaintext of what was pending.
pub proof fn lemma_decryption_run(model: DecryptionModel, inverse: spec_fn(Seq<u8>) -> Seq<u8>)
    requires
        model.wf(),
    ensures
        model.run(inverse).pending.len() == 0,
        model.run(inverse).done == model.done + chain_decrypt(
            inverse,
            model.previous,
            model.pending,
        ),
    decreases model.pending.len(),
{
    if model.pending.len() >= AES_BLOCK_SIZE {
        let first = model.pending.take(AES_BLOCK_SIZE as int);
        let next = model.accept(inverse(first));
        lemma_decryption_run(next, inverse);
        let head = xor_bytes(inverse(first), model.previous);
        assert(model.done + (head + chain_decrypt(inverse, first, next.pending)) =~= (model.done
            + head) + chain_decrypt(inverse, first, next.pending));
    } else {
        assert(model.done + Seq::<u8>::empty() =~= model.done);
    }
}

/// Padding adds less than a block and fills the last block.
pub proof fn lemma_padding(len: nat)
    ensures
        padding_len(len) < AES_BLOCK_SIZE,
        (len + padding_len(len)) % AES_BLOCK_SIZE as nat == 0,
{
}

/// Decrypting what was encrypted gives the plaintext back, with the zero
/// bytes of its padding behind it: fewer than one block of them. This holds
/// for every initialization vector and every block transform with an
/// inverse, that is, for every key.
pub proof fn lemma_decrypt_inverts_encrypt(
    cipher: spec_fn(Seq<u8>) -> Seq<u8>,
    inverse: spec_fn(Seq<u8>) -> Seq<u8>,
    iv: Seq<u8>,
    plaintext: Seq<u8>,
)
    requires
        keeps_block_size(cipher),
        inverts(inverse, cipher),
        iv.len() == IV_SIZE,
    ensures
        valid_encrypted_len(EncryptionModel::start(iv, plaintext).run(cipher).output().len()),
        DecryptionModel::start(
            EncryptionModel::start(iv, plaintext).run(cipher).output(),
        ).run(inverse).done == plaintext + zeros(padding_len(plaintext.len())),
        padding_len(plaintext.len()) < AES_BLOCK_SIZE,
{
    let padded = zero_padded(plaintext);
    lemma_padding(plaintext.len());
    let begin = EncryptionModel::start(iv, plaintext);
    lemma_encryption_run(begin, cipher);
    let ciphertext = chain_encrypt(cipher, iv, padded);
    lemma_chain_encrypt_len(cipher, iv, padded);
    assert(begin.run(cipher).done =~= ciphertext);
    let packet = begin.run(cipher).output();
    assert(packet =~= ciphertext + iv);
    let opened = DecryptionModel::start(packet);
    assert(opened.previous =~= iv);
    assert(opened.pending =~= ciphertext);
    lemma_decryption_run(opened, inverse);
    lemma_chain_round_trip(cipher, inverse, iv, padded);
    assert(Seq::<u8>::empty() + padded =~= padded);
}

/// A packet of ciphertext and IV that loses its last byte is no longer of a
/// length that decryption accepts.
pub proof fn lemma_truncated_packet_is_rejected(len: nat)
    requires
        valid_encrypted_len(len),
    ensures
        !valid_encrypted_len((len - 1) as nat),
{
}

} // verus!
