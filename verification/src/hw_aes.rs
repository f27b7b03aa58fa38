//! Cipher-block chaining around a block transform that the caller performs.
//!
//! The block cipher itself is an engine outside this crate. Encryption and
//! decryption are therefore written as two small machines: each hands out the
//! next block to be transformed and takes the transformed block back.

use vstd::prelude::*;

verus! {

pub const AES_BLOCK_SIZE: usize = 16;

pub const IV_SIZE: usize = AES_BLOCK_SIZE;

pub const AES_KEY_SIZE: usize = 32;

/// Byte-wise exclusive or of two strings of one length.
pub open spec fn xor_bytes(a: Seq<u8>, b: Seq<u8>) -> Seq<u8> {
    Seq::new(a.len(), |i: int| a[i] ^ b[i])
}

/// `n` zero bytes.
pub open spec fn zeros(n: nat) -> Seq<u8> {
    Seq::new(n, |i: int| 0u8)
}

/// How many bytes bring a length up to a whole number of blocks.
pub open spec fn padding_len(len: nat) -> nat {
    ((AES_BLOCK_SIZE - len % (AES_BLOCK_SIZE as nat)) % (AES_BLOCK_SIZE as int)) as nat
}

/// The plaintext with zero bytes behind it up to a whole number of blocks.
pub open spec fn zero_padded(plaintext: Seq<u8>) -> Seq<u8> {
    plaintext + zeros(padding_len(plaintext.len()))
}

/// Whether a packet can be ciphertext and IV: one block for the IV, and a
/// whole number of blocks before it.
pub open spec fn valid_encrypted_len(len: nat) -> bool {
    len >= IV_SIZE && (len - IV_SIZE) % (AES_BLOCK_SIZE as int) == 0
}

/// The ciphertext of `blocks` under the block function `cipher`, chained
/// from `previous`.
pub open spec fn chain_encrypt(
    cipher: spec_fn(Seq<u8>) -> Seq<u8>,
    previous: Seq<u8>,
    blocks: Seq<u8>,
) -> Seq<u8>
    decreases blocks.len(),
{
    if blocks.len() < AES_BLOCK_SIZE {
        Seq::empty()
    } else {
        let first = cipher(xor_bytes(blocks.take(AES_BLOCK_SIZE as int), previous));
        first + chain_encrypt(cipher, first, blocks.skip(AES_BLOCK_SIZE as int))
    }
}

/// The plaintext of `blocks` under the block function `inverse`, chained
/// from `previous`.
pub open spec fn chain_decrypt(
    inverse: spec_fn(Seq<u8>) -> Seq<u8>,
    previous: Seq<u8>,
    blocks: Seq<u8>,
) -> Seq<u8>
    decreases blocks.len(),
{
    if blocks.len() < AES_BLOCK_SIZE {
        Seq::empty()
    } else {
        let first = blocks.take(AES_BLOCK_SIZE as int);
        xor_bytes(inverse(first), previous) + chain_decrypt(
            inverse,
            first,
            blocks.skip(AES_BLOCK_SIZE as int),
        )
    }
}

/// A block function gives a block for a block.
pub open spec fn keeps_block_size(transform: spec_fn(Seq<u8>) -> Seq<u8>) -> bool {
    forall|block: Seq<u8>|
        block.len() == AES_BLOCK_SIZE ==> (#[trigger] transform(block)).len() == AES_BLOCK_SIZE
}

/// `inverse` undoes `cipher` on every block.
pub open spec fn inverts(
    inverse: spec_fn(Seq<u8>) -> Seq<u8>,
    cipher: spec_fn(Seq<u8>) -> Seq<u8>,
) -> bool {
    forall|block: Seq<u8>|
        block.len() == AES_BLOCK_SIZE ==> inverse(#[trigger] cipher(block)) == block
}

/// An encryption under way.
pub struct EncryptionModel {
    /// The initialization vector.
    pub iv: Seq<u8>,
    /// The padded plaintext that has not been encrypted yet.
    pub pending: Seq<u8>,
    /// The ciphertext so far.
    pub done: Seq<u8>,
}

impl EncryptionModel {
    pub open spec fn wf(self) -> bool {
        &&& self.iv.len() == IV_SIZE
        &&& self.pending.len() % AES_BLOCK_SIZE as nat == 0
        &&& self.done.len() % AES_BLOCK_SIZE as nat == 0
    }

    /// The encryption of `plaintext` before its first block.
    pub open spec fn start(iv: Seq<u8>, plaintext: Seq<u8>) -> Self {
        EncryptionModel { iv, pending: zero_padded(plaintext), done: Seq::empty() }
    }

    /// What the next block is chained to: the last ciphertext block, and
    /// the IV before there is one.
    pub open spec fn previous(self) -> Seq<u8> {
        if self.done.len() == 0 {
            self.iv
        } else {
            self.done.skip(self.done.len() - AES_BLOCK_SIZE)
        }
    }

    /// The block that is to be transformed next.
    pub open spec fn next_block(self) -> Option<Seq<u8>> {
        if self.pending.len() == 0 {
            None
        } else {
            Some(xor_bytes(self.pending.take(AES_BLOCK_SIZE as int), self.previous()))
        }
    }

    /// The transformed block comes back. It is ignored when none was due.
    pub open spec fn accept(self, block: Seq<u8>) -> Self {
        if self.pending.len() == 0 {
            self
        } else {
            EncryptionModel {
                iv: self.iv,
                pending: self.pending.skip(AES_BLOCK_SIZE as int),
                done: self.done + block,
            }
        }
    }

    /// The ciphertext so far, and the IV in the clear behind it.
    pub open spec fn output(self) -> Seq<u8> {
        self.done + self.iv
    }

    /// The machine driven to its end by the block function `cipher`.
    pub open spec fn run(self, cipher: spec_fn(Seq<u8>) -> Seq<u8>) -> Self
        decreases self.pending.len(),
    {
        if self.pending.len() < AES_BLOCK_SIZE {
            self
        } else {
            self.accept(cipher(self.next_block().unwrap())).run(cipher)
        }
    }
}

/// A decryption under way.
pub struct DecryptionModel {
    /// What the next block is chained to: the ciphertext block before it,
    /// and the IV before the first.
    pub previous: Seq<u8>,
    /// The ciphertext that has not been decrypted yet.
    pub pending: Seq<u8>,
    /// The plaintext so far.
    pub done: Seq<u8>,
}

impl DecryptionModel {
    pub open spec fn wf(self) -> bool {
        &&& self.previous.len() == AES_BLOCK_SIZE
        &&& self.pending.len() % AES_BLOCK_SIZE as nat == 0
    }

    /// The decryption of `packet`, ciphertext and IV, before its first
    /// block.
    pub open spec fn start(packet: Seq<u8>) -> Self {
        DecryptionModel {
            previous: packet.skip(packet.len() - IV_SIZE),
            pending: packet.take(packet.len() - IV_SIZE),
            done: Seq::empty(),
        }
    }

    /// The block that is to be transformed next.
    pub open spec fn next_block(self) -> Option<Seq<u8>> {
        if self.pending.len() == 0 {
            None
        } else {
            Some(self.pending.take(AES_BLOCK_SIZE as int))
        }
    }

    /// The transformed block comes back. It is ignored when none was due.
    pub open spec fn accept(self, block: Seq<u8>) -> Self {
        if self.pending.len() == 0 {
            self
        } else {
            DecryptionModel {
                previous: self.pending.take(AES_BLOCK_SIZE as int),
                pending: self.pending.skip(AES_BLOCK_SIZE as int),
                done: self.done + xor_bytes(block, self.previous),
            }
        }
    }

    /// The machine driven to its end by the block function `inverse`.
    pub open spec fn run(self, inverse: spec_fn(Seq<u8>) -> Seq<u8>) -> Self
        decreases self.pending.len(),
    {
        if self.pending.len() < AES_BLOCK_SIZE {
            self
        } else {
            self.accept(inverse(self.next_block().unwrap())).run(inverse)
        }
    }
}

/// Encrypts a packet in cipher-block-chaining mode, block by block.
///
/// The IV is appended to the end of the packet. Zero bytes may appear at the
/// end of the packet after decryption. Trimming should be done through other
/// means.
pub struct PacketEncryption {
    iv: [u8; IV_SIZE],
    input: Vec<u8>,
    cursor: usize,
    output: Vec<u8>,
}

impl View for PacketEncryption {
    type V = EncryptionModel;

    closed spec fn view(&self) -> EncryptionModel {
        EncryptionModel {
            iv: self.iv@,
            pending: self.input@.skip(self.cursor as int),
            done: self.output@,
        }
    }
}

/// Starts the encryption of `packet` under the initialization vector `iv`,
/// which the caller draws from a secure random source.
pub fn encrypt_packet(iv: [u8; IV_SIZE], packet: Vec<u8>) -> (encryption: PacketEncryption)
    ensures
        encryption.wf(),
        encryption@ == EncryptionModel::start(iv@, packet@),
{
    let mut input = packet;
    let padding = (AES_BLOCK_SIZE - input.len() % AES_BLOCK_SIZE) % AES_BLOCK_SIZE;
    let mut i: usize = 0;
    while i < padding
        invariant
            i <= padding < AES_BLOCK_SIZE,
            input@ == packet@ + zeros(i as nat),
        decreases padding - i,
    {
        input.push(0);
        i = i + 1;
        assert(input@ =~= packet@ + zeros(i as nat));
    }
    assert(input@.skip(0) =~= input@);
    PacketEncryption { iv, input, cursor: 0, output: Vec::new() }
}

impl PacketEncryption {
    /// The invariant of the machine: every constructor establishes it and
    /// every method keeps it.
    pub closed spec fn wf(&self) -> bool {
        &&& self.cursor <= self.input@.len()
        &&& self.input@.len() % AES_BLOCK_SIZE as nat == 0
        &&& self.cursor % AES_BLOCK_SIZE == 0
        &&& self.output@.len() == self.cursor
    }

    /// The machine is as its model is.
    pub proof fn lemma_model_wf(&self)
        requires
            self.wf(),
        ensures
            self@.wf(),
    {
    }

    /// The block that the caller is to encrypt next, or nothing when the
    /// whole packet is encrypted.
    pub fn next_block(&self) -> (block: Option<[u8; AES_BLOCK_SIZE]>)
        requires
            self.wf(),
        ensures
            block is Some <==> self@.next_block() is Some,
            block matches Some(b) ==> Some(b@) == self@.next_block(),
    {
        if self.cursor >= self.input.len() {
            return None;
        }
        let ghost plain = self@.pending.take(AES_BLOCK_SIZE as int);
        let ghost previous = self@.previous();
        let mut block = [0u8;AES_BLOCK_SIZE];
        let mut i: usize = 0;
        while i < AES_BLOCK_SIZE
            invariant
                i <= AES_BLOCK_SIZE,
                self.wf(),
                self.cursor < self.input@.len(),
                plain == self@.pending.take(AES_BLOCK_SIZE as int),
                previous == self@.previous(),
                forall|k: int| 0 <= k < i ==> block@[k] == plain[k] ^ previous[k],
            decreases AES_BLOCK_SIZE - i,
        {
            let chained = if self.cursor == 0 {
                self.iv[i]
            } else {
                self.output[self.cursor - AES_BLOCK_SIZE + i]
            };
            block[i] = self.input[self.cursor + i] ^ chained;
            i = i + 1;
        }
        assert(block@ =~= xor_bytes(plain, previous));
        Some(block)
    }

    /// Takes the block that the caller encrypted. It is ignored when no
    /// block was due.
    pub fn accept_block(&mut self, block: &[u8; AES_BLOCK_SIZE])
        requires
            old(self).wf(),
        ensures
            final(self).wf(),
            final(self)@ == old(self)@.accept(block@),
    {
        if self.cursor >= self.input.len() {
            return ;
        }
        let mut i: usize = 0;
        while i < AES_BLOCK_SIZE
            invariant
                i <= AES_BLOCK_SIZE,
                self.output@ == old(self).output@ + block@.take(i as int),
                self.input == old(self).input,
                self.cursor == old(self).cursor,
                self.iv == old(self).iv,
            decreases AES_BLOCK_SIZE - i,
        {
            self.output.push(block[i]);
            i = i + 1;
            assert(self.output@ =~= old(self).output@ + block@.take(i as int));
        }
        assert(block@.take(AES_BLOCK_SIZE as int) =~= block@);
        self.cursor = self.cursor + AES_BLOCK_SIZE;
        assert(self@.pending =~= old(self)@.pending.skip(AES_BLOCK_SIZE as int));
    }

    /// The ciphertext so far, and the IV in the clear behind it.
    pub fn finish(self) -> (packet: Vec<u8>)
        ensures
            packet@ == self@.output(),
    {
        let mut packet = self.output;
        let mut i: usize = 0;
        while i < IV_SIZE
            invariant
                i <= IV_SIZE,
                packet@ == self.output@ + self.iv@.take(i as int),
            decreases IV_SIZE - i,
        {
            packet.push(self.iv[i]);
            i = i + 1;
            assert(packet@ =~= self.output@ + self.iv@.take(i as int));
        }
        assert(self.iv@.take(IV_SIZE as int) =~= self.iv@);
        packet
    }
}

#[derive(Debug, Clone, Copy, PartialEq, Eq, Structural)]
pub enum DecryptionError {
    /// The packet to be decrypted was not the correct length
    InvalidLength,
}

impl DecryptionError {
    /// The error in words.
    pub fn message(&self) -> (text: String)
        ensures
            text@ == "The packet to be decrypted was not the correct length"@,
    {
        "The packet to be decrypted was not the correct length".to_owned()
    }
}

/// Decrypts a packet in cipher-block-chaining mode, block by block.
pub struct PacketDecryption {
    packet: Vec<u8>,
    cursor: usize,
    output: Vec<u8>,
}

impl View for PacketDecryption {
    type V = DecryptionModel;

    closed spec fn view(&self) -> DecryptionModel {
        DecryptionModel {
            previous: if self.cursor == 0 {
                self.packet@.skip(self.packet@.len() - IV_SIZE)
            } else {
                self.packet@.subrange(self.cursor - AES_BLOCK_SIZE, self.cursor as int)
            },
            pending: self.packet@.subrange(self.cursor as int, self.packet@.len() - IV_SIZE),
            done: self.output@,
        }
    }
}

/// Starts the decryption of `packet`, which is ciphertext with the IV behind
/// it. A packet of any other length is refused.
pub fn decrypt_packet(packet: Vec<u8>) -> (decryption: Result<PacketDecryption, DecryptionError>)
    ensures
        decryption is Ok <==> valid_encrypted_len(packet@.len()),
        decryption matches Ok(machine) ==> machine.wf() && machine@ == DecryptionModel::start(
            packet@,
        ),
{
    if packet.len() < IV_SIZE || (packet.len() - IV_SIZE) % AES_BLOCK_SIZE != 0 {
        return Err(DecryptionError::InvalidLength);
    }
    let machine = PacketDecryption { packet, cursor: 0, output: Vec::new() };
    assert(machine@.pending =~= packet@.take(packet@.len() - IV_SIZE));
    Ok(machine)
}

impl PacketDecryption {
    /// The invariant of the machine: every constructor establishes it and
    /// every method keeps it.
    pub closed spec fn wf(&self) -> bool {
        &&& self.packet@.len() >= IV_SIZE
        &&& self.packet@.len() % AES_BLOCK_SIZE as nat == 0
        &&& self.cursor % AES_BLOCK_SIZE == 0
        &&& self.cursor + IV_SIZE <= self.packet@.len()
    }

    /// The machine is as its model is.
    pub proof fn lemma_model_wf(&self)
        requires
            self.wf(),
        ensures
            self@.wf(),
    {
    }

    /// The block that the caller is to decrypt next, or nothing when the
    /// whole packet is decrypted.
    pub fn next_block(&self) -> (block: Option<[u8; AES_BLOCK_SIZE]>)
        requires
            self.wf(),
        ensures
            block is Some <==> self@.next_block() is Some,
            block matches Some(b) ==> Some(b@) == self@.next_block(),
    {
        let total = self.packet.len();
        if self.cursor + IV_SIZE >= total {
            return None;
        }
        let mut block = [0u8;AES_BLOCK_SIZE];
        let mut i: usize = 0;
        while i < AES_BLOCK_SIZE
            invariant
                i <= AES_BLOCK_SIZE,
                self.wf(),
                self.cursor + IV_SIZE < self.packet@.len(),
                forall|k: int| 0 <= k < i ==> block@[k] == self.packet@[self.cursor + k],
            decreases AES_BLOCK_SIZE - i,
        {
            block[i] = self.packet[self.cursor + i];
            i = i + 1;
        }
        assert(block@ =~= self@.pending.take(AES_BLOCK_SIZE as int));
        Some(block)
    }

    /// Takes the block that the caller decrypted. It is ignored when no
    /// block was due.
    pub fn accept_block(&mut self, block: &[u8; AES_BLOCK_SIZE])
        requires
            old(self).wf(),
        ensures
            final(self).wf(),
            final(self)@ == old(self)@.accept(block@),
    {
        let total = self.packet.len();
        if self.cursor + IV_SIZE >= total {
            assert(self@.pending.len() == 0);
            return ;
        }
        let ghost previous = self@.previous;
        let mut i: usize = 0;
        while i < AES_BLOCK_SIZE
            invariant
                i <= AES_BLOCK_SIZE,
                old(self).wf(),
                total == self.packet@.len(),
                self.cursor + IV_SIZE < total,
                previous == old(self)@.previous,
                self.output@ == old(self).output@ + xor_bytes(block@, previous).take(i as int),
                self.packet == old(self).packet,
                self.cursor == old(self).cursor,
            decreases AES_BLOCK_SIZE - i,
        {
            let chained = if self.cursor == 0 {
                self.packet[total - IV_SIZE + i]
            } else {
                self.packet[self.cursor - AES_BLOCK_SIZE + i]
            };
            self.output.push(block[i] ^ chained);
            i = i + 1;
            assert(self.output@ =~= old(self).output@ + xor_bytes(block@, previous).take(
                i as int,
            ));
        }
        assert(xor_bytes(block@, previous).take(AES_BLOCK_SIZE as int) =~= xor_bytes(
            block@,
            previous,
        ));
        self.cursor = self.cursor + AES_BLOCK_SIZE;
        assert(self@.pending =~= old(self)@.pending.skip(AES_BLOCK_SIZE as int));
        assert(self@.previous =~= old(self)@.pending.take(AES_BLOCK_SIZE as int));
    }

    /// The plaintext so far. The zero bytes that padded it are still behind
    /// it.
    pub fn finish(self) -> (plaintext: Vec<u8>)
        ensures
            plaintext@ == self@.done,
    {
        self.output
    }
}

} // verus!
