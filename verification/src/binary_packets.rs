//! Cursor-based big-endian encoder and decoder for fixed-width integers,
//! length-prefixed byte strings and UTF-8 text.

use core::str::Utf8Error;
use vstd::prelude::*;
use vstd::slice::slice_subrange;
use vstd::string::StringSliceAdditionalSpecFns;
use vstd::utf8::valid_utf8;

verus! {

/// The largest length that a 16-bit length prefix can announce.
pub const MAX_FIELD_LEN: usize = 65535;

/// The big-endian digits of `value` in base 256, `width` bytes wide. Digits
/// above the width are cut off.
pub open spec fn be_bytes(value: nat, width: nat) -> Seq<u8>
    decreases width,
{
    if width == 0 {
        Seq::empty()
    } else {
        be_bytes(value / 256, (width - 1) as nat).push((value % 256) as u8)
    }
}

/// The number that `bytes` spell in base 256, most significant byte first.
pub open spec fn be_value(bytes: Seq<u8>) -> nat
    decreases bytes.len(),
{
    if bytes.len() == 0 {
        0
    } else {
        be_value(bytes.drop_last()) * 256 + bytes.last() as nat
    }
}

/// 256 to the power `n`.
pub open spec fn pow256(n: nat) -> nat
    decreases n,
{
    if n == 0 {
        1
    } else {
        256 * pow256((n - 1) as nat)
    }
}

/// The encoding is exactly as wide as asked.
pub proof fn lemma_be_bytes_len(value: nat, width: nat)
    ensures
        be_bytes(value, width).len() == width,
    decreases width,
{
    if width > 0 {
        lemma_be_bytes_len(value / 256, (width - 1) as nat);
    }
}

/// A byte string of length `n` spells a number below `256^n`.
pub proof fn lemma_be_value_bound(bytes: Seq<u8>)
    ensures
        be_value(bytes) < pow256(bytes.len()),
    decreases bytes.len(),
{
    if bytes.len() > 0 {
        lemma_be_value_bound(bytes.drop_last());
    }
}

/// `pow256` grows with its exponent.
pub proof fn lemma_pow256_monotonic(a: nat, b: nat)
    requires
        a <= b,
    ensures
        1 <= pow256(a) <= pow256(b),
    decreases b,
{
    if b > 0 {
        if a < b {
            lemma_pow256_monotonic(a, (b - 1) as nat);
        } else {
            lemma_pow256_monotonic((a - 1) as nat, (b - 1) as nat);
        }
    }
}

/// Decoding an encoding gives the number back, if it fits the width.
pub proof fn lemma_be_value_of_be_bytes(value: nat, width: nat)
    requires
        value < pow256(width),
    ensures
        be_value(be_bytes(value, width)) == value,
    decreases width,
{
    if width > 0 {
        let head = be_bytes(value / 256, (width - 1) as nat);
        let low = (value % 256) as u8;
        lemma_be_value_of_be_bytes(value / 256, (width - 1) as nat);
        assert(head.push(low).drop_last() =~= head);
        assert(head.push(low).last() == low);
    }
}

/// Encoding a decoded byte string at its own length gives the bytes back.
pub proof fn lemma_be_bytes_of_be_value(bytes: Seq<u8>)
    ensures
        be_bytes(be_value(bytes), bytes.len()) == bytes,
    decreases bytes.len(),
{
    if bytes.len() > 0 {
        let head = bytes.drop_last();
        lemma_be_bytes_of_be_value(head);
        let v = be_value(bytes);
        assert(v / 256 == be_value(head));
        assert(v % 256 == bytes.last() as nat);
        assert(head.push(bytes.last()) =~= bytes);
    } else {
        assert(bytes =~= Seq::<u8>::empty());
    }
}

/// The values of `pow256` at the widths of the integer types.
pub proof fn lemma_pow256_values()
    ensures
        pow256(1) == 0x100,
        pow256(2) == 0x1_0000,
        pow256(4) == 0x1_0000_0000,
        pow256(8) == 0x1_0000_0000_0000_0000,
        pow256(16) == 0x1_0000_0000_0000_0000_0000_0000_0000_0000,
{
    reveal_with_fuel(pow256, 17);
}

/// `payload` behind its length as a 16-bit big-endian prefix.
pub open spec fn length_prefixed(payload: Seq<u8>) -> Seq<u8> {
    be_bytes(payload.len(), 2) + payload
}

/// Whether `bytes` start with a 16-bit length and at least that many bytes
/// behind it.
pub open spec fn holds_field(bytes: Seq<u8>) -> bool {
    bytes.len() >= 2 && bytes.len() >= 2 + be_value(bytes.take(2))
}

/// The bytes that the leading 16-bit length of `bytes` announces.
pub open spec fn field_payload(bytes: Seq<u8>) -> Seq<u8> {
    bytes.subrange(2, 2 + be_value(bytes.take(2)) as int)
}

/// A signed number comes back from its two's-complement bit pattern, at
/// every width.
pub proof fn lemma_signed_round_trip(a: i8, b: i16, c: i32, d: i64, e: i128)
    ensures
        (a as u8) as i8 == a,
        (b as u16) as i16 == b,
        (c as u32) as i32 == c,
        (d as u64) as i64 == d,
        (e as u128) as i128 == e,
{
    assert((a as u8) as i8 == a) by (bit_vector);
    assert((b as u16) as i16 == b) by (bit_vector);
    assert((c as u32) as i32 == c) by (bit_vector);
    assert((d as u64) as i64 == d) by (bit_vector);
    assert((e as u128) as i128 == e) by (bit_vector);
}

/// `core::str::Utf8Error`, which `core::str::from_utf8` returns for bytes
/// that are not UTF-8. It is carried through; nothing is said of what it
/// holds.
#[verifier::external_type_specification]
#[verifier::external_body]
pub struct ExUtf8Error(core::str::Utf8Error);

/// `core::str::from_utf8`: the bytes come back as text exactly when they are
/// well-formed UTF-8, and the text then encodes to the same bytes.
#[verifier::external_body]
fn str_from_utf8<'a>(bytes: &'a [u8]) -> (checked: Result<&'a str, Utf8Error>)
    ensures
        checked is Ok <==> valid_utf8(bytes@),
        checked matches Ok(s) ==> s.spec_bytes() == bytes@,
{
    core::str::from_utf8(bytes)
}

/// The `width` low bytes of `value`, most significant first, at the front of
/// a fixed array.
pub(crate) fn be_digits(value: u128, width: usize) -> (digits: [u8; 16])
    requires
        width <= 16,
    ensures
        digits@.subrange(0, width as int) == be_bytes(value as nat, width as nat),
{
    let mut digits: [u8; 16] = [0u8; 16];
    let mut rest: u128 = value;
    let mut i: usize = width;
    while i > 0
        invariant
            i <= width <= 16,
            be_bytes(value as nat, width as nat) == be_bytes(rest as nat, i as nat)
                + digits@.subrange(i as int, width as int),
        decreases i,
    {
        let ghost before = digits@;
        i = i - 1;
        digits[i] = (rest % 256) as u8;
        proof {
            assert(be_bytes(rest as nat, (i + 1) as nat) == be_bytes(
                (rest / 256) as nat,
                i as nat,
            ).push((rest % 256) as u8));
            assert(digits@.subrange(i as int, width as int) =~= seq![(rest % 256) as u8]
                + before.subrange(i + 1, width as int));
            assert(be_bytes((rest / 256) as nat, i as nat).push((rest % 256) as u8)
                + before.subrange(i + 1, width as int) =~= be_bytes(
                (rest / 256) as nat,
                i as nat,
            ) + digits@.subrange(i as int, width as int));
        }
        rest = rest / 256;
    }
    assert(be_bytes(rest as nat, 0) =~= Seq::<u8>::empty());
    assert(be_bytes(value as nat, width as nat) =~= digits@.subrange(0, width as int));
    digits
}

#[derive(Debug, Clone, Copy, PartialEq, Eq, Structural)]
pub enum PacketWriteError {
    /// The data is too large to include in the packet
    TooLarge,
}

/// Builds packets via manual assembly
pub struct PacketWriter {
    packet: Vec<u8>,
}

impl View for PacketWriter {
    type V = Seq<u8>;

    closed spec fn view(&self) -> Seq<u8> {
        self.packet@
    }
}

impl PacketWriter {
    pub fn new() -> (writer: Self)
        ensures
            writer@ == Seq::<u8>::empty(),
    {
        Self { packet: Vec::new() }
    }

    /// Appends the `width` low bytes of `value`, most significant first.
    fn append_be(&mut self, value: u128, width: usize)
        requires
            width <= 16,
        ensures
            final(self)@ == old(self)@ + be_bytes(value as nat, width as nat),
    {
        let digits = be_digits(value, width);
        let ghost start = self.packet@;
        let mut k: usize = 0;
        while k < width
            invariant
                k <= width <= 16,
                self.packet@ == start + digits@.subrange(0, k as int),
            decreases width - k,
        {
            self.packet.push(digits[k]);
            k = k + 1;
            assert(self.packet@ =~= start + digits@.subrange(0, k as int));
        }
    }

    pub fn write_u8(&mut self, num: u8)
        ensures
            final(self)@ == old(self)@.push(num),
    {
        self.packet.push(num);
    }

    pub fn write_u16(&mut self, num: u16)
        ensures
            final(self)@ == old(self)@ + be_bytes(num as nat, 2),
    {
        self.append_be(num as u128, 2);
    }

    pub fn write_u32(&mut self, num: u32)
        ensures
            final(self)@ == old(self)@ + be_bytes(num as nat, 4),
    {
        self.append_be(num as u128, 4);
    }

    pub fn write_u64(&mut self, num: u64)
        ensures
            final(self)@ == old(self)@ + be_bytes(num as nat, 8),
    {
        self.append_be(num as u128, 8);
    }

    pub fn write_u128(&mut self, num: u128)
        ensures
            final(self)@ == old(self)@ + be_bytes(num as nat, 16),
    {
        self.append_be(num, 16);
    }

    /// Writes the two's-complement bit pattern of `num`.
    pub fn write_i8(&mut self, num: i8)
        ensures
            final(self)@ == old(self)@.push(num as u8),
    {
        self.packet.push(#[verifier::truncate] (num as u8));
    }

    /// Writes the two's-complement bit pattern of `num`.
    pub fn write_i16(&mut self, num: i16)
        ensures
            final(self)@ == old(self)@ + be_bytes((num as u16) as nat, 2),
    {
        self.append_be(#[verifier::truncate] (num as u16) as u128, 2);
    }

    /// Writes the two's-complement bit pattern of `num`.
    pub fn write_i32(&mut self, num: i32)
        ensures
            final(self)@ == old(self)@ + be_bytes((num as u32) as nat, 4),
    {
        self.append_be(#[verifier::truncate] (num as u32) as u128, 4);
    }

    /// Writes the two's-complement bit pattern of `num`.
    pub fn write_i64(&mut self, num: i64)
        ensures
            final(self)@ == old(self)@ + be_bytes((num as u64) as nat, 8),
    {
        self.append_be(#[verifier::truncate] (num as u64) as u128, 8);
    }

    /// Writes the two's-complement bit pattern of `num`.
    pub fn write_i128(&mut self, num: i128)
        ensures
            final(self)@ == old(self)@ + be_bytes((num as u128) as nat, 16),
    {
        self.append_be(#[verifier::truncate] (num as u128), 16);
    }

    /// Appends `bytes` behind their length as a 16-bit prefix. Nothing is
    /// written when the length does not fit the prefix.
    pub fn write_bytes(&mut self, bytes: &[u8]) -> (result: Result<(), PacketWriteError>)
        ensures
            result is Ok <==> bytes@.len() <= MAX_FIELD_LEN,
            result is Ok ==> final(self)@ == old(self)@ + length_prefixed(bytes@),
            result is Err ==> final(self)@ == old(self)@,
    {
        let length = bytes.len();
        if length > MAX_FIELD_LEN {
            return Err(PacketWriteError::TooLarge);
        }
        self.write_u16(length as u16);
        let ghost prefixed = self.packet@;
        self.packet.extend_from_slice(bytes);
        assert(self.packet@ =~= prefixed + bytes@);
        assert(self.packet@ =~= old(self).packet@ + length_prefixed(bytes@));
        Ok(())
    }

    /// Appends the UTF-8 bytes of `string` behind their length.
    pub fn write_str(&mut self, string: &str) -> (result: Result<(), PacketWriteError>)
        ensures
            result is Ok <==> string.spec_bytes().len() <= MAX_FIELD_LEN,
            result is Ok ==> final(self)@ == old(self)@ + length_prefixed(string.spec_bytes()),
            result is Err ==> final(self)@ == old(self)@,
    {
        self.write_bytes(string.as_bytes())
    }

    pub fn finish(self) -> (packet: Vec<u8>)
        ensures
            packet@ == self@,
    {
        self.packet
    }
}

/// Reads packets via a cursor over a borrowed buffer
pub struct PacketReader<'a> {
    cursor: usize,
    packet: &'a [u8],
}

impl<'a> PacketReader<'a> {
    #[verifier::type_invariant]
    spec fn cursor_in_buffer(&self) -> bool {
        self.cursor <= self.packet@.len()
    }

    /// The whole buffer that the reader was made over.
    pub closed spec fn buffer(&self) -> Seq<u8> {
        self.packet@
    }

    /// How many bytes have been consumed.
    pub closed spec fn position(&self) -> nat {
        self.cursor as nat
    }

    /// The bytes that have not been consumed yet.
    pub open spec fn remaining(&self) -> Seq<u8> {
        self.buffer().skip(self.position() as int)
    }

    /// The reader that stands `count` bytes further in the same buffer.
    pub open spec fn advanced(&self, next: &Self, count: nat) -> bool {
        &&& next.buffer() == self.buffer()
        &&& next.position() == self.position() + count
        &&& next.position() <= next.buffer().len()
    }

    pub fn new(packet: &'a [u8]) -> (reader: Self)
        ensures
            reader.buffer() == packet@,
            reader.position() == 0,
    {
        Self { cursor: 0, packet }
    }

    /// Reads `width` bytes as one big-endian number, or nothing when fewer
    /// than `width` bytes remain.
    fn take_be(&mut self, width: usize) -> (value: Option<u128>)
        requires
            1 <= width <= 16,
        ensures
            final(self).position() <= final(self).buffer().len(),
            value is Some <==> old(self).remaining().len() >= width,
            value matches Some(v) ==> v == be_value(old(self).remaining().take(width as int))
                && old(self).advanced(final(self), width as nat),
            value is None ==> *final(self) == *old(self),
    {
        proof {
            use_type_invariant(&*self);
        }
        if self.packet.len() - self.cursor < width {
            return None;
        }
        let ghost field = self.remaining().take(width as int);
        let total = self.packet.len();
        let mut acc: u128 = 0;
        let mut i: usize = 0;
        while i < width
            invariant
                i <= width <= 16,
                self.cursor + width <= self.packet@.len() == total,
                field == self.packet@.subrange(self.cursor as int, self.cursor + width),
                acc == be_value(field.take(i as int)),
            decreases width - i,
        {
            proof {
                lemma_be_value_bound(field.take(i as int));
                lemma_pow256_monotonic((i + 1) as nat, 16);
                lemma_pow256_values();
                assert(field.take(i + 1).drop_last() =~= field.take(i as int));
            }
            acc = acc * 256 + self.packet[self.cursor + i] as u128;
            i = i + 1;
        }
        assert(field.take(width as int) =~= field);
        assert(self.remaining().take(width as int) =~= field);
        self.cursor = self.cursor + width;
        Some(acc)
    }

    pub fn read_u8(&mut self) -> (num: Option<u8>)
        ensures
            final(self).position() <= final(self).buffer().len(),
            num is Some <==> old(self).remaining().len() >= 1,
            num matches Some(v) ==> v == old(self).remaining()[0] && old(self).advanced(
                final(self),
                1,
            ),
            num is None ==> *final(self) == *old(self),
    {
        proof {
            use_type_invariant(&*self);
        }
        if self.packet.len() - self.cursor < 1 {
            return None;
        }
        let num = self.packet[self.cursor];
        self.cursor = self.cursor + 1;
        Some(num)
    }

    pub fn read_u16(&mut self) -> (num: Option<u16>)
        ensures
            final(self).position() <= final(self).buffer().len(),
            num is Some <==> old(self).remaining().len() >= 2,
            num matches Some(v) ==> v == be_value(old(self).remaining().take(2))
                && old(self).advanced(final(self), 2),
            num is None ==> *final(self) == *old(self),
    {
        proof {
            lemma_be_value_bound(self.remaining().take(2));
            lemma_pow256_values();
        }
        match self.take_be(2) {
            Some(v) => Some(v as u16),
            None => None,
        }
    }

    pub fn read_u32(&mut self) -> (num: Option<u32>)
        ensures
            final(self).position() <= final(self).buffer().len(),
            num is Some <==> old(self).remaining().len() >= 4,
            num matches Some(v) ==> v == be_value(old(self).remaining().take(4))
                && old(self).advanced(final(self), 4),
            num is None ==> *final(self) == *old(self),
    {
        proof {
            lemma_be_value_bound(self.remaining().take(4));
            lemma_pow256_values();
        }
        match self.take_be(4) {
            Some(v) => Some(v as u32),
            None => None,
        }
    }

    pub fn read_u64(&mut self) -> (num: Option<u64>)
        ensures
            final(self).position() <= final(self).buffer().len(),
            num is Some <==> old(self).remaining().len() >= 8,
            num matches Some(v) ==> v == be_value(old(self).remaining().take(8))
                && old(self).advanced(final(self), 8),
            num is None ==> *final(self) == *old(self),
    {
        proof {
            lemma_be_value_bound(self.remaining().take(8));
            lemma_pow256_values();
        }
        match self.take_be(8) {
            Some(v) => Some(v as u64),
            None => None,
        }
    }

    pub fn read_u128(&mut self) -> (num: Option<u128>)
        ensures
            final(self).position() <= final(self).buffer().len(),
            num is Some <==> old(self).remaining().len() >= 16,
            num matches Some(v) ==> v == be_value(old(self).remaining().take(16))
                && old(self).advanced(final(self), 16),
            num is None ==> *final(self) == *old(self),
    {
        proof {
            lemma_be_value_bound(self.remaining().take(16));
            lemma_pow256_values();
        }
        match self.take_be(16) {
            Some(v) => Some(v),
            None => None,
        }
    }

    /// Reads a two's-complement bit pattern.
    pub fn read_i8(&mut self) -> (num: Option<i8>)
        ensures
            final(self).position() <= final(self).buffer().len(),
            num is Some <==> old(self).remaining().len() >= 1,
            num matches Some(v) ==> v == old(self).remaining()[0] as i8 && old(self).advanced(
                final(self),
                1,
            ),
            num is None ==> *final(self) == *old(self),
    {
        match self.read_u8() {
            Some(v) => Some(#[verifier::truncate] (v as i8)),
            None => None,
        }
    }

    /// Reads a two's-complement bit pattern.
    pub fn read_i16(&mut self) -> (num: Option<i16>)
        ensures
            final(self).position() <= final(self).buffer().len(),
            num is Some <==> old(self).remaining().len() >= 2,
            num matches Some(v) ==> v == (be_value(old(self).remaining().take(2)) as u16) as i16
                && old(self).advanced(final(self), 2),
            num is None ==> *final(self) == *old(self),
    {
        proof {
            lemma_be_value_bound(self.remaining().take(2));
            lemma_pow256_values();
        }
        match self.take_be(2) {
            Some(v) => Some(#[verifier::truncate] ((v as u16) as i16)),
            None => None,
        }
    }

    /// Reads a two's-complement bit pattern.
    pub fn read_i32(&mut self) -> (num: Option<i32>)
        ensures
            final(self).position() <= final(self).buffer().len(),
            num is Some <==> old(self).remaining().len() >= 4,
            num matches Some(v) ==> v == (be_value(old(self).remaining().take(4)) as u32) as i32
                && old(self).advanced(final(self), 4),
            num is None ==> *final(self) == *old(self),
    {
        proof {
            lemma_be_value_bound(self.remaining().take(4));
            lemma_pow256_values();
        }
        match self.take_be(4) {
            Some(v) => Some(#[verifier::truncate] ((v as u32) as i32)),
            None => None,
        }
    }

    /// Reads a two's-complement bit pattern.
    pub fn read_i64(&mut self) -> (num: Option<i64>)
        ensures
            final(self).position() <= final(self).buffer().len(),
            num is Some <==> old(self).remaining().len() >= 8,
            num matches Some(v) ==> v == (be_value(old(self).remaining().take(8)) as u64) as i64
                && old(self).advanced(final(self), 8),
            num is None ==> *final(self) == *old(self),
    {
        proof {
            lemma_be_value_bound(self.remaining().take(8));
            lemma_pow256_values();
        }
        match self.take_be(8) {
            Some(v) => Some(#[verifier::truncate] ((v as u64) as i64)),
            None => None,
        }
    }

    /// Reads a two's-complement bit pattern.
    pub fn read_i128(&mut self) -> (num: Option<i128>)
        ensures
            final(self).position() <= final(self).buffer().len(),
            num is Some <==> old(self).remaining().len() >= 16,
            num matches Some(v) ==> v == (be_value(old(self).remaining().take(16)) as u128) as i128
                && old(self).advanced(final(self), 16),
            num is None ==> *final(self) == *old(self),
    {
        proof {
            lemma_be_value_bound(self.remaining().take(16));
            lemma_pow256_values();
        }
        match self.take_be(16) {
            Some(v) => Some(#[verifier::truncate] (v as i128)),
            None => None,
        }
    }

    /// Reads a 16-bit length and then that many bytes. The length stays
    /// consumed when the bytes behind it are missing.
    pub fn read_bytes(&mut self) -> (data: Option<&'a [u8]>)
        ensures
            final(self).position() <= final(self).buffer().len(),
            final(self).buffer() == old(self).buffer(),
            data is Some <==> holds_field(old(self).remaining()),
            data matches Some(bytes) ==> bytes@ == field_payload(old(self).remaining())
                && old(self).advanced(final(self), 2 + bytes@.len()),
            data is None ==> if old(self).remaining().len() >= 2 {
                old(self).advanced(final(self), 2)
            } else {
                *final(self) == *old(self)
            },
    {
        let length = match self.read_u16() {
            Some(length) => length as usize,
            None => {
                return None;
            },
        };
        proof {
            use_type_invariant(&*self);
        }
        if self.packet.len() - self.cursor < length {
            return None;
        }
        let data = slice_subrange(self.packet, self.cursor, self.cursor + length);
        assert(data@ =~= field_payload(old(self).remaining()));
        self.cursor = self.cursor + length;
        Some(data)
    }

    /// Reads a length-prefixed byte string and validates it as UTF-8.
    pub fn read_str(&mut self) -> (text: Option<Result<&'a str, Utf8Error>>)
        ensures
            final(self).position() <= final(self).buffer().len(),
            final(self).buffer() == old(self).buffer(),
            text is Some <==> holds_field(old(self).remaining()),
            text matches Some(checked) ==> {
                &&& checked is Ok <==> valid_utf8(field_payload(old(self).remaining()))
                &&& checked matches Ok(s) ==> s.spec_bytes() == field_payload(
                    old(self).remaining(),
                )
                &&& old(self).advanced(
                    final(self),
                    2 + field_payload(old(self).remaining()).len(),
                )
            },
            text is None ==> if old(self).remaining().len() >= 2 {
                old(self).advanced(final(self), 2)
            } else {
                *final(self) == *old(self)
            },
    {
        match self.read_bytes() {
            Some(bytes) => Some(str_from_utf8(bytes)),
            None => None,
        }
    }

    /// The bytes that no read has consumed.
    pub fn get_remainder(self) -> (rest: &'a [u8])
        ensures
            rest@ == self.remaining(),
    {
        proof {
            use_type_invariant(&self);
        }
        let rest = slice_subrange(self.packet, self.cursor, self.packet.len());
        assert(rest@ =~= self.remaining());
        rest
    }
}

} // verus!
