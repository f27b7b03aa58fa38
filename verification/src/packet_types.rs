//! The messages that nodes exchange, and how each is written and read.

use crate::binary_packets::{
    be_bytes, field_payload, holds_field, length_prefixed, lemma_be_bytes_len,
    lemma_be_bytes_of_be_value, lemma_be_value_bound, lemma_be_value_of_be_bytes, lemma_pow256_values, PacketReader,
    PacketWriteError, PacketWriter, MAX_FIELD_LEN,
};
use crate::packet_manager::Role;
use vstd::prelude::*;
use vstd::utf8::{encode_utf8, valid_utf8};

verus! {

/// A value with a place on the wire.
pub trait Transmittable: Sized {
    /// The bytes that stand for the value.
    spec fn wire(&self) -> Seq<u8>;

    /// Whether every field of the value fits its place in the format.
    spec fn encodable(&self) -> bool;

    /// What is written before a field that does not fit is met.
    spec fn written_on_error(&self) -> Seq<u8>;

    /// The length of the encoded value that `bytes` start with, if they
    /// start with one.
    spec fn frame_len(bytes: Seq<u8>) -> Option<nat>;

    /// Writes the value behind what the writer holds. A value that cannot be
    /// encoded is refused where its first oversized field stands.
    fn encode(&self, packet_writer: &mut PacketWriter) -> (result: Result<(), PacketWriteError>)
        ensures
            result is Ok <==> self.encodable(),
            result is Ok ==> final(packet_writer)@ == old(packet_writer)@ + self.wire(),
            result is Err ==> final(packet_writer)@ == old(packet_writer)@
                + self.written_on_error(),
    ;

    /// Reads one value from where the reader stands. The value read encodes
    /// to exactly the bytes that were consumed.
    fn decode(packet_reader: &mut PacketReader) -> (value: Option<Self>)
        ensures
            final(packet_reader).buffer() == old(packet_reader).buffer(),
            old(packet_reader).position() <= final(packet_reader).position() <= old(
                packet_reader,
            ).buffer().len(),
            value is Some <==> Self::frame_len(old(packet_reader).remaining()) is Some,
            value matches Some(v) ==> {
                &&& v.encodable()
                &&& Self::frame_len(old(packet_reader).remaining()) == Some(v.wire().len())
                &&& v.wire() == old(packet_reader).remaining().take(v.wire().len() as int)
                &&& old(packet_reader).advanced(final(packet_reader), v.wire().len())
            },
    ;

    /// Bytes that start with the encoding of a value start with a frame of
    /// that encoding's length, whatever follows.
    proof fn lemma_wire_is_framed(&self, rest: Seq<u8>)
        requires
            self.encodable(),
        ensures
            Self::frame_len(self.wire() + rest) == Some(self.wire().len()),
    ;
}

impl Transmittable for Role {
    open spec fn wire(&self) -> Seq<u8> {
        match self {
            Role::Commander => seq![0u8],
            Role::Node => seq![1u8],
        }
    }

    open spec fn encodable(&self) -> bool {
        true
    }

    open spec fn written_on_error(&self) -> Seq<u8> {
        Seq::empty()
    }

    open spec fn frame_len(bytes: Seq<u8>) -> Option<nat> {
        if bytes.len() >= 1 && (bytes[0] == 0 || bytes[0] == 1) {
            Some(1)
        } else {
            None
        }
    }

    fn encode(&self, packet_writer: &mut PacketWriter) -> (result: Result<(), PacketWriteError>) {
        match self {
            Self::Commander => {
                packet_writer.write_u8(0);
            },
            Self::Node => {
                packet_writer.write_u8(1);
            },
        }
        assert(final(packet_writer)@ =~= old(packet_writer)@ + self.wire());
        Ok(())
    }

    fn decode(packet_reader: &mut PacketReader) -> (value: Option<Self>) {
        let ghost rest = packet_reader.remaining();
        let value = match packet_reader.read_u8()? {
            0 => Some(Self::Commander),
            1 => Some(Self::Node),
            _ => None,
        };
        proof {
            if let Some(v) = value {
                assert(v.wire() =~= rest.take(1));
            }
        }
        value
    }

    proof fn lemma_wire_is_framed(&self, rest: Seq<u8>) {
    }
}

#[derive(Debug, Clone)]
pub enum CommPacket {
    Heartbeat(Heartbeat),
}

impl Transmittable for CommPacket {
    open spec fn wire(&self) -> Seq<u8> {
        match self {
            CommPacket::Heartbeat(heartbeat) => seq![0u8] + heartbeat.wire(),
        }
    }

    open spec fn encodable(&self) -> bool {
        match self {
            CommPacket::Heartbeat(heartbeat) => heartbeat.encodable(),
        }
    }

    open spec fn written_on_error(&self) -> Seq<u8> {
        match self {
            CommPacket::Heartbeat(heartbeat) => seq![0u8] + heartbeat.written_on_error(),
        }
    }

    open spec fn frame_len(bytes: Seq<u8>) -> Option<nat> {
        if bytes.len() >= 1 && bytes[0] == 0 {
            match Heartbeat::frame_len(bytes.skip(1)) {
                Some(len) => Some(1 + len),
                None => None,
            }
        } else {
            None
        }
    }

    fn encode(&self, packet_writer: &mut PacketWriter) -> (result: Result<(), PacketWriteError>) {
        match self {
            Self::Heartbeat(heartbeat) => {
                packet_writer.write_u8(0);
                let result = heartbeat.encode(packet_writer);
                proof {
                    if result is Ok {
                        assert(final(packet_writer)@ =~= old(packet_writer)@ + self.wire());
                    } else {
                        assert(final(packet_writer)@ =~= old(packet_writer)@
                            + self.written_on_error());
                    }
                }
                result
            },
        }
    }

    fn decode(packet_reader: &mut PacketReader) -> (value: Option<Self>) {
        let ghost rest = packet_reader.remaining();
        match packet_reader.read_u8()? {
            0 => {
                assert(packet_reader.remaining() =~= rest.skip(1));
                let heartbeat = Heartbeat::decode(packet_reader)?;
                let value = Self::Heartbeat(heartbeat);
                assert(value.wire() =~= rest.take(value.wire().len() as int));
                Some(value)
            },
            _ => None,
        }
    }

    proof fn lemma_wire_is_framed(&self, rest: Seq<u8>) {
        match self {
            CommPacket::Heartbeat(heartbeat) => {
                heartbeat.lemma_wire_is_framed(rest);
                assert((self.wire() + rest).skip(1) =~= heartbeat.wire() + rest);
            },
        }
    }
}

#[derive(Debug, Clone)]
pub struct Heartbeat {
    pub car_name: Option<String>,
}

impl Heartbeat {
    /// The identity that the heartbeat carries, as text.
    pub open spec fn identity(&self) -> Option<Seq<char>> {
        match self.car_name {
            Some(name) => Some(name@),
            None => None,
        }
    }
}

impl Transmittable for Heartbeat {
    open spec fn wire(&self) -> Seq<u8> {
        match self.car_name {
            None => seq![0u8],
            Some(name) => seq![1u8] + length_prefixed(encode_utf8(name@)),
        }
    }

    open spec fn encodable(&self) -> bool {
        match self.car_name {
            None => true,
            Some(name) => encode_utf8(name@).len() <= MAX_FIELD_LEN,
        }
    }

    open spec fn written_on_error(&self) -> Seq<u8> {
        seq![1u8]
    }

    open spec fn frame_len(bytes: Seq<u8>) -> Option<nat> {
        if bytes.len() == 0 {
            None
        } else if bytes[0] == 0 {
            Some(1)
        } else if bytes[0] == 1 && holds_field(bytes.skip(1)) && valid_utf8(
            field_payload(bytes.skip(1)),
        ) {
            Some(3 + field_payload(bytes.skip(1)).len())
        } else {
            None
        }
    }

    fn encode(&self, packet_writer: &mut PacketWriter) -> (result: Result<(), PacketWriteError>) {
        match &self.car_name {
            None => {
                packet_writer.write_u8(0);
                assert(final(packet_writer)@ =~= old(packet_writer)@ + self.wire());
                Ok(())
            },
            Some(car_name) => {
                packet_writer.write_u8(1);
                let result = packet_writer.write_str(car_name.as_str());
                proof {
                    if result is Ok {
                        assert(final(packet_writer)@ =~= old(packet_writer)@ + self.wire());
                    } else {
                        assert(final(packet_writer)@ =~= old(packet_writer)@
                            + self.written_on_error());
                    }
                }
                result
            },
        }
    }

    fn decode(packet_reader: &mut PacketReader) -> (value: Option<Self>) {
        let ghost rest = packet_reader.remaining();
        match packet_reader.read_u8()? {
            0 => {
                let value = Self { car_name: None };
                assert(value.wire() =~= rest.take(1));
                Some(value)
            },
            1 => {
                assert(packet_reader.remaining() =~= rest.skip(1));
                let text = match packet_reader.read_str()? {
                    Ok(text) => text,
                    Err(_) => {
                        return None;
                    },
                };
                let value = Self { car_name: Some(text.to_owned()) };
                proof {
                    let field = rest.skip(1);
                    let payload = field_payload(field);
                    lemma_be_bytes_of_be_value(field.take(2));
                    lemma_be_value_bound(field.take(2));
                    lemma_pow256_values();
                    assert(value.wire() =~= rest.take(3 + payload.len() as int));
                }
                Some(value)
            },
            _ => None,
        }
    }

    proof fn lemma_wire_is_framed(&self, rest: Seq<u8>) {
        match self.car_name {
            None => {},
            Some(name) => {
                let payload = encode_utf8(name@);
                let field = (self.wire() + rest).skip(1);
                lemma_be_bytes_len(payload.len(), 2);
                lemma_pow256_values();
                lemma_be_value_of_be_bytes(payload.len(), 2);
                assert(field.take(2) =~= be_bytes(payload.len(), 2));
                assert(field_payload(field) =~= payload);
                vstd::utf8::encode_utf8_valid_utf8(name@);
            },
        }
    }
}

/// A heartbeat that is decoded from what encoding wrote, whatever stands
/// behind it, carries the identity that was encoded: a name for a name, and
/// none for none.
pub proof fn lemma_heartbeat_round_trip(sent: Heartbeat, rest: Seq<u8>, received: Heartbeat)
    requires
        sent.encodable(),
        received.encodable(),
        received.wire() == (sent.wire() + rest).take(received.wire().len() as int),
        Heartbeat::frame_len(sent.wire() + rest) == Some(received.wire().len()),
    ensures
        received.identity() == sent.identity(),
{
    sent.lemma_wire_is_framed(rest);
    assert((sent.wire() + rest).take(sent.wire().len() as int) =~= sent.wire());
    lemma_heartbeat_wire_is_injective(sent, received);
}

/// Two heartbeats with the same bytes on the wire carry the same identity.
pub proof fn lemma_heartbeat_wire_is_injective(first: Heartbeat, second: Heartbeat)
    requires
        first.encodable(),
        second.encodable(),
        first.wire() == second.wire(),
    ensures
        first.identity() == second.identity(),
{
    match (first.car_name, second.car_name) {
        (Some(a), Some(b)) => {
            let x = encode_utf8(a@);
            let y = encode_utf8(b@);
            lemma_be_bytes_len(x.len(), 2);
            lemma_be_bytes_len(y.len(), 2);
            lemma_pow256_values();
            lemma_be_value_of_be_bytes(x.len(), 2);
            lemma_be_value_of_be_bytes(y.len(), 2);
            assert(first.wire().subrange(1, 3) =~= be_bytes(x.len(), 2));
            assert(second.wire().subrange(1, 3) =~= be_bytes(y.len(), 2));
            assert(first.wire().skip(3) =~= x);
            assert(second.wire().skip(3) =~= y);
            vstd::utf8::encode_utf8_decode_utf8(a@);
            vstd::utf8::encode_utf8_decode_utf8(b@);
        },
        (None, None) => {},
        (Some(a), None) => {
            assert(first.wire()[0] == 1);
            assert(second.wire()[0] == 0);
        },
        (None, Some(b)) => {
            assert(first.wire()[0] == 0);
            assert(second.wire()[0] == 1);
        },
    }
}

} // verus!
