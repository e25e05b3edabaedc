use vstd::prelude::*;
use vstd::arithmetic::div_mod::lemma_small_mod;
use crate::protocol::types::{
    ByteCursor, DecodeError, EncodeError, VarInt, MinecraftDataType, Boolean, Long,
    UnsignedShort, UUID, lemma_varint_round_trip, lemma_string_round_trip,
    lemma_be_round_trip, lemma_pow256_concrete, spec_be_val,
};
use crate::protocol::Packet;

verus! {

/// The first packet of a session: the client names the target it wants
/// and whether it will ask for status or log in.
#[derive(Debug, PartialEq, Eq, Clone)]
pub struct ClientHandshake {
    pub protocol_version: VarInt,
    pub server_address: String,
    pub server_port: UnsignedShort,
    pub next_state: VarInt,
}

pub struct ClientHandshakeView {
    pub protocol_version: i32,
    pub server_address: Seq<char>,
    pub server_port: u16,
    pub next_state: i32,
}

impl DeepView for ClientHandshake {
    type V = ClientHandshakeView;

    open spec fn deep_view(&self) -> ClientHandshakeView {
        ClientHandshakeView {
            protocol_version: self.protocol_version.deep_view(),
            server_address: self.server_address.deep_view(),
            server_port: self.server_port.deep_view(),
            next_state: self.next_state.deep_view(),
        }
    }
}

impl Packet for ClientHandshake {
    open spec fn spec_id() -> i32 {
        0x00
    }

    open spec fn spec_body(&self) -> Seq<u8> {
        self.protocol_version.spec_encoding() + self.server_address.spec_encoding() + self.server_port.spec_encoding() + self.next_state.spec_encoding()
    }

    open spec fn spec_body_encodable(&self) -> bool {
        self.server_address.spec_encodable()
    }

    open spec fn spec_body_decode(s: Seq<u8>) -> Result<ClientHandshakeView, DecodeError> {
        match VarInt::spec_decode(s) {
            Ok((v1, n1)) => match String::spec_decode(s.skip(n1)) {
                Ok((v2, n2)) => match u16::spec_decode(s.skip(n1 + n2)) {
                    Ok((v3, n3)) => match VarInt::spec_decode(s.skip(n1 + n2 + n3)) {
                        Ok((v4, n4)) => Ok(
                            ClientHandshakeView {
                                protocol_version: v1,
                                server_address: v2,
                                server_port: v3,
                                next_state: v4,
                            },
                        ),
                        Err(e) => Err(e),
                    },
                    Err(e) => Err(e),
                },
                Err(e) => Err(e),
            },
            Err(e) => Err(e),
        }
    }

    fn packet_id() -> (r: VarInt) {
        VarInt(0x00)
    }

    fn from_cursor(reader: &mut ByteCursor) -> (res: Result<Self, DecodeError>) {
        let ghost s = old(reader).suffix();
        let ghost p0 = reader.pos;
        let protocol_version = match VarInt::read_as_mc_type(reader) {
            Ok(v) => v,
            Err(e) => {
                return Err(e);
            },
        };
        proof {
            assert(reader.suffix() =~= s.skip((reader.pos - p0) as int));
        }
        let server_address = match String::read_as_mc_type(reader) {
            Ok(v) => v,
            Err(e) => {
                return Err(e);
            },
        };
        proof {
            assert(reader.suffix() =~= s.skip((reader.pos - p0) as int));
        }
        let server_port = match u16::read_as_mc_type(reader) {
            Ok(v) => v,
            Err(e) => {
                return Err(e);
            },
        };
        proof {
            assert(reader.suffix() =~= s.skip((reader.pos - p0) as int));
        }
        let next_state = match VarInt::read_as_mc_type(reader) {
            Ok(v) => v,
            Err(e) => {
                return Err(e);
            },
        };
        Ok(ClientHandshake { protocol_version, server_address, server_port, next_state })
    }

    fn write_to(&self, writer: &mut Vec<u8>) -> (res: Result<(), EncodeError>) {
        let mut body: Vec<u8> = Vec::new();
        let r1 = self.protocol_version.write_as_mc_type(&mut body);
        proof {
            assert(r1 is Ok);
        }
        match self.server_address.write_as_mc_type(&mut body) {
            Ok(_) => {},
            Err(e) => {
                return Err(e);
            },
        }
        let r3 = self.server_port.write_as_mc_type(&mut body);
        proof {
            assert(r3 is Ok);
        }
        let r4 = self.next_state.write_as_mc_type(&mut body);
        proof {
            assert(r4 is Ok);
        }
        writer.append(&mut body);
        proof {
            let e1 = self.protocol_version.spec_encoding();
            let e2 = self.server_address.spec_encoding();
            let e3 = self.server_port.spec_encoding();
            let e4 = self.next_state.spec_encoding();
            VarInt::lemma_decode_extend(e1, e2 + e3 + e4);
            assert(e1 + (e2 + e3 + e4) =~= self.spec_body());
            assert(self.spec_body().skip((e1.len()) as int) =~= e2 + e3 + e4);
            String::lemma_decode_extend(e2, e3 + e4);
            assert(e2 + (e3 + e4) =~= e2 + e3 + e4);
            assert(self.spec_body().skip((e1.len() + e2.len()) as int) =~= e3 + e4);
            u16::lemma_decode_extend(e3, e4);
            assert(e3 + (e4) =~= e3 + e4);
            assert(self.spec_body().skip((e1.len() + e2.len() + e3.len()) as int) =~= e4);
            assert(final(writer)@ =~= old(writer)@ + self.spec_body());
        }
        Ok(())
    }
}

/// Law: an encodable handshake decodes back from its own body to the
/// same protocol version, address, port and next state.
#[verifier::rlimit(50)]
pub proof fn lemma_handshake_round_trip(hs: &ClientHandshake)
    requires
        hs.spec_body_encodable(),
    ensures
        ClientHandshake::spec_body_decode(hs.spec_body()) == Ok::<
            ClientHandshakeView,
            DecodeError,
        >(hs.deep_view()),
{
    let e1 = hs.protocol_version.spec_encoding();
    let e2 = hs.server_address.spec_encoding();
    let e3 = hs.server_port.spec_encoding();
    let e4 = hs.next_state.spec_encoding();
    lemma_varint_round_trip(hs.protocol_version);
    VarInt::lemma_decode_extend(e1, e2 + e3 + e4);
    assert(e1 + (e2 + e3 + e4) =~= hs.spec_body());
    assert(hs.spec_body().skip(e1.len() as int) =~= e2 + e3 + e4);
    lemma_string_round_trip(hs.server_address@);
    String::lemma_decode_extend(e2, e3 + e4);
    assert(e2 + (e3 + e4) =~= e2 + e3 + e4);
    assert(hs.spec_body().skip((e1.len() + e2.len()) as int) =~= e3 + e4);
    lemma_pow256_concrete();
    lemma_be_round_trip(hs.server_port as nat, 2);
    assert(u16::spec_decode(e3 + e4) == Ok::<(u16, int), DecodeError>((hs.server_port, 2))) by {
        assert((e3 + e4).subrange(0, 2) =~= e3);
        assert(spec_be_val(e3) == hs.server_port as nat);
        lemma_small_mod(hs.server_port as nat, 0x1_0000);
    }
    assert(hs.spec_body().skip((e1.len() + e2.len() + e3.len()) as int) =~= e4);
    lemma_varint_round_trip(hs.next_state);
}

} // verus!
