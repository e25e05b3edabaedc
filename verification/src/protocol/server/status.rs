use vstd::prelude::*;
use crate::protocol::types::{
    ByteCursor, DecodeError, EncodeError, VarInt, MinecraftDataType, Boolean, Long,
    UnsignedShort, UUID,
};
use crate::protocol::Packet;

verus! {

/// Carries the status document as a JSON string.
#[derive(Debug, PartialEq, Eq, Clone)]
pub struct ServerStatusResponsePacket {
    pub json_response: String,
}

pub struct ServerStatusResponsePacketView {
    pub json_response: Seq<char>,
}

impl DeepView for ServerStatusResponsePacket {
    type V = ServerStatusResponsePacketView;

    open spec fn deep_view(&self) -> ServerStatusResponsePacketView {
        ServerStatusResponsePacketView {
            json_response: self.json_response.deep_view(),
        }
    }
}

impl Packet for ServerStatusResponsePacket {
    open spec fn spec_id() -> i32 {
        0x00
    }

    open spec fn spec_body(&self) -> Seq<u8> {
        self.json_response.spec_encoding()
    }

    open spec fn spec_body_encodable(&self) -> bool {
        self.json_response.spec_encodable()
    }

    open spec fn spec_body_decode(s: Seq<u8>) -> Result<ServerStatusResponsePacketView, DecodeError> {
        match String::spec_decode(s) {
            Ok((v1, n1)) => Ok(
                ServerStatusResponsePacketView {
                    json_response: v1,
                },
            ),
            Err(e) => Err(e),
        }
    }

    fn packet_id() -> (r: VarInt) {
        VarInt(0x00)
    }

    fn from_cursor(reader: &mut ByteCursor) -> (res: Result<Self, DecodeError>) {
        let ghost s = old(reader).suffix();
        let ghost p0 = reader.pos;
        let json_response = match String::read_as_mc_type(reader) {
            Ok(v) => v,
            Err(e) => {
                return Err(e);
            },
        };
        Ok(ServerStatusResponsePacket { json_response })
    }

    fn write_to(&self, writer: &mut Vec<u8>) -> (res: Result<(), EncodeError>) {
        let mut body: Vec<u8> = Vec::new();
        match self.json_response.write_as_mc_type(&mut body) {
            Ok(_) => {},
            Err(e) => {
                return Err(e);
            },
        }
        writer.append(&mut body);
        proof {
            let e1 = self.json_response.spec_encoding();
            assert(final(writer)@ =~= old(writer)@ + self.spec_body());
        }
        Ok(())
    }
}

/// Echo of a ping; the payload must equal the one received.
#[derive(Debug, PartialEq, Eq, Clone)]
pub struct ServerStatusPongPacket {
    pub payload: Long,
}

pub struct ServerStatusPongPacketView {
    pub payload: i64,
}

impl DeepView for ServerStatusPongPacket {
    type V = ServerStatusPongPacketView;

    open spec fn deep_view(&self) -> ServerStatusPongPacketView {
        ServerStatusPongPacketView {
            payload: self.payload.deep_view(),
        }
    }
}

impl Packet for ServerStatusPongPacket {
    open spec fn spec_id() -> i32 {
        0x01
    }

    open spec fn spec_body(&self) -> Seq<u8> {
        self.payload.spec_encoding()
    }

    open spec fn spec_body_encodable(&self) -> bool {
        true
    }

    open spec fn spec_body_decode(s: Seq<u8>) -> Result<ServerStatusPongPacketView, DecodeError> {
        match i64::spec_decode(s) {
            Ok((v1, n1)) => Ok(
                ServerStatusPongPacketView {
                    payload: v1,
                },
            ),
            Err(e) => Err(e),
        }
    }

    fn packet_id() -> (r: VarInt) {
        VarInt(0x01)
    }

    fn from_cursor(reader: &mut ByteCursor) -> (res: Result<Self, DecodeError>) {
        let ghost s = old(reader).suffix();
        let ghost p0 = reader.pos;
        let payload = match i64::read_as_mc_type(reader) {
            Ok(v) => v,
            Err(e) => {
                return Err(e);
            },
        };
        Ok(ServerStatusPongPacket { payload })
    }

    fn write_to(&self, writer: &mut Vec<u8>) -> (res: Result<(), EncodeError>) {
        let mut body: Vec<u8> = Vec::new();
        let r1 = self.payload.write_as_mc_type(&mut body);
        proof {
            assert(r1 is Ok);
        }
        writer.append(&mut body);
        proof {
            let e1 = self.payload.spec_encoding();
            assert(final(writer)@ =~= old(writer)@ + self.spec_body());
        }
        Ok(())
    }
}

} // verus!
