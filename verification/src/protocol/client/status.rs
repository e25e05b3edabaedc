use vstd::prelude::*;
use crate::protocol::types::{
    ByteCursor, DecodeError, EncodeError, VarInt, MinecraftDataType, Boolean, Long,
    UnsignedShort, UUID,
};
use crate::protocol::Packet;

verus! {

/// Asks the server for its status document; the body is empty.
#[derive(Debug, PartialEq, Eq, Clone)]
pub struct ClientStatusRequest {
}

impl DeepView for ClientStatusRequest {
    type V = ClientStatusRequest;

    open spec fn deep_view(&self) -> ClientStatusRequest {
        ClientStatusRequest {}
    }
}

impl Packet for ClientStatusRequest {
    open spec fn spec_id() -> i32 {
        0x00
    }

    open spec fn spec_body(&self) -> Seq<u8> {
        Seq::empty()
    }

    open spec fn spec_body_encodable(&self) -> bool {
        true
    }

    open spec fn spec_body_decode(s: Seq<u8>) -> Result<ClientStatusRequest, DecodeError> {
        Ok(ClientStatusRequest {})
    }

    fn packet_id() -> (r: VarInt) {
        VarInt(0x00)
    }

    fn from_cursor(reader: &mut ByteCursor) -> (res: Result<Self, DecodeError>) {
        Ok(ClientStatusRequest {})
    }

    fn write_to(&self, writer: &mut Vec<u8>) -> (res: Result<(), EncodeError>) {
        proof {
            assert(old(writer)@ + self.spec_body() =~= old(writer)@);
        }
        Ok(())
    }
}

/// A ping with an opaque payload the server must echo back.
#[derive(Debug, PartialEq, Eq, Clone)]
pub struct ClientStatusPing {
    pub payload: Long,
}

pub struct ClientStatusPingView {
    pub payload: i64,
}

impl DeepView for ClientStatusPing {
    type V = ClientStatusPingView;

    open spec fn deep_view(&self) -> ClientStatusPingView {
        ClientStatusPingView {
            payload: self.payload.deep_view(),
        }
    }
}

impl Packet for ClientStatusPing {
    open spec fn spec_id() -> i32 {
        0x01
    }

    open spec fn spec_body(&self) -> Seq<u8> {
        self.payload.spec_encoding()
    }

    open spec fn spec_body_encodable(&self) -> bool {
        true
    }

    open spec fn spec_body_decode(s: Seq<u8>) -> Result<ClientStatusPingView, DecodeError> {
        match i64::spec_decode(s) {
            Ok((v1, n1)) => Ok(
                ClientStatusPingView {
                    payload: v1,
                },
            ),
            Err(e) => Err(e),
        }
    }

    fn packet_id() -> (r: VarInt) {
        VarInt(0x01)
    }

    fn from_cursor(reader: &mut ByteCursor) -> (res: Result<Self, DecodeError>) {
        let ghost s = old(reader).suffix();
        let ghost p0 = reader.pos;
        let payload = match i64::read_as_mc_type(reader) {
            Ok(v) => v,
            Err(e) => {
                return Err(e);
            },
        };
        Ok(ClientStatusPing { payload })
    }

    fn write_to(&self, writer: &mut Vec<u8>) -> (res: Result<(), EncodeError>) {
        let mut body: Vec<u8> = Vec::new();
        let r1 = self.payload.write_as_mc_type(&mut body);
        proof {
            assert(r1 is Ok);
        }
        writer.append(&mut body);
        proof {
            let e1 = self.payload.spec_encoding();
            assert(final(writer)@ =~= old(writer)@ + self.spec_body());
        }
        Ok(())
    }
}

} // verus!
