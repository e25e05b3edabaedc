use vstd::prelude::*;
use crate::protocol::types::{
    ByteCursor, DecodeError, EncodeError, VarInt, MinecraftDataType, Boolean, Long,
    UnsignedShort, UUID, append_bytes,
};
use crate::protocol::Packet;

verus! {

/// Disconnects a client before login completes; the reason travels as
/// a JSON document in string form.
#[derive(Debug, PartialEq, Eq, Clone)]
pub struct ServerLoginDisconnect {
    pub reason: String,
}

pub struct ServerLoginDisconnectView {
    pub reason: Seq<char>,
}

impl DeepView for ServerLoginDisconnect {
    type V = ServerLoginDisconnectView;

    open spec fn deep_view(&self) -> ServerLoginDisconnectView {
        ServerLoginDisconnectView {
            reason: self.reason.deep_view(),
        }
    }
}

impl Packet for ServerLoginDisconnect {
    open spec fn spec_id() -> i32 {
        0x00
    }

    open spec fn spec_body(&self) -> Seq<u8> {
        self.reason.spec_encoding()
    }

    open spec fn spec_body_encodable(&self) -> bool {
        self.reason.spec_encodable()
    }

    open spec fn spec_body_decode(s: Seq<u8>) -> Result<ServerLoginDisconnectView, DecodeError> {
        match String::spec_decode(s) {
            Ok((v1, n1)) => Ok(
                ServerLoginDisconnectView {
                    reason: v1,
                },
            ),
            Err(e) => Err(e),
        }
    }

    fn packet_id() -> (r: VarInt) {
        VarInt(0x00)
    }

    fn from_cursor(reader: &mut ByteCursor) -> (res: Result<Self, DecodeError>) {
        let ghost s = old(reader).suffix();
        let ghost p0 = reader.pos;
        let reason = match String::read_as_mc_type(reader) {
            Ok(v) => v,
            Err(e) => {
                return Err(e);
            },
        };
        Ok(ServerLoginDisconnect { reason })
    }

    fn write_to(&self, writer: &mut Vec<u8>) -> (res: Result<(), EncodeError>) {
        let mut body: Vec<u8> = Vec::new();
        match self.reason.write_as_mc_type(&mut body) {
            Ok(_) => {},
            Err(e) => {
                return Err(e);
            },
        }
        writer.append(&mut body);
        proof {
            let e1 = self.reason.spec_encoding();
            assert(final(writer)@ =~= old(writer)@ + self.spec_body());
        }
        Ok(())
    }
}

/// The server half of the encryption handshake.
#[derive(Debug, PartialEq, Eq, Clone)]
pub struct ServerLoginEncryptionRequest {
    pub server_id: String,
    pub public_key: Vec<u8>,
    pub verify_token: Vec<u8>,
    pub should_authenticate: Boolean,
}

pub struct ServerLoginEncryptionRequestView {
    pub server_id: Seq<char>,
    pub public_key: Seq<u8>,
    pub verify_token: Seq<u8>,
    pub should_authenticate: bool,
}

impl DeepView for ServerLoginEncryptionRequest {
    type V = ServerLoginEncryptionRequestView;

    open spec fn deep_view(&self) -> ServerLoginEncryptionRequestView {
        ServerLoginEncryptionRequestView {
            server_id: self.server_id.deep_view(),
            public_key: self.public_key.deep_view(),
            verify_token: self.verify_token.deep_view(),
            should_authenticate: self.should_authenticate.deep_view(),
        }
    }
}

impl Packet for ServerLoginEncryptionRequest {
    open spec fn spec_id() -> i32 {
        0x01
    }

    open spec fn spec_body(&self) -> Seq<u8> {
        self.server_id.spec_encoding() + self.public_key.spec_encoding() + self.verify_token.spec_encoding() + self.should_authenticate.spec_encoding()
    }

    open spec fn spec_body_encodable(&self) -> bool {
        self.server_id.spec_encodable() && self.public_key.spec_encodable() && self.verify_token.spec_encodable()
    }

    open spec fn spec_body_decode(s: Seq<u8>) -> Result<ServerLoginEncryptionRequestView, DecodeError> {
        match String::spec_decode(s) {
            Ok((v1, n1)) => match Vec::<u8>::spec_decode(s.skip(n1)) {
                Ok((v2, n2)) => match Vec::<u8>::spec_decode(s.skip(n1 + n2)) {
                    Ok((v3, n3)) => match bool::spec_decode(s.skip(n1 + n2 + n3)) {
                        Ok((v4, n4)) => Ok(
                            ServerLoginEncryptionRequestView {
                                server_id: v1,
                                public_key: v2,
                                verify_token: v3,
                                should_authenticate: v4,
                            },
                        ),
                        Err(e) => Err(e),
                    },
                    Err(e) => Err(e),
                },
                Err(e) => Err(e),
            },
            Err(e) => Err(e),
        }
    }

    fn packet_id() -> (r: VarInt) {
        VarInt(0x01)
    }

    fn from_cursor(reader: &mut ByteCursor) -> (res: Result<Self, DecodeError>) {
        let ghost s = old(reader).suffix();
        let ghost p0 = reader.pos;
        let server_id = match String::read_as_mc_type(reader) {
            Ok(v) => v,
            Err(e) => {
                return Err(e);
            },
        };
        proof {
            assert(reader.suffix() =~= s.skip((reader.pos - p0) as int));
        }
        let public_key = match Vec::<u8>::read_as_mc_type(reader) {
            Ok(v) => v,
            Err(e) => {
                return Err(e);
            },
        };
        proof {
            assert(reader.suffix() =~= s.skip((reader.pos - p0) as int));
        }
        let verify_token = match Vec::<u8>::read_as_mc_type(reader) {
            Ok(v) => v,
            Err(e) => {
                return Err(e);
            },
        };
        proof {
            assert(reader.suffix() =~= s.skip((reader.pos - p0) as int));
        }
        let should_authenticate = match bool::read_as_mc_type(reader) {
            Ok(v) => v,
            Err(e) => {
                return Err(e);
            },
        };
        Ok(ServerLoginEncryptionRequest { server_id, public_key, verify_token, should_authenticate })
    }

    fn write_to(&self, writer: &mut Vec<u8>) -> (res: Result<(), EncodeError>) {
        let mut body: Vec<u8> = Vec::new();
        match self.server_id.write_as_mc_type(&mut body) {
            Ok(_) => {},
            Err(e) => {
                return Err(e);
            },
        }
        match self.public_key.write_as_mc_type(&mut body) {
            Ok(_) => {},
            Err(e) => {
                return Err(e);
            },
        }
        match self.verify_token.write_as_mc_type(&mut body) {
            Ok(_) => {},
            Err(e) => {
                return Err(e);
            },
        }
        let r4 = self.should_authenticate.write_as_mc_type(&mut body);
        proof {
            assert(r4 is Ok);
        }
        writer.append(&mut body);
        proof {
            let e1 = self.server_id.spec_encoding();
            let e2 = self.public_key.spec_encoding();
            let e3 = self.verify_token.spec_encoding();
            let e4 = self.should_authenticate.spec_encoding();
            String::lemma_decode_extend(e1, e2 + e3 + e4);
            assert(e1 + (e2 + e3 + e4) =~= self.spec_body());
            assert(self.spec_body().skip((e1.len()) as int) =~= e2 + e3 + e4);
            Vec::<u8>::lemma_decode_extend(e2, e3 + e4);
            assert(e2 + (e3 + e4) =~= e2 + e3 + e4);
            assert(self.spec_body().skip((e1.len() + e2.len()) as int) =~= e3 + e4);
            Vec::<u8>::lemma_decode_extend(e3, e4);
            assert(e3 + (e4) =~= e3 + e4);
            assert(self.spec_body().skip((e1.len() + e2.len() + e3.len()) as int) =~= e4);
            assert(final(writer)@ =~= old(writer)@ + self.spec_body());
        }
        Ok(())
    }
}

/// Confirms login: the identity the server settled on.
#[derive(Debug, PartialEq, Eq, Clone)]
pub struct ServerLoginSuccess {
    pub uuid: UUID,
    pub username: String,
}

pub struct ServerLoginSuccessView {
    pub uuid: Seq<u8>,
    pub username: Seq<char>,
}

impl DeepView for ServerLoginSuccess {
    type V = ServerLoginSuccessView;

    open spec fn deep_view(&self) -> ServerLoginSuccessView {
        ServerLoginSuccessView {
            uuid: self.uuid.deep_view(),
            username: self.username.deep_view(),
        }
    }
}

impl Packet for ServerLoginSuccess {
    open spec fn spec_id() -> i32 {
        0x02
    }

    open spec fn spec_body(&self) -> Seq<u8> {
        self.uuid.spec_encoding() + self.username.spec_encoding()
    }

    open spec fn spec_body_encodable(&self) -> bool {
        self.uuid.spec_encodable() && self.username.spec_encodable()
    }

    open spec fn spec_body_decode(s: Seq<u8>) -> Result<ServerLoginSuccessView, DecodeError> {
        match UUID::spec_decode(s) {
            Ok((v1, n1)) => match String::spec_decode(s.skip(n1)) {
                Ok((v2, n2)) => Ok(
                    ServerLoginSuccessView {
                        uuid: v1,
                        username: v2,
                    },
                ),
                Err(e) => Err(e),
            },
            Err(e) => Err(e),
        }
    }

    fn packet_id() -> (r: VarInt) {
        VarInt(0x02)
    }

    fn from_cursor(reader: &mut ByteCursor) -> (res: Result<Self, DecodeError>) {
        let ghost s = old(reader).suffix();
        let ghost p0 = reader.pos;
        let uuid = match UUID::read_as_mc_type(reader) {
            Ok(v) => v,
            Err(e) => {
                return Err(e);
            },
        };
        proof {
            assert(reader.suffix() =~= s.skip((reader.pos - p0) as int));
        }
        let username = match String::read_as_mc_type(reader) {
            Ok(v) => v,
            Err(e) => {
                return Err(e);
            },
        };
        Ok(ServerLoginSuccess { uuid, username })
    }

    fn write_to(&self, writer: &mut Vec<u8>) -> (res: Result<(), EncodeError>) {
        let mut body: Vec<u8> = Vec::new();
        match self.uuid.write_as_mc_type(&mut body) {
            Ok(_) => {},
            Err(e) => {
                return Err(e);
            },
        }
        match self.username.write_as_mc_type(&mut body) {
            Ok(_) => {},
            Err(e) => {
                return Err(e);
            },
        }
        writer.append(&mut body);
        proof {
            let e1 = self.uuid.spec_encoding();
            let e2 = self.username.spec_encoding();
            UUID::lemma_decode_extend(e1, e2);
            assert(e1 + (e2) =~= self.spec_body());
            assert(self.spec_body().skip((e1.len()) as int) =~= e2);
            assert(final(writer)@ =~= old(writer)@ + self.spec_body());
        }
        Ok(())
    }
}

/// Asks the client to answer on a named channel; the rest of the body
/// is the raw request, with no length of its own.
#[derive(Debug, PartialEq, Eq, Clone)]
pub struct ServerLoginPluginRequest {
    pub message_id: VarInt,
    pub channel: String,
    pub data: Vec<u8>,
}

pub struct ServerLoginPluginRequestView {
    pub message_id: i32,
    pub channel: Seq<char>,
    pub data: Seq<u8>,
}

impl DeepView for ServerLoginPluginRequest {
    type V = ServerLoginPluginRequestView;

    open spec fn deep_view(&self) -> ServerLoginPluginRequestView {
        ServerLoginPluginRequestView {
            message_id: self.message_id.deep_view(),
            channel: self.channel@,
            data: self.data@,
        }
    }
}

impl Packet for ServerLoginPluginRequest {
    open spec fn spec_id() -> i32 {
        0x04
    }

    open spec fn spec_body(&self) -> Seq<u8> {
        self.message_id.spec_encoding() + self.channel.spec_encoding() + self.data@
    }

    open spec fn spec_body_encodable(&self) -> bool {
        self.channel.spec_encodable()
    }

    open spec fn spec_body_decode(s: Seq<u8>) -> Result<ServerLoginPluginRequestView, DecodeError> {
        match VarInt::spec_decode(s) {
            Ok((v1, n1)) => {
                match String::spec_decode(s.skip(n1)) {
                    Ok((v2, n2)) => Ok(
                        ServerLoginPluginRequestView {
                            message_id: v1,
                            channel: v2,
                            data: s.skip(n1 + n2),
                        },
                    ),
                    Err(e) => Err(e),
                }
            },
            Err(e) => Err(e),
        }
    }

    fn packet_id() -> (r: VarInt) {
        VarInt(0x04)
    }

    fn from_cursor(reader: &mut ByteCursor) -> (res: Result<Self, DecodeError>) {
        let ghost s = old(reader).suffix();
        let ghost p0 = reader.pos;
        let message_id = match VarInt::read_as_mc_type(reader) {
            Ok(v) => v,
            Err(e) => {
                return Err(e);
            },
        };
        proof {
            assert(reader.suffix() =~= s.skip((reader.pos - p0) as int));
        }
        let channel = match String::read_as_mc_type(reader) {
            Ok(v) => v,
            Err(e) => {
                return Err(e);
            },
        };
        proof {
            assert(reader.suffix() =~= s.skip((reader.pos - p0) as int));
        }
        let ghost pre = reader.suffix();
        let rest = reader.remaining();
        let data = match reader.take_bytes(rest) {
            Ok(d) => d,
            Err(e) => {
                return Err(e);
            },
        };
        proof {
            assert(data@ =~= pre);
        }
        Ok(ServerLoginPluginRequest { message_id, channel, data })
    }

    fn write_to(&self, writer: &mut Vec<u8>) -> (res: Result<(), EncodeError>) {
        let mut body: Vec<u8> = Vec::new();
        let r1 = self.message_id.write_as_mc_type(&mut body);
        proof {
            assert(r1 is Ok);
        }
        match self.channel.write_as_mc_type(&mut body) {
            Ok(_) => {},
            Err(e) => {
                return Err(e);
            },
        }
        append_bytes(&mut body, &self.data);
        writer.append(&mut body);
        proof {
            let e1 = self.message_id.spec_encoding();
            let e2 = self.channel.spec_encoding();
            let e3 = self.data@;
            VarInt::lemma_decode_extend(e1, e2 + e3);
            assert(e1 + (e2 + e3) =~= self.spec_body());
            assert(self.spec_body().skip(e1.len() as int) =~= e2 + e3);
            String::lemma_decode_extend(e2, e3);
            assert(self.spec_body().skip((e1.len() + e2.len()) as int) =~= e3);
            assert(final(writer)@ =~= old(writer)@ + self.spec_body());
        }
        Ok(())
    }
}

/// Enables compression for packets at least as large as the threshold.
#[derive(Debug, PartialEq, Eq, Clone)]
pub struct ServerLoginSetCompression {
    pub threshold: VarInt,
}

pub struct ServerLoginSetCompressionView {
    pub threshold: i32,
}

impl DeepView for ServerLoginSetCompression {
    type V = ServerLoginSetCompressionView;

    open spec fn deep_view(&self) -> ServerLoginSetCompressionView {
        ServerLoginSetCompressionView {
            threshold: self.threshold.deep_view(),
        }
    }
}

impl Packet for ServerLoginSetCompression {
    open spec fn spec_id() -> i32 {
        0x03
    }

    open spec fn spec_body(&self) -> Seq<u8> {
        self.threshold.spec_encoding()
    }

    open spec fn spec_body_encodable(&self) -> bool {
        true
    }

    open spec fn spec_body_decode(s: Seq<u8>) -> Result<ServerLoginSetCompressionView, DecodeError> {
        match VarInt::spec_decode(s) {
            Ok((v1, n1)) => Ok(
                ServerLoginSetCompressionView {
                    threshold: v1,
                },
            ),
            Err(e) => Err(e),
        }
    }

    fn packet_id() -> (r: VarInt) {
        VarInt(0x03)
    }

    fn from_cursor(reader: &mut ByteCursor) -> (res: Result<Self, DecodeError>) {
        let ghost s = old(reader).suffix();
        let ghost p0 = reader.pos;
        let threshold = match VarInt::read_as_mc_type(reader) {
            Ok(v) => v,
            Err(e) => {
                return Err(e);
            },
        };
        Ok(ServerLoginSetCompression { threshold })
    }

    fn write_to(&self, writer: &mut Vec<u8>) -> (res: Result<(), EncodeError>) {
        let mut body: Vec<u8> = Vec::new();
        let r1 = self.threshold.write_as_mc_type(&mut body);
        proof {
            assert(r1 is Ok);
        }
        writer.append(&mut body);
        proof {
            let e1 = self.threshold.spec_encoding();
            assert(final(writer)@ =~= old(writer)@ + self.spec_body());
        }
        Ok(())
    }
}

} // verus!
