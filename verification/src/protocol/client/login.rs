use vstd::prelude::*;
use crate::protocol::types::{
    ByteCursor, DecodeError, EncodeError, VarInt, MinecraftDataType, Boolean, Long,
    UnsignedShort, UUID, append_bytes,
};
use crate::protocol::Packet;

verus! {

/// Opens the login phase in the current format: a username and a
/// 16-byte UUID.
#[derive(Debug, PartialEq, Eq, Clone)]
pub struct ClientLoginStart {
    pub username: String,
    pub uuid: UUID,
}

pub struct ClientLoginStartView {
    pub username: Seq<char>,
    pub uuid: Seq<u8>,
}

impl DeepView for ClientLoginStart {
    type V = ClientLoginStartView;

    open spec fn deep_view(&self) -> ClientLoginStartView {
        ClientLoginStartView {
            username: self.username.deep_view(),
            uuid: self.uuid.deep_view(),
        }
    }
}

impl Packet for ClientLoginStart {
    open spec fn spec_id() -> i32 {
        0x00
    }

    open spec fn spec_body(&self) -> Seq<u8> {
        self.username.spec_encoding() + self.uuid.spec_encoding()
    }

    open spec fn spec_body_encodable(&self) -> bool {
        self.username.spec_encodable() && self.uuid.spec_encodable()
    }

    open spec fn spec_body_decode(s: Seq<u8>) -> Result<ClientLoginStartView, DecodeError> {
        match String::spec_decode(s) {
            Ok((v1, n1)) => match UUID::spec_decode(s.skip(n1)) {
                Ok((v2, n2)) => Ok(
                    ClientLoginStartView {
                        username: v1,
                        uuid: v2,
                    },
                ),
                Err(e) => Err(e),
            },
            Err(e) => Err(e),
        }
    }

    fn packet_id() -> (r: VarInt) {
        VarInt(0x00)
    }

    fn from_cursor(reader: &mut ByteCursor) -> (res: Result<Self, DecodeError>) {
        let ghost s = old(reader).suffix();
        let ghost p0 = reader.pos;
        let username = match String::read_as_mc_type(reader) {
            Ok(v) => v,
            Err(e) => {
                return Err(e);
            },
        };
        proof {
            assert(reader.suffix() =~= s.skip((reader.pos - p0) as int));
        }
        let uuid = match UUID::read_as_mc_type(reader) {
            Ok(v) => v,
            Err(e) => {
                return Err(e);
            },
        };
        Ok(ClientLoginStart { username, uuid })
    }

    fn write_to(&self, writer: &mut Vec<u8>) -> (res: Result<(), EncodeError>) {
        let mut body: Vec<u8> = Vec::new();
        match self.username.write_as_mc_type(&mut body) {
            Ok(_) => {},
            Err(e) => {
                return Err(e);
            },
        }
        match self.uuid.write_as_mc_type(&mut body) {
            Ok(_) => {},
            Err(e) => {
                return Err(e);
            },
        }
        writer.append(&mut body);
        proof {
            let e1 = self.username.spec_encoding();
            let e2 = self.uuid.spec_encoding();
            String::lemma_decode_extend(e1, e2);
            assert(e1 + (e2) =~= self.spec_body());
            assert(self.spec_body().skip((e1.len()) as int) =~= e2);
            assert(final(writer)@ =~= old(writer)@ + self.spec_body());
        }
        Ok(())
    }
}

/// Opens the login phase in the legacy format: a username only.
#[derive(Debug, PartialEq, Eq, Clone)]
pub struct ClientLoginStartOnlyName {
    pub username: String,
}

pub struct ClientLoginStartOnlyNameView {
    pub username: Seq<char>,
}

impl DeepView for ClientLoginStartOnlyName {
    type V = ClientLoginStartOnlyNameView;

    open spec fn deep_view(&self) -> ClientLoginStartOnlyNameView {
        ClientLoginStartOnlyNameView {
            username: self.username.deep_view(),
        }
    }
}

impl Packet for ClientLoginStartOnlyName {
    open spec fn spec_id() -> i32 {
        0x00
    }

    open spec fn spec_body(&self) -> Seq<u8> {
        self.username.spec_encoding()
    }

    open spec fn spec_body_encodable(&self) -> bool {
        self.username.spec_encodable()
    }

    open spec fn spec_body_decode(s: Seq<u8>) -> Result<ClientLoginStartOnlyNameView, DecodeError> {
        match String::spec_decode(s) {
            Ok((v1, n1)) => Ok(
                ClientLoginStartOnlyNameView {
                    username: v1,
                },
            ),
            Err(e) => Err(e),
        }
    }

    fn packet_id() -> (r: VarInt) {
        VarInt(0x00)
    }

    fn from_cursor(reader: &mut ByteCursor) -> (res: Result<Self, DecodeError>) {
        let ghost s = old(reader).suffix();
        let ghost p0 = reader.pos;
        let username = match String::read_as_mc_type(reader) {
            Ok(v) => v,
            Err(e) => {
                return Err(e);
            },
        };
        Ok(ClientLoginStartOnlyName { username })
    }

    fn write_to(&self, writer: &mut Vec<u8>) -> (res: Result<(), EncodeError>) {
        let mut body: Vec<u8> = Vec::new();
        match self.username.write_as_mc_type(&mut body) {
            Ok(_) => {},
            Err(e) => {
                return Err(e);
            },
        }
        writer.append(&mut body);
        proof {
            let e1 = self.username.spec_encoding();
            assert(final(writer)@ =~= old(writer)@ + self.spec_body());
        }
        Ok(())
    }
}

/// The client half of the encryption handshake.
#[derive(Debug, PartialEq, Eq, Clone)]
pub struct ClientLoginEncryptionResponse {
    pub shared_secret: Vec<u8>,
    pub verify_token: Vec<u8>,
}

pub struct ClientLoginEncryptionResponseView {
    pub shared_secret: Seq<u8>,
    pub verify_token: Seq<u8>,
}

impl DeepView for ClientLoginEncryptionResponse {
    type V = ClientLoginEncryptionResponseView;

    open spec fn deep_view(&self) -> ClientLoginEncryptionResponseView {
        ClientLoginEncryptionResponseView {
            shared_secret: self.shared_secret.deep_view(),
            verify_token: self.verify_token.deep_view(),
        }
    }
}

impl Packet for ClientLoginEncryptionResponse {
    open spec fn spec_id() -> i32 {
        0x01
    }

    open spec fn spec_body(&self) -> Seq<u8> {
        self.shared_secret.spec_encoding() + self.verify_token.spec_encoding()
    }

    open spec fn spec_body_encodable(&self) -> bool {
        self.shared_secret.spec_encodable() && self.verify_token.spec_encodable()
    }

    open spec fn spec_body_decode(s: Seq<u8>) -> Result<ClientLoginEncryptionResponseView, DecodeError> {
        match Vec::<u8>::spec_decode(s) {
            Ok((v1, n1)) => match Vec::<u8>::spec_decode(s.skip(n1)) {
                Ok((v2, n2)) => Ok(
                    ClientLoginEncryptionResponseView {
                        shared_secret: v1,
                        verify_token: v2,
                    },
                ),
                Err(e) => Err(e),
            },
            Err(e) => Err(e),
        }
    }

    fn packet_id() -> (r: VarInt) {
        VarInt(0x01)
    }

    fn from_cursor(reader: &mut ByteCursor) -> (res: Result<Self, DecodeError>) {
        let ghost s = old(reader).suffix();
        let ghost p0 = reader.pos;
        let shared_secret = match Vec::<u8>::read_as_mc_type(reader) {
            Ok(v) => v,
            Err(e) => {
                return Err(e);
            },
        };
        proof {
            assert(reader.suffix() =~= s.skip((reader.pos - p0) as int));
        }
        let verify_token = match Vec::<u8>::read_as_mc_type(reader) {
            Ok(v) => v,
            Err(e) => {
                return Err(e);
            },
        };
        Ok(ClientLoginEncryptionResponse { shared_secret, verify_token })
    }

    fn write_to(&self, writer: &mut Vec<u8>) -> (res: Result<(), EncodeError>) {
        let mut body: Vec<u8> = Vec::new();
        match self.shared_secret.write_as_mc_type(&mut body) {
            Ok(_) => {},
            Err(e) => {
                return Err(e);
            },
        }
        match self.verify_token.write_as_mc_type(&mut body) {
            Ok(_) => {},
            Err(e) => {
                return Err(e);
            },
        }
        writer.append(&mut body);
        proof {
            let e1 = self.shared_secret.spec_encoding();
            let e2 = self.verify_token.spec_encoding();
            Vec::<u8>::lemma_decode_extend(e1, e2);
            assert(e1 + (e2) =~= self.spec_body());
            assert(self.spec_body().skip((e1.len()) as int) =~= e2);
            assert(final(writer)@ =~= old(writer)@ + self.spec_body());
        }
        Ok(())
    }
}

/// Answers a login-phase plugin request; on success the rest of the
/// body is the raw answer, with no length of its own.
#[derive(Debug, PartialEq, Eq, Clone)]
pub struct ClientLoginPluginResponse {
    pub message_id: VarInt,
    pub successful: Boolean,
    pub data: Option<Vec<u8>>,
}

pub struct ClientLoginPluginResponseView {
    pub message_id: i32,
    pub successful: bool,
    pub data: Option<Seq<u8>>,
}

impl DeepView for ClientLoginPluginResponse {
    type V = ClientLoginPluginResponseView;

    open spec fn deep_view(&self) -> ClientLoginPluginResponseView {
        ClientLoginPluginResponseView {
            message_id: self.message_id.deep_view(),
            successful: self.successful,
            data: match self.data {
                Some(ref d) => Some(d@),
                None => None,
            },
        }
    }
}

impl Packet for ClientLoginPluginResponse {
    open spec fn spec_id() -> i32 {
        0x02
    }

    open spec fn spec_body(&self) -> Seq<u8> {
        self.message_id.spec_encoding() + self.successful.spec_encoding() + (match self.data {
            Some(ref d) => d@,
            None => Seq::empty(),
        })
    }

    open spec fn spec_body_encodable(&self) -> bool {
        self.successful <==> self.data is Some
    }

    open spec fn spec_body_decode(s: Seq<u8>) -> Result<ClientLoginPluginResponseView, DecodeError> {
        match VarInt::spec_decode(s) {
            Ok((v1, n1)) => {
                match bool::spec_decode(s.skip(n1)) {
                    Ok((v2, n2)) => {
                        if v2 {
                            Ok(
                                ClientLoginPluginResponseView {
                                    message_id: v1,
                                    successful: v2,
                                    data: Some(s.skip(n1 + n2)),
                                },
                            )
                        } else {
                            Ok(
                                ClientLoginPluginResponseView {
                                    message_id: v1,
                                    successful: v2,
                                    data: None,
                                },
                            )
                        }
                    },
                    Err(e) => Err(e),
                }
            },
            Err(e) => Err(e),
        }
    }

    fn packet_id() -> (r: VarInt) {
        VarInt(0x02)
    }

    fn from_cursor(reader: &mut ByteCursor) -> (res: Result<Self, DecodeError>) {
        let ghost s = old(reader).suffix();
        let ghost p0 = reader.pos;
        let message_id = match VarInt::read_as_mc_type(reader) {
            Ok(v) => v,
            Err(e) => {
                return Err(e);
            },
        };
        proof {
            assert(reader.suffix() =~= s.skip((reader.pos - p0) as int));
        }
        let successful = match bool::read_as_mc_type(reader) {
            Ok(v) => v,
            Err(e) => {
                return Err(e);
            },
        };
        proof {
            assert(reader.suffix() =~= s.skip((reader.pos - p0) as int));
        }
        let data = if successful {
            let ghost pre = reader.suffix();
            let rest = reader.remaining();
            match reader.take_bytes(rest) {
                Ok(d) => {
                    proof {
                        assert(d@ =~= pre);
                    }
                    Some(d)
                },
                Err(_) => None,
            }
        } else {
            None
        };
        Ok(ClientLoginPluginResponse { message_id, successful, data })
    }

    fn write_to(&self, writer: &mut Vec<u8>) -> (res: Result<(), EncodeError>) {
        match self.data {
            Some(_) => {
                if !self.successful {
                    return Err(EncodeError::MalformedValue);
                }
            },
            None => {
                if self.successful {
                    return Err(EncodeError::MalformedValue);
                }
            },
        }
        let mut body: Vec<u8> = Vec::new();
        let r1 = self.message_id.write_as_mc_type(&mut body);
        proof {
            assert(r1 is Ok);
        }
        let r2 = self.successful.write_as_mc_type(&mut body);
        proof {
            assert(r2 is Ok);
        }
        if let Some(data) = &self.data {
            append_bytes(&mut body, data);
        }
        writer.append(&mut body);
        proof {
            let e1 = self.message_id.spec_encoding();
            let e2 = self.successful.spec_encoding();
            let e3 = (match self.data {
                Some(ref d) => d@,
                None => Seq::<u8>::empty(),
            });
            VarInt::lemma_decode_extend(e1, e2 + e3);
            assert(e1 + (e2 + e3) =~= self.spec_body());
            assert(self.spec_body().skip(e1.len() as int) =~= e2 + e3);
            bool::lemma_decode_extend(e2, e3);
            assert(self.spec_body().skip((e1.len() + e2.len()) as int) =~= e3);
            assert(final(writer)@ =~= old(writer)@ + self.spec_body());
        }
        Ok(())
    }
}

/// Acknowledges login success; after it the connection leaves the
/// login phase.
#[derive(Debug, PartialEq, Eq, Clone)]
pub struct ClientLoginAcknowledged {
}

impl DeepView for ClientLoginAcknowledged {
    type V = ClientLoginAcknowledged;

    open spec fn deep_view(&self) -> ClientLoginAcknowledged {
        ClientLoginAcknowledged {}
    }
}

impl Packet for ClientLoginAcknowledged {
    open spec fn spec_id() -> i32 {
        0x03
    }

    open spec fn spec_body(&self) -> Seq<u8> {
        Seq::empty()
    }

    open spec fn spec_body_encodable(&self) -> bool {
        true
    }

    open spec fn spec_body_decode(s: Seq<u8>) -> Result<ClientLoginAcknowledged, DecodeError> {
        Ok(ClientLoginAcknowledged {})
    }

    fn packet_id() -> (r: VarInt) {
        VarInt(0x03)
    }

    fn from_cursor(reader: &mut ByteCursor) -> (res: Result<Self, DecodeError>) {
        Ok(ClientLoginAcknowledged {})
    }

    fn write_to(&self, writer: &mut Vec<u8>) -> (res: Result<(), EncodeError>) {
        proof {
            assert(old(writer)@ + self.spec_body() =~= old(writer)@);
        }
        Ok(())
    }
}

} // verus!
