use vstd::prelude::*;
use vstd::string::StringExecFns;
use crate::protocol::types::{DecodeError, EncodeError, VarInt, UUID, spec_var_enc, spec_i32_bits};
use crate::protocol::client::handshake::ClientHandshake;
use crate::protocol::client::login::{ClientLoginStart, ClientLoginStartOnlyName};
use crate::protocol::client::status::ClientStatusPing;
use crate::protocol::server::status::ServerStatusPongPacket;
use crate::protocol::{Packet, spec_frame_bytes, spec_raw_frame_bytes, write_with_header_to, write_raw_packet};
use crate::protocol::types::ByteCursor;
use crate::json::{JsonValue, StatusRewriteError, spec_json_parse, spec_json_render, spec_status_rewritten, spec_rewrite_error, json_parse, json_render, rewrite_description};
use crate::text::{status_suffix, spec_status_suffix};

verus! {

// The per-connection decisions: which phase a handshake selects, what
// the forwarded handshake holds, how the first login frame is parsed
// and re-emitted, and how the status document is rewritten. The
// sockets that carry the results live with the caller.

/// What the client asked for in its handshake.
#[derive(Debug, PartialEq, Eq, Structural, Clone, Copy)]
pub enum NextPhase {
    Status,
    Login,
}

/// Why the connection handler gave up on a connection.
#[derive(Debug, PartialEq, Eq, Structural, Clone, Copy)]
pub enum HandlerError {
    /// The handshake asked for a phase other than status or login.
    UnsupportedNextState { requested: i32 },
    /// The target's status response was not a JSON document.
    StatusNotJson,
    /// The status document could not carry the suffix.
    StatusShape { inner: StatusRewriteError },
}

/// Decides the phase from the handshake: 1 selects status, 2 selects
/// login, anything else is a protocol error.
pub fn dispatch_next_state(hs: &ClientHandshake) -> (res: Result<NextPhase, HandlerError>)
    ensures
        hs.next_state.0 == 1 ==> res == Ok::<NextPhase, HandlerError>(NextPhase::Status),
        hs.next_state.0 == 2 ==> res == Ok::<NextPhase, HandlerError>(NextPhase::Login),
        hs.next_state.0 != 1 && hs.next_state.0 != 2 ==> res == Err::<NextPhase, HandlerError>(
            HandlerError::UnsupportedNextState { requested: hs.next_state.0 },
        ),
{
    if hs.next_state.0 == 1 {
        Ok(NextPhase::Status)
    } else if hs.next_state.0 == 2 {
        Ok(NextPhase::Login)
    } else {
        Err(HandlerError::UnsupportedNextState { requested: hs.next_state.0 })
    }
}

/// Builds the handshake sent onward to the target: the client's
/// protocol version is kept, the advertised host and port are the
/// alias values when configured and the real target values otherwise,
/// and the next state is the caller's choice.
pub fn build_forward_handshake(
    original: &ClientHandshake,
    target_host: &String,
    target_port: u16,
    alias_host: &Option<String>,
    alias_port: &Option<u16>,
    next_state: VarInt,
) -> (r: ClientHandshake)
    ensures
        r.protocol_version == original.protocol_version,
        r.next_state == next_state,
        r.server_address@ == (match alias_host {
            Some(h) => h@,
            None => target_host@,
        }),
        r.server_port == (match alias_port {
            Some(p) => *p,
            None => target_port,
        }),
{
    let server_address = match alias_host {
        Some(h) => h.clone(),
        None => target_host.clone(),
    };
    let server_port = match alias_port {
        Some(p) => *p,
        None => target_port,
    };
    ClientHandshake {
        protocol_version: original.protocol_version,
        server_address,
        server_port,
        next_state,
    }
}

/// Who the client claims to be, from its first login frame.
#[derive(Debug, PartialEq, Eq, Clone)]
pub struct LoginIdentity {
    pub username: String,
    pub uuid: Option<UUID>,
}

/// Parses the first login-phase payload: the current format with a
/// UUID is tried first, and only on its failure the legacy
/// name-only format; only both failing is an error. The raw payload
/// stays with the caller for verbatim forwarding.
pub fn parse_login_start(payload: Vec<u8>) -> (res: Result<LoginIdentity, DecodeError>)
    ensures
        match ClientLoginStart::spec_body_decode(payload@) {
            Ok(v) => res matches Ok(id) && id.username@ == v.username && (id.uuid matches Some(u)
                && u.bytes@ == v.uuid),
            Err(_) => match ClientLoginStartOnlyName::spec_body_decode(payload@) {
                Ok(v) => res matches Ok(id) && id.username@ == v.username && id.uuid is None,
                Err(e) => res == Err::<LoginIdentity, DecodeError>(e),
            },
        },
{
    let mut cursor = ByteCursor::new(payload);
    proof {
        assert(cursor.suffix() =~= cursor.data@);
    }
    match ClientLoginStart::from_cursor(&mut cursor) {
        Ok(start) => Ok(LoginIdentity { username: start.username, uuid: Some(start.uuid) }),
        Err(_) => {
            let payload = cursor.into_inner();
            let mut cursor = ByteCursor::new(payload);
            proof {
                assert(cursor.suffix() =~= cursor.data@);
            }
            match ClientLoginStartOnlyName::from_cursor(&mut cursor) {
                Ok(start) => Ok(LoginIdentity { username: start.username, uuid: None }),
                Err(e) => Err(e),
            }
        },
    }
}

/// Builds the single buffer written to the target when login begins:
/// the forwarded handshake frame followed by the client's first login
/// frame re-emitted byte for byte. Sending both in one write defeats
/// middleboxes that key on packet timing at the transport layer.
pub fn build_initial_login_buffer(
    forward: &ClientHandshake,
    login_id: VarInt,
    payload: &Vec<u8>,
) -> (res: Result<Vec<u8>, EncodeError>)
    ensures
        match res {
            Ok(buf) => buf@ == spec_frame_bytes(forward) + spec_raw_frame_bytes(
                login_id.0,
                payload@,
            ),
            Err(_) => !forward.spec_body_encodable() || spec_var_enc(
                spec_i32_bits(<ClientHandshake as Packet>::spec_id()) as nat,
            ).len() + forward.spec_body().len() > 0x7fff_ffff - 5 || spec_var_enc(
                spec_i32_bits(login_id.0) as nat,
            ).len() + payload@.len() > 0x7fff_ffff - 5,
        },
{
    let mut buf: Vec<u8> = Vec::new();
    match write_with_header_to(forward, &mut buf) {
        Ok(_) => {},
        Err(e) => {
            return Err(e);
        },
    }
    match write_raw_packet(&mut buf, login_id, payload) {
        Ok(_) => {},
        Err(e) => {
            return Err(e);
        },
    }
    proof {
        assert(buf@ =~= spec_frame_bytes(forward) + spec_raw_frame_bytes(login_id.0, payload@));
    }
    Ok(buf)
}

/// The JSON reason sent with a login disconnect: one object holding a
/// `text` member that names the proxy and carries the message.
pub fn make_disconnect_reason(message: &str) -> (r: JsonValue)
    ensures
        r matches JsonValue::Object(fields) && fields@.len() == 1 && fields@[0].0@ == "text"@ && (
        fields@[0].1 matches JsonValue::Str(t) && t@ == "StupidMCProxy Error: "@ + message@),
{
    let mut text = String::from_str("StupidMCProxy Error: ");
    text.append(message);
    let mut fields: Vec<(String, JsonValue)> = Vec::new();
    fields.push((String::from_str("text"), JsonValue::Str(text)));
    JsonValue::Object(fields)
}

/// The shape `make_disconnect_reason` promises: one `text` member
/// naming the proxy and carrying the message.
pub open spec fn spec_disconnect_reason_shape(r: JsonValue, message: Seq<char>) -> bool {
    &&& r matches JsonValue::Object(fields)
    &&& r->Object_0@.len() == 1
    &&& r->Object_0@[0].0@ == "text"@
    &&& r->Object_0@[0].1 matches JsonValue::Str(t) && t@ == "StupidMCProxy Error: "@ + message
}

/// The JSON text of a disconnect reason, ready for the wire.
pub fn render_disconnect_reason(message: &str) -> (r: String)
    ensures
        exists|reason: JsonValue|
            #[trigger] spec_disconnect_reason_shape(reason, message@) && r@ == spec_json_render(
                reason,
            ),
{
    let reason = make_disconnect_reason(message);
    let ghost reason_witness = reason;
    let text = json_render(reason);
    proof {
        assert(spec_disconnect_reason_shape(reason_witness, message@));
    }
    text
}

/// Rewrites the target's status text for the client: the document is
/// parsed, the measured ping is rendered into the proxy's suffix, the
/// suffix is appended to the description, and the document printed
/// again. Every failure is the exact one the parse or the rewrite
/// assigns.
pub fn rewrite_status_response(json_text: &str, ping_ms: u64) -> (res: Result<
    String,
    HandlerError,
>)
    ensures
        match spec_json_parse(json_text@) {
            None => res == Err::<String, HandlerError>(HandlerError::StatusNotJson),
            Some(doc) => match res {
                Ok(out) => exists|nd: JsonValue|
                    #[trigger] spec_status_rewritten(doc, nd, spec_status_suffix(ping_ms as nat))
                        && out@ == spec_json_render(nd),
                Err(e) => e matches HandlerError::StatusShape { inner } && spec_rewrite_error(
                    doc,
                    inner,
                ),
            },
        },
{
    let doc = match json_parse(json_text) {
        Some(doc) => doc,
        None => {
            return Err(HandlerError::StatusNotJson);
        },
    };
    let suffix = status_suffix(ping_ms);
    let rewritten = match rewrite_description(doc, suffix.as_str()) {
        Ok(nd) => nd,
        Err(e) => {
            return Err(HandlerError::StatusShape { inner: e });
        },
    };
    let ghost nd_witness = rewritten;
    let out = json_render(rewritten);
    proof {
        assert(spec_status_rewritten(
            spec_json_parse(json_text@)->Some_0,
            nd_witness,
            spec_status_suffix(ping_ms as nat),
        ));
    }
    Ok(out)
}

/// The pong answering a ping: the payload comes back unchanged.
pub fn make_pong(ping: &ClientStatusPing) -> (r: ServerStatusPongPacket)
    ensures
        r.payload == ping.payload,
{
    ServerStatusPongPacket { payload: ping.payload }
}

// ---------------------------------------------------------------------
// The connection-phase ladder of a session. Phases only ever move
// forward; a failure at any point leaves the ladder for `Closed`.

#[derive(Debug, PartialEq, Eq, Structural, Clone, Copy)]
pub enum ConnectionPhase {
    AwaitHandshake,
    StatusRequest,
    StatusQuery,
    StatusPing,
    StatusPong,
    LoginResolve,
    LoginAllocateSource,
    LoginConnectTarget,
    LoginForwardHandshake,
    LoginInterceptStart,
    LoginForwardFirst,
    Relay,
    Closed,
}

/// How far along a session is; successors always rank higher.
pub open spec fn spec_phase_rank(p: ConnectionPhase) -> nat {
    match p {
        ConnectionPhase::AwaitHandshake => 0,
        ConnectionPhase::StatusRequest => 1,
        ConnectionPhase::StatusQuery => 2,
        ConnectionPhase::StatusPing => 3,
        ConnectionPhase::StatusPong => 4,
        ConnectionPhase::LoginResolve => 1,
        ConnectionPhase::LoginAllocateSource => 2,
        ConnectionPhase::LoginConnectTarget => 3,
        ConnectionPhase::LoginForwardHandshake => 4,
        ConnectionPhase::LoginInterceptStart => 5,
        ConnectionPhase::LoginForwardFirst => 6,
        ConnectionPhase::Relay => 7,
        ConnectionPhase::Closed => 8,
    }
}

/// The phase that follows `p` when its step succeeds. The handshake
/// phase branches on what the client asked for; every other phase has
/// one successor, and the relay runs until a peer closes.
pub open spec fn spec_next_phase(p: ConnectionPhase, chosen: NextPhase) -> ConnectionPhase {
    match p {
        ConnectionPhase::AwaitHandshake => match chosen {
            NextPhase::Status => ConnectionPhase::StatusRequest,
            NextPhase::Login => ConnectionPhase::LoginResolve,
        },
        ConnectionPhase::StatusRequest => ConnectionPhase::StatusQuery,
        ConnectionPhase::StatusQuery => ConnectionPhase::StatusPing,
        ConnectionPhase::StatusPing => ConnectionPhase::StatusPong,
        ConnectionPhase::StatusPong => ConnectionPhase::Closed,
        ConnectionPhase::LoginResolve => ConnectionPhase::LoginAllocateSource,
        ConnectionPhase::LoginAllocateSource => ConnectionPhase::LoginConnectTarget,
        ConnectionPhase::LoginConnectTarget => ConnectionPhase::LoginForwardHandshake,
        ConnectionPhase::LoginForwardHandshake => ConnectionPhase::LoginInterceptStart,
        ConnectionPhase::LoginInterceptStart => ConnectionPhase::LoginForwardFirst,
        ConnectionPhase::LoginForwardFirst => ConnectionPhase::Relay,
        ConnectionPhase::Relay => ConnectionPhase::Closed,
        ConnectionPhase::Closed => ConnectionPhase::Closed,
    }
}

/// Advances a session one step. No phase is ever revisited: the rank
/// strictly grows until the session is closed.
pub fn advance_phase(p: ConnectionPhase, chosen: NextPhase) -> (q: ConnectionPhase)
    requires
        p != ConnectionPhase::Closed,
    ensures
        q == spec_next_phase(p, chosen),
        spec_phase_rank(q) > spec_phase_rank(p),
{
    match p {
        ConnectionPhase::AwaitHandshake => match chosen {
            NextPhase::Status => ConnectionPhase::StatusRequest,
            NextPhase::Login => ConnectionPhase::LoginResolve,
        },
        ConnectionPhase::StatusRequest => ConnectionPhase::StatusQuery,
        ConnectionPhase::StatusQuery => ConnectionPhase::StatusPing,
        ConnectionPhase::StatusPing => ConnectionPhase::StatusPong,
        ConnectionPhase::StatusPong => ConnectionPhase::Closed,
        ConnectionPhase::LoginResolve => ConnectionPhase::LoginAllocateSource,
        ConnectionPhase::LoginAllocateSource => ConnectionPhase::LoginConnectTarget,
        ConnectionPhase::LoginConnectTarget => ConnectionPhase::LoginForwardHandshake,
        ConnectionPhase::LoginForwardHandshake => ConnectionPhase::LoginInterceptStart,
        ConnectionPhase::LoginInterceptStart => ConnectionPhase::LoginForwardFirst,
        ConnectionPhase::LoginForwardFirst => ConnectionPhase::Relay,
        ConnectionPhase::Relay => ConnectionPhase::Closed,
        ConnectionPhase::Closed => ConnectionPhase::Closed,
    }
}

} // verus!
