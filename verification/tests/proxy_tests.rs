use mcproxy::handler::{
    build_forward_handshake, build_initial_login_buffer, dispatch_next_state, make_pong,
    parse_login_start, render_disconnect_reason, rewrite_status_response, HandlerError, NextPhase,
};
use mcproxy::json::{rewrite_description, JsonValue, StatusRewriteError};
use mcproxy::pool::{PoolError, SourceIp, SourceIpPool};
use mcproxy::protocol::client::handshake::ClientHandshake;
use mcproxy::protocol::client::login::{
    ClientLoginAcknowledged, ClientLoginEncryptionResponse, ClientLoginPluginResponse,
    ClientLoginStart, ClientLoginStartOnlyName,
};
use mcproxy::protocol::client::status::{ClientStatusPing, ClientStatusRequest};
use mcproxy::protocol::server::login::{
    ServerLoginDisconnect, ServerLoginEncryptionRequest, ServerLoginPluginRequest,
    ServerLoginSetCompression, ServerLoginSuccess,
};
use mcproxy::protocol::server::status::{ServerStatusPongPacket, ServerStatusResponsePacket};
use mcproxy::protocol::types::{ByteCursor, DecodeError, MinecraftDataType, VarInt, UUID};
use mcproxy::protocol::{
    read_raw_packet_id_and_data, read_with_header_from, write_with_header_to, Packet,
};
use mcproxy::relay::RelayBuffer;
use mcproxy::text::{format_duration, status_suffix};

#[test]
fn test_handshake_packet_against_itself() {
    let test_handshake = ClientHandshake {
        protocol_version: VarInt(799),
        server_address: "localhost".to_owned(),
        server_port: 25565,
        next_state: VarInt(1),
    };
    let mut data: Vec<u8> = Vec::new();
    test_handshake.write_to(&mut data).unwrap();
    let mut cur = ByteCursor::new(data);
    let read_back = ClientHandshake::from_cursor(&mut cur).unwrap();
    assert_eq!(read_back, test_handshake);
}

#[test]
fn handshake_header_round_trip_arbitrary_tuple() {
    let hs = ClientHandshake {
        protocol_version: VarInt(-7),
        server_address: "spiel.beispiel-server.de".to_owned(),
        server_port: 1,
        next_state: VarInt(2),
    };
    let mut frame: Vec<u8> = Vec::new();
    write_with_header_to(&hs, &mut frame).unwrap();
    let mut cur = ByteCursor::new(frame);
    let back: ClientHandshake = read_with_header_from(&mut cur).unwrap();
    assert_eq!(back, hs);
}

#[test]
fn oversized_frame_is_rejected_without_its_payload() {
    // declared size 8 MiB + 1, and not a single payload byte present
    let data = vec![0x81u8, 0x80, 0x80, 0x04];
    let mut cur = ByteCursor::new(data);
    assert_eq!(
        read_raw_packet_id_and_data(&mut cur),
        Err(DecodeError::FrameTooBig)
    );
}

#[test]
fn frame_with_missing_payload_reports_the_end() {
    // declared size 5, only two payload bytes present
    let data = vec![0x05u8, 0x00, 0x01];
    let mut cur = ByteCursor::new(data);
    assert_eq!(
        read_raw_packet_id_and_data(&mut cur),
        Err(DecodeError::UnexpectedEnd)
    );
}

#[test]
fn frame_with_wrong_id_names_both_ids() {
    let mut frame: Vec<u8> = Vec::new();
    write_with_header_to(&ClientStatusRequest {}, &mut frame).unwrap();
    let mut cur = ByteCursor::new(frame);
    let res: Result<ClientStatusPing, DecodeError> = read_with_header_from(&mut cur);
    assert_eq!(
        res,
        Err(DecodeError::UnexpectedPacketId {
            expected: 0x01,
            got: 0x00
        })
    );
}

#[test]
fn dispatch_accepts_only_status_and_login() {
    let mut hs = ClientHandshake {
        protocol_version: VarInt(767),
        server_address: "h".to_owned(),
        server_port: 25565,
        next_state: VarInt(1),
    };
    assert_eq!(dispatch_next_state(&hs), Ok(NextPhase::Status));
    hs.next_state = VarInt(2);
    assert_eq!(dispatch_next_state(&hs), Ok(NextPhase::Login));
    hs.next_state = VarInt(3);
    assert_eq!(
        dispatch_next_state(&hs),
        Err(HandlerError::UnsupportedNextState { requested: 3 })
    );
}

#[test]
fn forward_handshake_uses_alias_values_when_configured() {
    let hs = ClientHandshake {
        protocol_version: VarInt(767),
        server_address: "public.example".to_owned(),
        server_port: 25565,
        next_state: VarInt(2),
    };
    let plain = build_forward_handshake(
        &hs,
        &"target.example".to_owned(),
        7777,
        &None,
        &None,
        VarInt(2),
    );
    assert_eq!(plain.server_address, "target.example");
    assert_eq!(plain.server_port, 7777);
    assert_eq!(plain.protocol_version, VarInt(767));
    let aliased = build_forward_handshake(
        &hs,
        &"target.example".to_owned(),
        7777,
        &Some("alias.example".to_owned()),
        &Some(25599),
        VarInt(2),
    );
    assert_eq!(aliased.server_address, "alias.example");
    assert_eq!(aliased.server_port, 25599);
}

#[test]
fn login_start_parses_new_format_first_and_falls_back() {
    // new format: username then 16 uuid bytes
    let mut new_payload: Vec<u8> = Vec::new();
    "steve".to_owned().write_as_mc_type(&mut new_payload).unwrap();
    UUID {
        bytes: (1u8..17).collect(),
    }
    .write_as_mc_type(&mut new_payload)
    .unwrap();
    let id = parse_login_start(new_payload).unwrap();
    assert_eq!(id.username, "steve");
    assert_eq!(id.uuid, Some(UUID { bytes: (1u8..17).collect() }));

    // legacy format: username only
    let mut legacy_payload: Vec<u8> = Vec::new();
    "alex".to_owned().write_as_mc_type(&mut legacy_payload).unwrap();
    let id = parse_login_start(legacy_payload).unwrap();
    assert_eq!(id.username, "alex");
    assert_eq!(id.uuid, None);

    // neither format
    assert!(parse_login_start(vec![0xffu8, 0x07]).is_err());
}

#[test]
fn initial_login_buffer_is_both_frames_in_order() {
    let forward = ClientHandshake {
        protocol_version: VarInt(767),
        server_address: "t".to_owned(),
        server_port: 1,
        next_state: VarInt(2),
    };
    let mut login_payload: Vec<u8> = Vec::new();
    "steve".to_owned().write_as_mc_type(&mut login_payload).unwrap();
    let buf = build_initial_login_buffer(&forward, VarInt(0), &login_payload).unwrap();

    let mut cur = ByteCursor::new(buf);
    let hs: ClientHandshake = read_with_header_from(&mut cur).unwrap();
    assert_eq!(hs, forward);
    let (id, payload) = read_raw_packet_id_and_data(&mut cur).unwrap();
    assert_eq!(id, VarInt(0));
    assert_eq!(payload, login_payload);
    assert_eq!(cur.remaining(), 0);
}

fn doc_with_description(description: JsonValue) -> JsonValue {
    JsonValue::Object(vec![("description".to_owned(), description)])
}

fn description_of(doc: JsonValue) -> JsonValue {
    match doc {
        JsonValue::Object(mut fields) => {
            assert_eq!(fields.len(), 1);
            let (key, value) = fields.remove(0);
            assert_eq!(key, "description");
            value
        }
        other => panic!("expected an object, got {other:?}"),
    }
}

#[test]
fn rewrite_handles_each_description_shape() {
    // plain string: the suffix lands inside it
    let doc = doc_with_description(JsonValue::Str("Hi".to_owned()));
    let out = description_of(rewrite_description(doc, "!").unwrap());
    match out {
        JsonValue::Str(text) => assert_eq!(text, "Hi!"),
        other => panic!("expected a string, got {other:?}"),
    }

    // object with an extra array: the suffix becomes a new element
    let inner = JsonValue::Object(vec![
        ("extra".to_owned(), JsonValue::Array(vec![JsonValue::Str("a".to_owned())])),
        ("text".to_owned(), JsonValue::Str(String::new())),
    ]);
    let out = description_of(rewrite_description(doc_with_description(inner), "!").unwrap());
    match out {
        JsonValue::Object(fields) => {
            assert_eq!(fields.len(), 2);
            assert_eq!(fields[0].0, "extra");
            match &fields[0].1 {
                JsonValue::Array(extra) => {
                    assert_eq!(extra.len(), 2);
                    assert!(matches!(&extra[0], JsonValue::Str(s) if s == "a"));
                    assert!(matches!(&extra[1], JsonValue::Str(s) if s == "!"));
                }
                other => panic!("expected an array, got {other:?}"),
            }
        }
        other => panic!("expected an object, got {other:?}"),
    }

    // bare array: the suffix becomes a new element
    let doc = doc_with_description(JsonValue::Array(vec![JsonValue::Str("a".to_owned())]));
    let out = description_of(rewrite_description(doc, "!").unwrap());
    match out {
        JsonValue::Array(items) => {
            assert_eq!(items.len(), 2);
            assert!(matches!(&items[0], JsonValue::Str(s) if s == "a"));
            assert!(matches!(&items[1], JsonValue::Str(s) if s == "!"));
        }
        other => panic!("expected an array, got {other:?}"),
    }
}

#[test]
fn rewrite_refuses_bad_shapes() {
    // object without an extra array
    let inner = JsonValue::Object(vec![("text".to_owned(), JsonValue::Str("x".to_owned()))]);
    assert!(matches!(
        rewrite_description(doc_with_description(inner), "!"),
        Err(StatusRewriteError::MissingExtraArray)
    ));

    // extra present but not an array
    let inner = JsonValue::Object(vec![(
        "extra".to_owned(),
        JsonValue::Num(serde_json::Number::from(3u64)),
    )]);
    assert!(matches!(
        rewrite_description(doc_with_description(inner), "!"),
        Err(StatusRewriteError::MissingExtraArray)
    ));

    // a number
    let doc = doc_with_description(JsonValue::Num(serde_json::Number::from(7u64)));
    assert!(matches!(
        rewrite_description(doc, "!"),
        Err(StatusRewriteError::BadDescriptionShape)
    ));

    // a boolean
    let doc = doc_with_description(JsonValue::Bool(true));
    assert!(matches!(
        rewrite_description(doc, "!"),
        Err(StatusRewriteError::BadDescriptionShape)
    ));

    // no description at all
    let doc = JsonValue::Object(vec![("version".to_owned(), JsonValue::Object(Vec::new()))]);
    assert!(matches!(
        rewrite_description(doc, "!"),
        Err(StatusRewriteError::NoDescription)
    ));

    // not an object
    let doc = JsonValue::Array(vec![JsonValue::Bool(false)]);
    assert!(matches!(
        rewrite_description(doc, "!"),
        Err(StatusRewriteError::NotAnObject)
    ));
}

#[test]
fn rewrite_status_response_reports_non_json() {
    assert_eq!(
        rewrite_status_response("{oops", 1),
        Err(HandlerError::StatusNotJson)
    );
}

#[test]
fn source_pool_exhausts_and_recovers() {
    let mut pool = SourceIpPool::new();
    pool.add_source(SourceIp::V4([10, 0, 0, 1]));

    let first = pool.get_available_source_ip(true, false).unwrap();
    assert_eq!(first, Some(0));

    // while the first hold is out, a second request must fail
    assert_eq!(
        pool.get_available_source_ip(true, false),
        Err(PoolError::OutOfSourceIps)
    );

    // after the hold is given back, the entry is granted again
    pool.release(0);
    assert_eq!(pool.get_available_source_ip(true, false).unwrap(), Some(0));
}

#[test]
fn source_pool_empty_means_no_preference() {
    let mut pool = SourceIpPool::new();
    assert_eq!(pool.get_available_source_ip(true, true).unwrap(), None);
}

#[test]
fn source_pool_respects_address_family() {
    let mut pool = SourceIpPool::new();
    pool.add_source(SourceIp::V6([0; 16]));
    assert_eq!(
        pool.get_available_source_ip(true, false),
        Err(PoolError::OutOfSourceIps)
    );
    assert_eq!(pool.get_available_source_ip(false, true).unwrap(), Some(0));
}

#[test]
fn relay_buffer_keeps_byte_order() {
    let mut buf = RelayBuffer::new();
    buf.push_chunk(&[1, 2, 3, 9], 3);
    buf.push_chunk(&[4, 5], 2);
    assert_eq!(buf.pending_slice(), &[1, 2, 3, 4, 5]);
    buf.mark_written(2);
    assert_eq!(buf.pending_slice(), &[3, 4, 5]);
    buf.mark_written(3);
    assert_eq!(buf.pending_len(), 0);
    buf.reset();
    assert_eq!(buf.pending_len(), 0);
}

#[test]
fn duration_formatting_matches_expected_values() {
    assert_eq!(format_duration(0), "0ms");
    assert_eq!(format_duration(5), "5ms");
    assert_eq!(format_duration(9999), "9s 999ms");
    assert_eq!(format_duration(10000), "10s");
    assert_eq!(format_duration(59999), "59s");
    assert_eq!(format_duration(61000), "1m 1s");
    assert_eq!(format_duration(3600000), "1h");
    assert_eq!(format_duration(3661001), "1h 1m 1s");
}

#[test]
fn status_suffix_carries_the_ping() {
    assert_eq!(
        status_suffix(5),
        "\u{a7}8[\u{a7}9Stupid MC Proxy: \u{a7}35ms\u{a7}8]"
    );
}

#[test]
fn disconnect_reason_renders_as_text_object() {
    assert_eq!(
        render_disconnect_reason("Out of Source IPs!"),
        "{\"text\":\"StupidMCProxy Error: Out of Source IPs!\"}"
    );
}

#[test]
fn status_exchange_end_to_end() {
    // The client asks for status: a handshake with next_state = 1,
    // then an empty status request, both as whole frames.
    let client_hs = ClientHandshake {
        protocol_version: VarInt(767),
        server_address: "play.example".to_owned(),
        server_port: 25565,
        next_state: VarInt(1),
    };
    let mut from_client: Vec<u8> = Vec::new();
    write_with_header_to(&client_hs, &mut from_client).unwrap();
    write_with_header_to(&ClientStatusRequest {}, &mut from_client).unwrap();

    // The proxy reads both and decides on the status path.
    let mut cur = ByteCursor::new(from_client);
    let hs: ClientHandshake = read_with_header_from(&mut cur).unwrap();
    assert_eq!(dispatch_next_state(&hs), Ok(NextPhase::Status));
    let _req: ClientStatusRequest = read_with_header_from(&mut cur).unwrap();

    // The stub target answers the proxy's own query with a fixed
    // document, and the measured ping comes out as 5 ms.
    let stub_status = ServerStatusResponsePacket {
        json_response: "{\"description\":\"Hi\"}".to_owned(),
    };
    let mut from_target: Vec<u8> = Vec::new();
    write_with_header_to(&stub_status, &mut from_target).unwrap();
    let mut cur = ByteCursor::new(from_target);
    let status: ServerStatusResponsePacket = read_with_header_from(&mut cur).unwrap();

    let rewritten = rewrite_status_response(&status.json_response, 5).unwrap();
    assert_eq!(
        rewritten,
        "{\"description\":\"Hi\u{a7}8[\u{a7}9Stupid MC Proxy: \u{a7}35ms\u{a7}8]\"}"
    );

    // The client receives the rewritten document.
    let mut to_client: Vec<u8> = Vec::new();
    write_with_header_to(
        &ServerStatusResponsePacket {
            json_response: rewritten,
        },
        &mut to_client,
    )
    .unwrap();
    let mut cur = ByteCursor::new(to_client);
    let seen: ServerStatusResponsePacket = read_with_header_from(&mut cur).unwrap();
    let doc: serde_json::Value = serde_json::from_str(&seen.json_response).unwrap();
    assert_eq!(
        doc["description"],
        "Hi\u{a7}8[\u{a7}9Stupid MC Proxy: \u{a7}35ms\u{a7}8]"
    );

    // The client's ping comes back with the identical payload.
    let ping = ClientStatusPing { payload: 123456789 };
    let mut ping_frame: Vec<u8> = Vec::new();
    write_with_header_to(&ping, &mut ping_frame).unwrap();
    let mut cur = ByteCursor::new(ping_frame);
    let ping_seen: ClientStatusPing = read_with_header_from(&mut cur).unwrap();
    let pong = make_pong(&ping_seen);
    let mut pong_frame: Vec<u8> = Vec::new();
    write_with_header_to(&pong, &mut pong_frame).unwrap();
    let mut cur = ByteCursor::new(pong_frame);
    let pong_seen: ServerStatusPongPacket = read_with_header_from(&mut cur).unwrap();
    assert_eq!(pong_seen.payload, 123456789);
}

#[test]
fn login_packets_round_trip_through_frames() {
    let mut wire: Vec<u8> = Vec::new();
    let start = ClientLoginStart {
        username: "steve".to_owned(),
        uuid: UUID {
            bytes: (0u8..16).collect(),
        },
    };
    write_with_header_to(&start, &mut wire).unwrap();
    let legacy = ClientLoginStartOnlyName {
        username: "alex".to_owned(),
    };
    write_with_header_to(&legacy, &mut wire).unwrap();
    let enc_resp = ClientLoginEncryptionResponse {
        shared_secret: vec![1, 2, 3],
        verify_token: vec![4, 5],
    };
    write_with_header_to(&enc_resp, &mut wire).unwrap();
    let ack = ClientLoginAcknowledged {};
    write_with_header_to(&ack, &mut wire).unwrap();

    let mut cur = ByteCursor::new(wire);
    let b: ClientLoginStart = read_with_header_from(&mut cur).unwrap();
    assert_eq!(b, start);
    let b: ClientLoginStartOnlyName = read_with_header_from(&mut cur).unwrap();
    assert_eq!(b, legacy);
    let b: ClientLoginEncryptionResponse = read_with_header_from(&mut cur).unwrap();
    assert_eq!(b, enc_resp);
    let b: ClientLoginAcknowledged = read_with_header_from(&mut cur).unwrap();
    assert_eq!(b, ack);
    assert_eq!(cur.remaining(), 0);
}

#[test]
fn server_login_packets_round_trip_through_frames() {
    let mut wire: Vec<u8> = Vec::new();
    let disconnect = ServerLoginDisconnect {
        reason: "{\"text\":\"no\"}".to_owned(),
    };
    write_with_header_to(&disconnect, &mut wire).unwrap();
    let enc_req = ServerLoginEncryptionRequest {
        server_id: "".to_owned(),
        public_key: vec![9, 9],
        verify_token: vec![7],
        should_authenticate: true,
    };
    write_with_header_to(&enc_req, &mut wire).unwrap();
    let success = ServerLoginSuccess {
        uuid: UUID {
            bytes: (10u8..26).collect(),
        },
        username: "steve".to_owned(),
    };
    write_with_header_to(&success, &mut wire).unwrap();
    let compression = ServerLoginSetCompression {
        threshold: VarInt(256),
    };
    write_with_header_to(&compression, &mut wire).unwrap();

    let mut cur = ByteCursor::new(wire);
    let b: ServerLoginDisconnect = read_with_header_from(&mut cur).unwrap();
    assert_eq!(b, disconnect);
    let b: ServerLoginEncryptionRequest = read_with_header_from(&mut cur).unwrap();
    assert_eq!(b, enc_req);
    let b: ServerLoginSuccess = read_with_header_from(&mut cur).unwrap();
    assert_eq!(b, success);
    let b: ServerLoginSetCompression = read_with_header_from(&mut cur).unwrap();
    assert_eq!(b, compression);
    assert_eq!(cur.remaining(), 0);
}

#[test]
fn plugin_packets_carry_their_raw_tails() {
    // the response's answer bytes run to the end of the frame, with
    // no length of their own, and only when marked successful
    let resp = ClientLoginPluginResponse {
        message_id: VarInt(3),
        successful: true,
        data: Some(vec![0xaa, 0xbb]),
    };
    let mut wire: Vec<u8> = Vec::new();
    write_with_header_to(&resp, &mut wire).unwrap();
    let mut cur = ByteCursor::new(wire);
    let b: ClientLoginPluginResponse = read_with_header_from(&mut cur).unwrap();
    assert_eq!(b, resp);

    let denied = ClientLoginPluginResponse {
        message_id: VarInt(3),
        successful: false,
        data: None,
    };
    let mut wire: Vec<u8> = Vec::new();
    write_with_header_to(&denied, &mut wire).unwrap();
    let mut cur = ByteCursor::new(wire);
    let b: ClientLoginPluginResponse = read_with_header_from(&mut cur).unwrap();
    assert_eq!(b, denied);

    // a successful response without its data cannot be written
    let torn = ClientLoginPluginResponse {
        message_id: VarInt(3),
        successful: true,
        data: None,
    };
    let mut wire: Vec<u8> = Vec::new();
    assert!(write_with_header_to(&torn, &mut wire).is_err());
    assert!(wire.is_empty());

    let req = ServerLoginPluginRequest {
        message_id: VarInt(4),
        channel: "proxy:greeting".to_owned(),
        data: vec![1, 2, 3, 4],
    };
    let mut wire: Vec<u8> = Vec::new();
    write_with_header_to(&req, &mut wire).unwrap();
    let mut cur = ByteCursor::new(wire);
    let b: ServerLoginPluginRequest = read_with_header_from(&mut cur).unwrap();
    assert_eq!(b, req);
}
