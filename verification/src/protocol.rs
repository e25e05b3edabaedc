use vstd::prelude::*;
use crate::protocol::types::{
    ByteCursor, DecodeError, EncodeError, VarDecResult, VarInt, MinecraftDataType,
    spec_var_dec, spec_var_enc, spec_u32_as_i32, spec_i32_bits, lemma_var_dec_bounds,
    lemma_var_enc_dec, lemma_var_enc_len, lemma_pow128_concrete,
};

pub mod client;
pub mod server;
pub mod types;

verus! {

/// The largest frame the proxy will accept: 8 MiB.
pub const MAX_PACKET_SIZE: i32 = 1024 * 1024 * 8;

// ---------------------------------------------------------------------
// Frame layer: `[length][packet id][payload]`, where the length is a
// VarInt counting the id and payload bytes together.

/// Exact decode of one frame: the packet id, the payload bytes, and
/// how many input bytes the frame occupied. The size bound is checked
/// before the payload is touched, so an oversized frame fails even if
/// its payload never arrived.
pub open spec fn spec_read_raw(s: Seq<u8>) -> Result<((i32, Seq<u8>), int), DecodeError> {
    match spec_var_dec(s, 5) {
        VarDecResult::Done { value, len } => {
            let size = spec_u32_as_i32((value % 0x1_0000_0000) as u32);
            if size > MAX_PACKET_SIZE {
                Err(DecodeError::FrameTooBig)
            } else if size < 0 {
                Err(DecodeError::NegativeLength)
            } else if s.len() < len + size {
                Err(DecodeError::UnexpectedEnd)
            } else {
                let frame = s.subrange(len as int, len as int + size);
                match spec_var_dec(frame, 5) {
                    VarDecResult::Done { value: idv, len: idl } => Ok(
                        (
                            (spec_u32_as_i32((idv % 0x1_0000_0000) as u32), frame.skip(idl as int)),
                            len + size,
                        ),
                    ),
                    VarDecResult::Short => Err(DecodeError::UnexpectedEnd),
                    VarDecResult::Over => Err(DecodeError::VarIntTooBig),
                }
            }
        },
        VarDecResult::Short => Err(DecodeError::UnexpectedEnd),
        VarDecResult::Over => Err(DecodeError::VarIntTooBig),
    }
}

/// Reads one frame and returns its packet id and payload. The declared
/// size is checked against the 8 MiB bound before any payload byte is
/// read or any buffer for it exists.
pub fn read_raw_packet_id_and_data(reader: &mut ByteCursor) -> (res: Result<
    (VarInt, Vec<u8>),
    DecodeError,
>)
    requires
        old(reader).wf(),
    ensures
        final(reader).wf(),
        final(reader).data@ == old(reader).data@,
        match res {
            Ok(r) => spec_read_raw(old(reader).suffix()) matches Ok(d) && r.0.0 == d.0.0 && r.1@
                == d.0.1 && final(reader).pos == old(reader).pos + d.1,
            Err(e) => spec_read_raw(old(reader).suffix()) == Err::<
                ((i32, Seq<u8>), int),
                DecodeError,
            >(e) && final(reader).pos == old(reader).pos,
        },
{
    let start = reader.pos;
    let ghost s = old(reader).suffix();
    let size = match VarInt::read_as_mc_type(reader) {
        Ok(v) => v,
        Err(e) => {
            return Err(e);
        },
    };
    if size.0 > MAX_PACKET_SIZE {
        reader.pos = start;
        return Err(DecodeError::FrameTooBig);
    }
    if size.0 < 0 {
        reader.pos = start;
        return Err(DecodeError::NegativeLength);
    }
    proof {
        lemma_var_dec_bounds(s, 5);
        assert(reader.suffix() =~= s.skip((reader.pos - start) as int));
    }
    let ghost plen = reader.pos - start;
    let frame = match reader.take_bytes(size.0 as usize) {
        Ok(b) => b,
        Err(e) => {
            reader.pos = start;
            proof {
                assert(s.skip(plen as int).len() == s.len() - plen);
            }
            return Err(e);
        },
    };
    proof {
        assert(frame@ =~= s.subrange(plen as int, plen as int + size.0));
    }
    let mut frame_cursor = ByteCursor::new(frame);
    proof {
        assert(frame_cursor.suffix() =~= frame_cursor.data@);
    }
    let packet_id = match VarInt::read_as_mc_type(&mut frame_cursor) {
        Ok(v) => v,
        Err(e) => {
            reader.pos = start;
            return Err(e);
        },
    };
    proof {
        lemma_var_dec_bounds(frame_cursor.data@, 5);
    }
    let rest = frame_cursor.remaining();
    let payload = match frame_cursor.take_bytes(rest) {
        Ok(b) => b,
        Err(_) => {
            reader.pos = start;
            return Err(DecodeError::UnexpectedEnd);
        },
    };
    proof {
        assert(payload@ =~= frame_cursor.data@.skip(
            spec_var_dec(frame_cursor.data@, 5)->Done_len as int,
        ));
    }
    Ok((packet_id, payload))
}

/// A frame that declares more than the 8 MiB bound is rejected from
/// the declared size alone: however short the rest of the input is,
/// the error is the size bound, not a missing payload, so no buffer
/// for the payload is ever needed.
pub proof fn lemma_oversized_frame_rejected(s: Seq<u8>)
    requires
        spec_var_dec(s, 5) is Done,
        spec_u32_as_i32((spec_var_dec(s, 5)->Done_value % 0x1_0000_0000) as u32)
            > MAX_PACKET_SIZE,
    ensures
        spec_read_raw(s) == Err::<((i32, Seq<u8>), int), DecodeError>(DecodeError::FrameTooBig),
{
}

// ---------------------------------------------------------------------
// Typed packets.

/// A packet shape the proxy understands: a fixed id and a body format.
///
/// `spec_body` is the canonical body encoding, `spec_body_decode` the
/// exact outcome of decoding a payload. Writing a body promises that
/// it decodes back to the same packet.
pub trait Packet: Sized + DeepView {
    /// The wire id of this packet shape.
    spec fn spec_id() -> i32;

    /// The canonical body bytes of this packet.
    spec fn spec_body(&self) -> Seq<u8>;

    /// Whether this packet's body can be written.
    spec fn spec_body_encodable(&self) -> bool;

    /// Exact decode of a payload into this packet's view.
    spec fn spec_body_decode(s: Seq<u8>) -> Result<Self::V, DecodeError>;

    fn packet_id() -> (r: VarInt)
        ensures
            r.0 == Self::spec_id(),
    ;

    fn from_cursor(reader: &mut ByteCursor) -> (res: Result<Self, DecodeError>)
        requires
            old(reader).wf(),
        ensures
            final(reader).wf(),
            final(reader).data@ == old(reader).data@,
            final(reader).pos >= old(reader).pos,
            match res {
                Ok(v) => Self::spec_body_decode(old(reader).suffix()) matches Ok(dv)
                    && v.deep_view() == dv,
                Err(e) => Self::spec_body_decode(old(reader).suffix()) == Err::<
                    Self::V,
                    DecodeError,
                >(e),
            },
    ;

    fn write_to(&self, writer: &mut Vec<u8>) -> (res: Result<(), EncodeError>)
        ensures
            match res {
                Ok(_) => self.spec_body_encodable() && final(writer)@ == old(writer)@
                    + self.spec_body() && Self::spec_body_decode(self.spec_body()) == Ok::<
                    Self::V,
                    DecodeError,
                >(self.deep_view()),
                Err(_) => !self.spec_body_encodable() && final(writer)@ == old(writer)@,
            },
    ;
}

/// Reads one frame, checks that it carries this packet's id, and
/// decodes the payload as this packet.
pub fn read_with_header_from<P: Packet>(reader: &mut ByteCursor) -> (res: Result<P, DecodeError>)
    requires
        old(reader).wf(),
    ensures
        final(reader).wf(),
        final(reader).data@ == old(reader).data@,
        final(reader).pos >= old(reader).pos,
        match res {
            Ok(v) => spec_packet_with_header_decode::<P>(old(reader).suffix()) matches Ok(
                dv,
            ) && v.deep_view() == dv,
            Err(e) => spec_packet_with_header_decode::<P>(old(reader).suffix()) == Err::<
                P::V,
                DecodeError,
            >(e),
        },
{
    let start = reader.pos;
    let (packet_id, payload) = match read_raw_packet_id_and_data(reader) {
        Ok(r) => r,
        Err(e) => {
            return Err(e);
        },
    };
    let expected = P::packet_id();
    if packet_id.0 != expected.0 {
        reader.pos = start;
        return Err(
            DecodeError::UnexpectedPacketId { expected: expected.0, got: packet_id.0 },
        );
    }
    let mut body_cursor = ByteCursor::new(payload);
    proof {
        assert(body_cursor.suffix() =~= payload@);
    }
    match P::from_cursor(&mut body_cursor) {
        Ok(v) => Ok(v),
        Err(e) => {
            reader.pos = start;
            Err(e)
        },
    }
}

/// Appends one whole frame holding this packet: length, id, body.
pub fn write_with_header_to<P: Packet>(p: &P, writer: &mut Vec<u8>) -> (res: Result<(), EncodeError>)
    ensures
        match res {
            Ok(_) => final(writer)@ == old(writer)@ + spec_frame_bytes(p) && (
            spec_var_enc(spec_i32_bits(P::spec_id()) as nat).len() + p.spec_body().len()
                <= MAX_PACKET_SIZE ==> spec_packet_with_header_decode::<P>(
                spec_frame_bytes(p),
            ) == Ok::<P::V, DecodeError>(p.deep_view())),
            Err(_) => final(writer)@ == old(writer)@ && (!p.spec_body_encodable() || spec_var_enc(
                spec_i32_bits(P::spec_id()) as nat,
            ).len() + p.spec_body().len() > 0x7fff_ffff - 5),
        },
{
    let mut content: Vec<u8> = Vec::new();
    let id = P::packet_id();
    let r = id.write_as_mc_type(&mut content);
    proof {
        assert(r is Ok);
    }
    match p.write_to(&mut content) {
        Ok(_) => {},
        Err(e) => {
            return Err(e);
        },
    }
    if content.len() > 0x7fff_ffff - 5 {
        return Err(EncodeError::LengthTooLong);
    }
    let n = VarInt(content.len() as i32);
    let r2 = n.write_as_mc_type(writer);
    proof {
        assert(r2 is Ok);
    }
    writer.append(&mut content);
    proof {
        if spec_var_enc(spec_i32_bits(P::spec_id()) as nat).len() + p.spec_body().len()
            <= MAX_PACKET_SIZE {
            lemma_frame_decode::<P>(p);
        }
        assert(final(writer)@ =~= old(writer)@ + spec_frame_bytes(p));
    }
    Ok(())
}

/// The whole frame of a packet: length prefix, id, body.
pub open spec fn spec_frame_bytes<P: Packet>(p: &P) -> Seq<u8> {
    let content = spec_var_enc(spec_i32_bits(P::spec_id()) as nat) + p.spec_body();
    spec_var_enc(content.len()) + content
}

/// Exact decode of one frame as the packet `P`: the frame is read, its
/// id checked against `P`'s, and the payload decoded as `P`'s body.
pub open spec fn spec_packet_with_header_decode<P: Packet>(s: Seq<u8>) -> Result<
    P::V,
    DecodeError,
> {
    match spec_read_raw(s) {
        Ok(((id, payload), n)) => {
            if id == P::spec_id() {
                P::spec_body_decode(payload)
            } else {
                Err(DecodeError::UnexpectedPacketId { expected: P::spec_id(), got: id })
            }
        },
        Err(e) => Err(e),
    }
}

/// A frame built from a body that decodes back also decodes back as a
/// whole: the id matches and the payload is exactly the body.
proof fn lemma_frame_decode<P: Packet>(p: &P)
    requires
        P::spec_body_decode(p.spec_body()) == Ok::<P::V, DecodeError>(p.deep_view()),
        spec_var_enc(spec_i32_bits(P::spec_id()) as nat).len() + p.spec_body().len()
            <= MAX_PACKET_SIZE,
    ensures
        spec_packet_with_header_decode::<P>(spec_frame_bytes(p)) == Ok::<P::V, DecodeError>(
            p.deep_view(),
        ),
{
    let idbits = spec_i32_bits(P::spec_id()) as nat;
    let idenc = spec_var_enc(idbits);
    let content = idenc + p.spec_body();
    let s = spec_frame_bytes(p);
    lemma_pow128_concrete();
    lemma_var_enc_len(content.len(), 5);
    lemma_var_enc_dec(content.len(), 5, content);
    let plen = spec_var_enc(content.len()).len();
    assert(s.subrange(plen as int, (plen + content.len()) as int) =~= content);
    lemma_var_enc_len(idbits, 5);
    lemma_var_enc_dec(idbits, 5, p.spec_body());
    assert(content.skip(idenc.len() as int) =~= p.spec_body());
}

/// Re-emits an already-read frame: the id and the raw payload bytes
/// are framed again without interpreting the payload.
pub fn write_raw_packet(writer: &mut Vec<u8>, packet_id: VarInt, data: &Vec<u8>) -> (res: Result<
    (),
    EncodeError,
>)
    ensures
        match res {
            Ok(_) => final(writer)@ == old(writer)@ + spec_raw_frame_bytes(packet_id.0, data@),
            Err(_) => final(writer)@ == old(writer)@ && spec_var_enc(
                spec_i32_bits(packet_id.0) as nat,
            ).len() + data@.len() > 0x7fff_ffff - 5,
        },
{
    let mut content: Vec<u8> = Vec::new();
    let r = packet_id.write_as_mc_type(&mut content);
    proof {
        assert(r is Ok);
    }
    let mut i: usize = 0;
    while i < data.len()
        invariant
            i <= data@.len(),
            content@ == spec_var_enc(spec_i32_bits(packet_id.0) as nat) + data@.take(i as int),
        decreases data@.len() - i,
    {
        content.push(data[i]);
        i += 1;
        proof {
            assert(content@ =~= spec_var_enc(spec_i32_bits(packet_id.0) as nat) + data@.take(
                i as int,
            ));
        }
    }
    if content.len() > 0x7fff_ffff - 5 {
        return Err(EncodeError::LengthTooLong);
    }
    let n = VarInt(content.len() as i32);
    let r2 = n.write_as_mc_type(writer);
    proof {
        assert(r2 is Ok);
    }
    writer.append(&mut content);
    proof {
        assert(data@.take(data@.len() as int) =~= data@);
        assert(final(writer)@ =~= old(writer)@ + spec_raw_frame_bytes(packet_id.0, data@));
    }
    Ok(())
}

/// The frame bytes of a re-emitted raw packet.
pub open spec fn spec_raw_frame_bytes(id: i32, data: Seq<u8>) -> Seq<u8> {
    let content = spec_var_enc(spec_i32_bits(id) as nat) + data;
    spec_var_enc(content.len()) + content
}

} // verus!
