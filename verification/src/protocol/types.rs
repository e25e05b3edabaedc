use vstd::prelude::*;
use vstd::arithmetic::div_mod::{lemma_fundamental_div_mod, lemma_fundamental_div_mod_converse, lemma_small_mod, lemma_mod_multiples_vanish};
use vstd::string::StrSliceExecFns;
use vstd::utf8::{encode_utf8, decode_utf8, valid_utf8, encode_utf8_valid_utf8, encode_utf8_decode_utf8};

verus! {

// On the wire every value is a sequence of bytes. Each wire type below
// carries three spec-level descriptions: its canonical encoding, the
// exact outcome of decoding any byte sequence, and the condition under
// which a value can be written at all (lengths must fit the prefix).

pub type Boolean = bool;

pub type Byte = i8;

pub type UnsignedByte = u8;

pub type Short = i16;

pub type UnsignedShort = u16;

pub type Int = i32;

pub type Long = i64;

/// Why decoding a value from wire bytes failed.
#[derive(Debug, PartialEq, Eq, Structural, Clone, Copy)]
pub enum DecodeError {
    /// The input ended before the value was complete.
    UnexpectedEnd,
    /// A variable-length 32-bit integer ran past five bytes.
    VarIntTooBig,
    /// A variable-length 64-bit integer ran past ten bytes.
    VarLongTooBig,
    /// A length prefix decoded to a negative number.
    NegativeLength,
    /// String bytes were not valid UTF-8.
    InvalidUtf8,
    /// An identifier did not contain exactly one colon.
    InvalidIdentifier,
    /// A frame declared a size beyond the 8 MiB bound.
    FrameTooBig,
    /// A frame carried a different packet id than the expected one.
    UnexpectedPacketId { expected: i32, got: i32 },
    /// A packet body that must hold a JSON document did not parse as one.
    InvalidJson,
}

/// Why encoding a value to wire bytes failed.
#[derive(Debug, PartialEq, Eq, Structural, Clone, Copy)]
pub enum EncodeError {
    /// A length did not fit the 31 bits of a non-negative VarInt.
    LengthTooLong,
    /// A value violated its own well-formedness bound.
    MalformedValue,
}

// ---------------------------------------------------------------------
// Bit-pattern conversions between signed and unsigned integers, defined
// arithmetically so that proofs stay in linear integer arithmetic.

pub open spec fn spec_i32_bits(x: i32) -> u32 {
    if x >= 0 {
        x as u32
    } else {
        ((x as int) + 0x1_0000_0000) as u32
    }
}

pub open spec fn spec_u32_as_i32(v: u32) -> i32 {
    if v < 0x8000_0000 {
        v as i32
    } else {
        ((v as int) - 0x1_0000_0000) as i32
    }
}

pub open spec fn spec_i64_bits(x: i64) -> u64 {
    if x >= 0 {
        x as u64
    } else {
        ((x as int) + 0x1_0000_0000_0000_0000) as u64
    }
}

pub open spec fn spec_u64_as_i64(v: u64) -> i64 {
    if v < 0x8000_0000_0000_0000 {
        v as i64
    } else {
        ((v as int) - 0x1_0000_0000_0000_0000) as i64
    }
}

pub fn i32_bits(x: i32) -> (r: u32)
    ensures
        r == spec_i32_bits(x),
{
    if x >= 0 {
        x as u32
    } else {
        ((x as i64) + 0x1_0000_0000) as u32
    }
}

pub fn u32_as_i32(v: u32) -> (r: i32)
    ensures
        r == spec_u32_as_i32(v),
{
    if v < 0x8000_0000 {
        v as i32
    } else {
        ((v as i64) - 0x1_0000_0000i64) as i32
    }
}

pub fn i64_bits(x: i64) -> (r: u64)
    ensures
        r == spec_i64_bits(x),
{
    if x >= 0 {
        x as u64
    } else {
        ((x as i128) + 0x1_0000_0000_0000_0000) as u64
    }
}

pub fn u64_as_i64(v: u64) -> (r: i64)
    ensures
        r == spec_u64_as_i64(v),
{
    if v < 0x8000_0000_0000_0000 {
        v as i64
    } else {
        (((v as i128) - 0x1_0000_0000_0000_0000) as i64)
    }
}

// ---------------------------------------------------------------------
// Reading position over an owned byte buffer.

/// An owned byte buffer together with a read position, the shape every
/// decoder works against.
pub struct ByteCursor {
    pub data: Vec<u8>,
    pub pos: usize,
}

impl ByteCursor {
    pub open spec fn wf(&self) -> bool {
        self.pos <= self.data@.len()
    }

    /// The bytes not yet consumed.
    pub open spec fn suffix(&self) -> Seq<u8> {
        self.data@.skip(self.pos as int)
    }

    pub fn new(data: Vec<u8>) -> (c: ByteCursor)
        ensures
            c.wf(),
            c.data@ == data@,
            c.pos == 0,
    {
        ByteCursor { data, pos: 0 }
    }

    /// Bytes left to read.
    pub fn remaining(&self) -> (n: usize)
        requires
            self.wf(),
        ensures
            n == self.suffix().len(),
    {
        self.data.len() - self.pos
    }

    /// Gives the buffer back, abandoning the position.
    pub fn into_inner(self) -> (data: Vec<u8>)
        ensures
            data@ == self.data@,
    {
        self.data
    }

    /// Consumes the next `n` bytes and returns them as a fresh buffer.
    pub fn take_bytes(&mut self, n: usize) -> (res: Result<Vec<u8>, DecodeError>)
        requires
            old(self).wf(),
        ensures
            final(self).wf(),
            final(self).data@ == old(self).data@,
            n <= old(self).suffix().len() ==> (res matches Ok(b)
                && b@ == old(self).suffix().take(n as int)
                && final(self).pos == old(self).pos + n),
            n > old(self).suffix().len() ==> res == Err::<Vec<u8>, DecodeError>(
                DecodeError::UnexpectedEnd,
            ) && final(self).pos == old(self).pos,
    {
        if n > self.data.len() - self.pos {
            return Err(DecodeError::UnexpectedEnd);
        }
        let mut out: Vec<u8> = Vec::new();
        let mut i: usize = 0;
        while i < n
            invariant
                self.wf(),
                i <= n,
                n <= self.suffix().len(),
                self.data@ == old(self).data@,
                self.pos == old(self).pos,
                out@ == self.suffix().take(i as int),
            decreases n - i,
        {
            let dlen = self.data.len();
            proof {
                assert(self.suffix().len() == self.data@.len() - self.pos);
                assert(self.pos + i < dlen);
            }
            let b = self.data[self.pos + i];
            out.push(b);
            i += 1;
            proof {
                assert(out@ =~= self.suffix().take(i as int));
            }
        }
        self.pos = self.pos + n;
        Ok(out)
    }
}

// ---------------------------------------------------------------------
// Variable-length integers: 7 bits per byte, little groups first, the
// high bit of each byte flagging continuation.

/// Canonical variable-length encoding of an unsigned value.
pub open spec fn spec_var_enc(v: nat) -> Seq<u8>
    decreases v,
{
    if v < 128 {
        seq![v as u8]
    } else {
        seq![(v % 128 + 128) as u8] + spec_var_enc(v / 128)
    }
}

/// Outcome of reading a variable-length integer of at most `max` bytes.
pub enum VarDecResult {
    /// The unsigned value and how many bytes it occupied.
    Done { value: nat, len: nat },
    /// The input ended while the continuation bit was still set.
    Short,
    /// The continuation bit was still set after `max` bytes.
    Over,
}

pub open spec fn spec_var_dec(s: Seq<u8>, max: nat) -> VarDecResult
    decreases max,
{
    if max == 0 {
        VarDecResult::Over
    } else if s.len() == 0 {
        VarDecResult::Short
    } else if s[0] < 128 {
        VarDecResult::Done { value: s[0] as nat, len: 1 }
    } else {
        match spec_var_dec(s.skip(1), (max - 1) as nat) {
            VarDecResult::Done { value, len } => VarDecResult::Done {
                value: (s[0] - 128) as nat + 128 * value,
                len: len + 1,
            },
            r => r,
        }
    }
}

pub open spec fn pow128(k: nat) -> nat
    decreases k,
{
    if k == 0 {
        1
    } else {
        128 * pow128((k - 1) as nat)
    }
}

/// A value below `pow128(k)` encodes in at most `k` bytes.
pub proof fn lemma_var_enc_len(v: nat, k: nat)
    requires
        k >= 1,
        v < pow128(k),
    ensures
        1 <= spec_var_enc(v).len() <= k,
    decreases k,
{
    if v < 128 {
    } else {
        assert(pow128(k) == 128 * pow128((k - 1) as nat));
        assert(v / 128 < pow128((k - 1) as nat)) by {
            lemma_fundamental_div_mod(v as int, 128);
        }
        assert(k >= 2) by {
            if k == 1 {
                assert(pow128(1nat) == 128 * pow128(0nat));
            }
        }
        lemma_var_enc_len(v / 128, (k - 1) as nat);
    }
}

/// Decoding the canonical encoding, with anything at all appended,
/// returns the encoded value and consumes exactly the encoding.
pub proof fn lemma_var_enc_dec(v: nat, max: nat, rest: Seq<u8>)
    requires
        spec_var_enc(v).len() <= max,
    ensures
        spec_var_dec(spec_var_enc(v) + rest, max) == (VarDecResult::Done {
            value: v,
            len: spec_var_enc(v).len(),
        }),
    decreases v,
{
    let s = spec_var_enc(v) + rest;
    if v < 128 {
        assert(s[0] == v as u8);
    } else {
        let tail = spec_var_enc(v / 128) + rest;
        assert(s.skip(1) =~= tail);
        lemma_var_enc_dec(v / 128, (max - 1) as nat, rest);
        assert((s[0] - 128) as nat == v % 128);
        assert(v % 128 + 128 * (v / 128) == v) by {
            lemma_fundamental_div_mod(v as int, 128);
        }
    }
}

/// A successful variable-length decode never looks past the bytes it
/// consumed, so appending input cannot change it.
pub proof fn lemma_var_dec_extend(s: Seq<u8>, t: Seq<u8>, max: nat)
    requires
        spec_var_dec(s, max) is Done,
    ensures
        spec_var_dec(s + t, max) == spec_var_dec(s, max),
    decreases max,
{
    if max == 0 {
    } else if s.len() == 0 {
    } else if s[0] < 128 {
        assert((s + t)[0] == s[0]);
    } else {
        assert((s + t)[0] == s[0]);
        assert((s + t).skip(1) =~= s.skip(1) + t);
        lemma_var_dec_extend(s.skip(1), t, (max - 1) as nat);
    }
}

/// A successful decode consumed between one and `max` bytes, all within
/// the input, and its value is bounded by what those bytes can hold.
pub proof fn lemma_var_dec_bounds(s: Seq<u8>, max: nat)
    requires
        spec_var_dec(s, max) is Done,
    ensures
        1 <= spec_var_dec(s, max)->Done_len <= max,
        spec_var_dec(s, max)->Done_len <= s.len(),
        spec_var_dec(s, max)->Done_value < pow128(spec_var_dec(s, max)->Done_len),
    decreases max,
{
    if max == 0 {
    } else if s.len() == 0 {
    } else if s[0] < 128 {
        assert(pow128(1nat) == 128 * pow128(0nat));
    } else {
        lemma_var_dec_bounds(s.skip(1), (max - 1) as nat);
        let inner = spec_var_dec(s.skip(1), (max - 1) as nat);
        let iv = inner->Done_value;
        let il = inner->Done_len;
        assert((s[0] - 128) as nat + 128 * iv < pow128(il + 1)) by {
            assert(pow128(il + 1) == 128 * pow128(il));
            assert(iv <= pow128(il) - 1);
            assert(128 * iv <= 128 * (pow128(il) - 1)) by (nonlinear_arith)
                requires
                    iv <= pow128(il) - 1,
            ;
        }
    }
}

// ---------------------------------------------------------------------
// The shared shape of every wire type.

/// A value that can be read from and written to the wire.
///
/// `spec_encoding` is the canonical byte form, `spec_decode` the exact
/// outcome of decoding any byte sequence, and `spec_encodable` the
/// condition under which writing succeeds. Writing promises not only
/// the bytes produced but also that those bytes decode back to the
/// same value, so every implementation carries its round trip.
pub trait MinecraftDataType: Sized + DeepView {
    /// The canonical wire bytes of this value.
    spec fn spec_encoding(&self) -> Seq<u8>;

    /// Whether this value can be written at all.
    spec fn spec_encodable(&self) -> bool;

    /// Exact decode of a byte sequence: the decoded view and the number
    /// of bytes consumed, or the error.
    spec fn spec_decode(s: Seq<u8>) -> Result<(Self::V, int), DecodeError>;

    /// Decoding never reads past the bytes it consumes.
    proof fn lemma_decode_extend(s: Seq<u8>, t: Seq<u8>)
        ensures
            Self::spec_decode(s) is Ok ==> Self::spec_decode(s + t) == Self::spec_decode(s),
    ;

    /// A successful decode consumes no more bytes than the input holds.
    proof fn lemma_decode_len(s: Seq<u8>)
        ensures
            Self::spec_decode(s) matches Ok(r) ==> 0 <= r.1 <= s.len(),
    ;

    fn read_as_mc_type(reader: &mut ByteCursor) -> (res: Result<Self, DecodeError>)
        requires
            old(reader).wf(),
        ensures
            final(reader).wf(),
            final(reader).data@ == old(reader).data@,
            final(reader).pos >= old(reader).pos,
            match res {
                Ok(v) => Self::spec_decode(old(reader).suffix()) matches Ok(r) && v.deep_view()
                    == r.0 && final(reader).pos == old(reader).pos + r.1,
                Err(e) => Self::spec_decode(old(reader).suffix()) == Err::<
                    (Self::V, int),
                    DecodeError,
                >(e) && final(reader).pos == old(reader).pos,
            },
    ;

    fn write_as_mc_type(&self, writer: &mut Vec<u8>) -> (res: Result<(), EncodeError>)
        ensures
            match res {
                Ok(_) => self.spec_encodable() && final(writer)@ == old(writer)@
                    + self.spec_encoding() && (Self::spec_decode(self.spec_encoding()) matches Ok(r)
                    && r.0 == self.deep_view() && r.1 == self.spec_encoding().len()),
                Err(_) => !self.spec_encodable() && final(writer)@ == old(writer)@,
            },
    ;
}

// ---------------------------------------------------------------------
// VarInt

/// A variable-length encoded 32-bit integer.
#[derive(Debug, PartialEq, Eq, Structural, PartialOrd, Ord, Hash, Clone, Copy)]
pub struct VarInt(pub i32);

impl DeepView for VarInt {
    type V = i32;

    open spec fn deep_view(&self) -> i32 {
        self.0
    }
}

pub open spec fn spec_varint_decode(s: Seq<u8>) -> Result<(i32, int), DecodeError> {
    match spec_var_dec(s, 5) {
        VarDecResult::Done { value, len } => Ok(
            (spec_u32_as_i32((value % 0x1_0000_0000) as u32), len as int),
        ),
        VarDecResult::Short => Err(DecodeError::UnexpectedEnd),
        VarDecResult::Over => Err(DecodeError::VarIntTooBig),
    }
}

impl MinecraftDataType for VarInt {
    open spec fn spec_encoding(&self) -> Seq<u8> {
        spec_var_enc(spec_i32_bits(self.0) as nat)
    }

    open spec fn spec_encodable(&self) -> bool {
        true
    }

    open spec fn spec_decode(s: Seq<u8>) -> Result<(i32, int), DecodeError> {
        spec_varint_decode(s)
    }

    proof fn lemma_decode_extend(s: Seq<u8>, t: Seq<u8>) {
        if Self::spec_decode(s) is Ok {
            lemma_var_dec_extend(s, t, 5);
        }
    }

    proof fn lemma_decode_len(s: Seq<u8>) {
        if Self::spec_decode(s) is Ok {
            lemma_var_dec_bounds(s, 5);
        }
    }

    fn read_as_mc_type(reader: &mut ByteCursor) -> (res: Result<Self, DecodeError>) {
        match read_var_u64(reader, 5) {
            Ok(raw) => {
                let trimmed = (raw % 0x1_0000_0000) as u32;
                Ok(VarInt(u32_as_i32(trimmed)))
            },
            Err(e) => Err(if matches!(e, DecodeError::VarLongTooBig) {
                DecodeError::VarIntTooBig
            } else {
                e
            }),
        }
    }

    fn write_as_mc_type(&self, writer: &mut Vec<u8>) -> (res: Result<(), EncodeError>) {
        let bits = i32_bits(self.0);
        write_var_u64(writer, bits as u64);
        proof {
            lemma_pow128_concrete();
            lemma_var_enc_len(bits as nat, 5);
            lemma_var_enc_dec(bits as nat, 5, Seq::<u8>::empty());
            assert(self.spec_encoding() + Seq::<u8>::empty() =~= self.spec_encoding());
        }
        Ok(())
    }
}

// ---------------------------------------------------------------------
// VarLong

/// A variable-length encoded 64-bit integer.
#[derive(Debug, PartialEq, Eq, Structural, PartialOrd, Ord, Hash, Clone, Copy)]
pub struct VarLong(pub i64);

impl DeepView for VarLong {
    type V = i64;

    open spec fn deep_view(&self) -> i64 {
        self.0
    }
}

pub open spec fn spec_varlong_decode(s: Seq<u8>) -> Result<(i64, int), DecodeError> {
    match spec_var_dec(s, 10) {
        VarDecResult::Done { value, len } => Ok(
            (spec_u64_as_i64((value % 0x1_0000_0000_0000_0000) as u64), len as int),
        ),
        VarDecResult::Short => Err(DecodeError::UnexpectedEnd),
        VarDecResult::Over => Err(DecodeError::VarLongTooBig),
    }
}

impl MinecraftDataType for VarLong {
    open spec fn spec_encoding(&self) -> Seq<u8> {
        spec_var_enc(spec_i64_bits(self.0) as nat)
    }

    open spec fn spec_encodable(&self) -> bool {
        true
    }

    open spec fn spec_decode(s: Seq<u8>) -> Result<(i64, int), DecodeError> {
        spec_varlong_decode(s)
    }

    proof fn lemma_decode_extend(s: Seq<u8>, t: Seq<u8>) {
        if Self::spec_decode(s) is Ok {
            lemma_var_dec_extend(s, t, 10);
        }
    }

    proof fn lemma_decode_len(s: Seq<u8>) {
        if Self::spec_decode(s) is Ok {
            lemma_var_dec_bounds(s, 10);
        }
    }

    fn read_as_mc_type(reader: &mut ByteCursor) -> (res: Result<Self, DecodeError>) {
        match read_var_u128(reader, 10) {
            Ok(raw) => {
                let trimmed = (raw % 0x1_0000_0000_0000_0000) as u64;
                Ok(VarLong(u64_as_i64(trimmed)))
            },
            Err(e) => Err(e),
        }
    }

    fn write_as_mc_type(&self, writer: &mut Vec<u8>) -> (res: Result<(), EncodeError>) {
        let bits = i64_bits(self.0);
        write_var_u128(writer, bits as u128);
        proof {
            lemma_pow128_concrete();
            lemma_var_enc_len(bits as nat, 10);
            lemma_var_enc_dec(bits as nat, 10, Seq::<u8>::empty());
            assert(self.spec_encoding() + Seq::<u8>::empty() =~= self.spec_encoding());
        }
        Ok(())
    }
}

// ---------------------------------------------------------------------
// Shared exec loops for the two variable-length widths.

/// Reads a variable-length unsigned value of at most `max` bytes
/// (enough for the 32-bit width; the accumulator holds 5 * 7 bits).
fn read_var_u64(reader: &mut ByteCursor, max: usize) -> (res: Result<u64, DecodeError>)
    requires
        old(reader).wf(),
        1 <= max <= 5,
    ensures
        final(reader).wf(),
        final(reader).data@ == old(reader).data@,
        match res {
            Ok(v) => spec_var_dec(old(reader).suffix(), max as nat) matches VarDecResult::Done {
                value,
                len,
            } && v == value && final(reader).pos == old(reader).pos + len,
            Err(e) => final(reader).pos == old(reader).pos && (match spec_var_dec(
                old(reader).suffix(),
                max as nat,
            ) {
                VarDecResult::Short => e == DecodeError::UnexpectedEnd,
                VarDecResult::Over => e == DecodeError::VarLongTooBig,
                VarDecResult::Done { .. } => false,
            }),
        },
{
    let ghost s = old(reader).suffix();
    let mut idx: usize = 0;
    let mut acc: u64 = 0;
    let mut mult: u64 = 1;
    proof {
        assert(s.skip(0) =~= s);
    }
    loop
        invariant
            reader.wf(),
            reader.data@ == old(reader).data@,
            reader.pos == old(reader).pos,
            s == reader.suffix(),
            idx < max <= 5,
            idx <= s.len(),
            mult == pow128(idx as nat),
            acc < mult,
            spec_var_dec(s, max as nat) == lift_var_dec(
                spec_var_dec(s.skip(idx as int), (max - idx) as nat),
                acc as nat,
                mult as nat,
                idx as nat,
            ),
        decreases max - idx,
    {
        proof {
            lemma_pow128_mono(idx as nat, 4nat);
            lemma_pow128_concrete();
        }
        if idx >= reader.data.len() - reader.pos {
            proof {
                assert(s.skip(idx as int).len() == 0);
            }
            return Err(DecodeError::UnexpectedEnd);
        }
        let b = reader.data[reader.pos + idx];
        proof {
            assert(s.skip(idx as int)[0] == b);
        }
        if b < 128 {
            proof {
                assert((b as u64) * mult <= 127 * mult) by (nonlinear_arith)
                    requires
                        b <= 127,
                        mult >= 0,
                ;
                assert(spec_var_dec(s.skip(idx as int), (max - idx) as nat)
                    == (VarDecResult::Done { value: b as nat, len: 1 }));
            }
            let value = acc + (b as u64) * mult;
            proof {
                assert((b as u64) * mult == mult * (b as u64)) by (nonlinear_arith);
                assert(spec_var_dec(s, max as nat) == (VarDecResult::Done {
                    value: value as nat,
                    len: (idx + 1) as nat,
                }));
            }
            reader.pos = reader.pos + idx + 1;
            return Ok(value);
        }
        let group = (b - 128) as u64;
        proof {
            assert(group * mult <= 127 * mult) by (nonlinear_arith)
                requires
                    group <= 127,
                    mult >= 0,
            ;
        }
        let contribution = group * mult;
        acc = acc + contribution;
        idx = idx + 1;
        if idx == max {
            proof {
                assert(s.skip(idx - 1).skip(1) =~= s.skip(idx as int));
                assert(spec_var_dec(s.skip(idx - 1), 1nat) == VarDecResult::Over);
            }
            return Err(DecodeError::VarLongTooBig);
        }
        proof {
            lemma_var_step(s, idx as nat, max as nat, (acc - contribution) as nat, b, mult as nat);
            assert(acc as nat == (acc - contribution) as nat + (mult as nat) * ((b - 128) as nat))
                by (nonlinear_arith)
                requires
                    acc >= contribution,
                    contribution == group * mult,
                    group == b - 128,
                    b >= 128,
            ;
            assert(spec_var_dec(s, max as nat) == lift_var_dec(
                spec_var_dec(s.skip(idx as int), (max - idx) as nat),
                acc as nat,
                (mult * 128) as nat,
                idx as nat,
            ));
        }
        mult = mult * 128;
    }
}

/// Reads a variable-length unsigned value of at most `max` bytes
/// (enough for the 64-bit width; the accumulator holds 10 * 7 bits).
fn read_var_u128(reader: &mut ByteCursor, max: usize) -> (res: Result<u128, DecodeError>)
    requires
        old(reader).wf(),
        1 <= max <= 10,
    ensures
        final(reader).wf(),
        final(reader).data@ == old(reader).data@,
        match res {
            Ok(v) => spec_var_dec(old(reader).suffix(), max as nat) matches VarDecResult::Done {
                value,
                len,
            } && v == value && final(reader).pos == old(reader).pos + len,
            Err(e) => final(reader).pos == old(reader).pos && (match spec_var_dec(
                old(reader).suffix(),
                max as nat,
            ) {
                VarDecResult::Short => e == DecodeError::UnexpectedEnd,
                VarDecResult::Over => e == DecodeError::VarLongTooBig,
                VarDecResult::Done { .. } => false,
            }),
        },
{
    let ghost s = old(reader).suffix();
    let mut idx: usize = 0;
    let mut acc: u128 = 0;
    let mut mult: u128 = 1;
    proof {
        assert(s.skip(0) =~= s);
    }
    loop
        invariant
            reader.wf(),
            reader.data@ == old(reader).data@,
            reader.pos == old(reader).pos,
            s == reader.suffix(),
            idx < max <= 10,
            idx <= s.len(),
            mult == pow128(idx as nat),
            acc < mult,
            spec_var_dec(s, max as nat) == lift_var_dec(
                spec_var_dec(s.skip(idx as int), (max - idx) as nat),
                acc as nat,
                mult as nat,
                idx as nat,
            ),
        decreases max - idx,
    {
        proof {
            lemma_pow128_mono(idx as nat, 9nat);
            lemma_pow128_concrete();
        }
        if idx >= reader.data.len() - reader.pos {
            proof {
                assert(s.skip(idx as int).len() == 0);
            }
            return Err(DecodeError::UnexpectedEnd);
        }
        let b = reader.data[reader.pos + idx];
        proof {
            assert(s.skip(idx as int)[0] == b);
        }
        if b < 128 {
            proof {
                assert((b as u128) * mult <= 127 * mult) by (nonlinear_arith)
                    requires
                        b <= 127,
                        mult >= 0,
                ;
                assert(spec_var_dec(s.skip(idx as int), (max - idx) as nat)
                    == (VarDecResult::Done { value: b as nat, len: 1 }));
            }
            let value = acc + (b as u128) * mult;
            proof {
                assert((b as u128) * mult == mult * (b as u128)) by (nonlinear_arith);
                assert(spec_var_dec(s, max as nat) == (VarDecResult::Done {
                    value: value as nat,
                    len: (idx + 1) as nat,
                }));
            }
            reader.pos = reader.pos + idx + 1;
            return Ok(value);
        }
        let group = (b - 128) as u128;
        proof {
            assert(group * mult <= 127 * mult) by (nonlinear_arith)
                requires
                    group <= 127,
                    mult >= 0,
            ;
        }
        let contribution = group * mult;
        acc = acc + contribution;
        idx = idx + 1;
        if idx == max {
            proof {
                assert(s.skip(idx - 1).skip(1) =~= s.skip(idx as int));
                assert(spec_var_dec(s.skip(idx - 1), 1nat) == VarDecResult::Over);
            }
            return Err(DecodeError::VarLongTooBig);
        }
        proof {
            lemma_var_step(s, idx as nat, max as nat, (acc - contribution) as nat, b, mult as nat);
            assert(acc as nat == (acc - contribution) as nat + (mult as nat) * ((b - 128) as nat))
                by (nonlinear_arith)
                requires
                    acc >= contribution,
                    contribution == group * mult,
                    group == b - 128,
                    b >= 128,
            ;
            assert(spec_var_dec(s, max as nat) == lift_var_dec(
                spec_var_dec(s.skip(idx as int), (max - idx) as nat),
                acc as nat,
                (mult * 128) as nat,
                idx as nat,
            ));
        }
        mult = mult * 128;
    }
}

/// How a partially accumulated prefix combines with the decode of the
/// remaining bytes.
pub open spec fn lift_var_dec(r: VarDecResult, acc: nat, mult: nat, idx: nat) -> VarDecResult {
    match r {
        VarDecResult::Done { value, len } => VarDecResult::Done {
            value: acc + mult * value,
            len: idx + len,
        },
        other => other,
    }
}

proof fn lemma_pow128_pos(k: nat)
    ensures
        pow128(k) >= 1,
    decreases k,
{
    if k > 0 {
        lemma_pow128_pos((k - 1) as nat);
    }
}

proof fn lemma_pow128_mono(k: nat, j: nat)
    requires
        k <= j,
    ensures
        pow128(k) <= pow128(j),
    decreases j,
{
    if k < j {
        lemma_pow128_mono(k, (j - 1) as nat);
        lemma_pow128_pos((j - 1) as nat);
        assert(pow128(j) == 128 * pow128((j - 1) as nat));
    }
}

pub proof fn lemma_pow128_concrete()
    ensures
        pow128(4) == 0x1000_0000,
        pow128(5) == 0x8_0000_0000,
        pow128(9) == 0x8000_0000_0000_0000,
        pow128(10) == 0x40_0000_0000_0000_0000,
{
    reveal_with_fuel(pow128, 11);
}

/// One step of the accumulator loop agrees with one unfolding of the
/// recursive decode.
proof fn lemma_var_step(s: Seq<u8>, idx: nat, max: nat, acc: nat, b: u8, mult: nat)
    requires
        idx >= 1,
        idx < max,
        (idx - 1) < s.len(),
        s[idx - 1] == b,
        b >= 128,
        spec_var_dec(s, max) == lift_var_dec(
            spec_var_dec(s.skip(idx - 1), (max - idx + 1) as nat),
            acc,
            mult,
            (idx - 1) as nat,
        ),
    ensures
        spec_var_dec(s, max) == lift_var_dec(
            spec_var_dec(s.skip(idx as int), (max - idx) as nat),
            (acc + mult * (b - 128)) as nat,
            (mult * 128) as nat,
            idx,
        ),
{
    let prev = s.skip(idx - 1);
    assert(prev[0] == b);
    assert(prev.skip(1) =~= s.skip(idx as int));
    let inner = spec_var_dec(s.skip(idx as int), (max - idx) as nat);
    match inner {
        VarDecResult::Done { value, len } => {
            assert(spec_var_dec(prev, (max - idx + 1) as nat) == (VarDecResult::Done {
                value: (b - 128) as nat + 128 * value,
                len: len + 1,
            }));
            let g = (b - 128) as nat;
            assert(mult * (g + 128 * value) == mult * g + (mult * 128) * value)
                by (nonlinear_arith);
        },
        _ => {
            assert(spec_var_dec(prev, (max - idx + 1) as nat) == inner);
        },
    }
}

/// Appends the canonical variable-length encoding of `v` (32-bit range).
fn write_var_u64(writer: &mut Vec<u8>, v: u64)
    requires
        v < 0x1_0000_0000_0000_0000,
    ensures
        final(writer)@ == old(writer)@ + spec_var_enc(v as nat),
{
    let mut cur = v;
    let ghost mut written: Seq<u8> = Seq::empty();
    proof {
        assert(Seq::<u8>::empty() + spec_var_enc(v as nat) =~= spec_var_enc(v as nat));
    }
    loop
        invariant
            writer@ == old(writer)@ + written,
            spec_var_enc(v as nat) == written + spec_var_enc(cur as nat),
        decreases cur,
    {
        if cur < 128 {
            writer.push(cur as u8);
            proof {
                assert(writer@ =~= old(writer)@ + (written + spec_var_enc(cur as nat)));
            }
            return ;
        }
        writer.push((cur % 128 + 128) as u8);
        proof {
            written = written.push((cur % 128 + 128) as u8);
            assert(spec_var_enc(cur as nat) == seq![(cur as nat % 128 + 128) as u8] + spec_var_enc(
                cur as nat / 128,
            ));
            assert(writer@ =~= old(writer)@ + written);
            assert(spec_var_enc(v as nat) =~= written + spec_var_enc((cur / 128) as nat));
        }
        cur = cur / 128;
    }
}

/// Appends the canonical variable-length encoding of `v` (64-bit range).
fn write_var_u128(writer: &mut Vec<u8>, v: u128)
    ensures
        final(writer)@ == old(writer)@ + spec_var_enc(v as nat),
{
    let mut cur = v;
    let ghost mut written: Seq<u8> = Seq::empty();
    proof {
        assert(Seq::<u8>::empty() + spec_var_enc(v as nat) =~= spec_var_enc(v as nat));
    }
    loop
        invariant
            writer@ == old(writer)@ + written,
            spec_var_enc(v as nat) == written + spec_var_enc(cur as nat),
        decreases cur,
    {
        if cur < 128 {
            writer.push(cur as u8);
            proof {
                assert(writer@ =~= old(writer)@ + (written + spec_var_enc(cur as nat)));
            }
            return ;
        }
        writer.push((cur % 128 + 128) as u8);
        proof {
            written = written.push((cur % 128 + 128) as u8);
            assert(spec_var_enc(cur as nat) == seq![(cur as nat % 128 + 128) as u8] + spec_var_enc(
                cur as nat / 128,
            ));
            assert(writer@ =~= old(writer)@ + written);
            assert(spec_var_enc(v as nat) =~= written + spec_var_enc((cur / 128) as nat));
        }
        cur = cur / 128;
    }
}

// ---------------------------------------------------------------------
// Big-endian fixed-width integers.

/// Big-endian byte form of an unsigned value, `w` bytes wide.
pub open spec fn spec_be(v: nat, w: nat) -> Seq<u8>
    decreases w,
{
    if w == 0 {
        Seq::empty()
    } else {
        spec_be(v / 256, (w - 1) as nat) + seq![(v % 256) as u8]
    }
}

/// The unsigned value held by big-endian bytes.
pub open spec fn spec_be_val(s: Seq<u8>) -> nat
    decreases s.len(),
{
    if s.len() == 0 {
        0
    } else {
        spec_be_val(s.drop_last()) * 256 + (s.last() as nat)
    }
}

pub open spec fn pow256(k: nat) -> nat
    decreases k,
{
    if k == 0 {
        1
    } else {
        256 * pow256((k - 1) as nat)
    }
}

pub proof fn lemma_pow256_concrete()
    ensures
        pow256(1) == 0x100,
        pow256(2) == 0x1_0000,
        pow256(4) == 0x1_0000_0000,
        pow256(8) == 0x1_0000_0000_0000_0000,
{
    reveal_with_fuel(pow256, 9);
}

/// Big-endian bytes are exactly `w` long and decode back to the value.
pub proof fn lemma_be_round_trip(v: nat, w: nat)
    requires
        v < pow256(w),
    ensures
        spec_be(v, w).len() == w,
        spec_be_val(spec_be(v, w)) == v,
    decreases w,
{
    if w == 0 {
    } else {
        assert(pow256(w) == 256 * pow256((w - 1) as nat));
        assert(v / 256 < pow256((w - 1) as nat)) by {
            lemma_fundamental_div_mod(v as int, 256);
        }
        lemma_be_round_trip(v / 256, (w - 1) as nat);
        let s = spec_be(v, w);
        assert(s.drop_last() =~= spec_be(v / 256, (w - 1) as nat));
        assert(s.last() == (v % 256) as u8);
        assert((v / 256) * 256 + v % 256 == v) by {
            lemma_fundamental_div_mod(v as int, 256);
        }
    }
}

/// Exact decode of a `w`-byte big-endian field.
pub open spec fn spec_be_decode(s: Seq<u8>, w: nat) -> Result<(nat, int), DecodeError> {
    if s.len() < w {
        Err(DecodeError::UnexpectedEnd)
    } else {
        Ok((spec_be_val(s.subrange(0, w as int)), w as int))
    }
}

/// A `w`-byte field read from a prefix is unchanged by appending input.
pub proof fn lemma_be_decode_extend(s: Seq<u8>, t: Seq<u8>, w: nat)
    requires
        spec_be_decode(s, w) is Ok,
    ensures
        spec_be_decode(s + t, w) == spec_be_decode(s, w),
{
    assert((s + t).subrange(0, w as int) =~= s.subrange(0, w as int));
}

/// Reads `w` (at most 8) big-endian bytes into an unsigned value.
fn read_be_u64(reader: &mut ByteCursor, w: usize) -> (res: Result<u64, DecodeError>)
    requires
        old(reader).wf(),
        1 <= w <= 8,
    ensures
        final(reader).wf(),
        final(reader).data@ == old(reader).data@,
        match res {
            Ok(v) => spec_be_decode(old(reader).suffix(), w as nat) matches Ok(r) && v == r.0
                && final(reader).pos == old(reader).pos + r.1,
            Err(e) => spec_be_decode(old(reader).suffix(), w as nat) == Err::<
                (nat, int),
                DecodeError,
            >(e) && final(reader).pos == old(reader).pos,
        },
{
    let ghost s = old(reader).suffix();
    if w > reader.data.len() - reader.pos {
        return Err(DecodeError::UnexpectedEnd);
    }
    let mut acc: u64 = 0;
    let mut i: usize = 0;
    proof {
        assert(s.subrange(0, 0) =~= Seq::empty());
        lemma_pow256_concrete();
    }
    while i < w
        invariant
            reader.wf(),
            reader.data@ == old(reader).data@,
            reader.pos == old(reader).pos,
            s == reader.suffix(),
            i <= w <= 8,
            w <= s.len(),
            acc == spec_be_val(s.subrange(0, i as int)),
            acc < pow256(i as nat),
            pow256(8) == 0x1_0000_0000_0000_0000,
        decreases w - i,
    {
        let dlen = reader.data.len();
        proof {
            assert(s.len() == reader.data@.len() - reader.pos);
            assert(reader.pos + i < dlen);
            lemma_pow256_concrete();
            assert(acc * 256 + 255 < pow256((i + 1) as nat)) by {
                assert(pow256((i + 1) as nat) == 256 * pow256(i as nat));
                assert(acc <= pow256(i as nat) - 1);
                assert(acc * 256 <= (pow256(i as nat) - 1) * 256) by (nonlinear_arith)
                    requires
                        acc <= pow256(i as nat) - 1,
                ;
            }
            lemma_pow256_mono((i + 1) as nat, 8);
        }
        let b = reader.data[reader.pos + i];
        proof {
            assert(s[i as int] == b);
        }
        acc = acc * 256 + (b as u64);
        i += 1;
        proof {
            assert(s.subrange(0, i as int).drop_last() =~= s.subrange(0, i - 1));
            assert(s.subrange(0, i as int).last() == b);
        }
    }
    reader.pos = reader.pos + w;
    Ok(acc)
}

proof fn lemma_pow256_pos(k: nat)
    ensures
        pow256(k) >= 1,
    decreases k,
{
    if k > 0 {
        lemma_pow256_pos((k - 1) as nat);
    }
}

proof fn lemma_pow256_mono(k: nat, j: nat)
    requires
        k <= j,
    ensures
        pow256(k) <= pow256(j),
    decreases j,
{
    if k < j {
        lemma_pow256_mono(k, (j - 1) as nat);
        lemma_pow256_pos((j - 1) as nat);
        assert(pow256(j) == 256 * pow256((j - 1) as nat));
    }
}

/// Appends the `w` (at most 8) big-endian bytes of `v`, mirroring the
/// recursion of `spec_be`.
fn write_be_u64(writer: &mut Vec<u8>, v: u64, w: usize)
    requires
        w <= 8,
        (v as nat) < pow256(w as nat),
    ensures
        final(writer)@ == old(writer)@ + spec_be(v as nat, w as nat),
    decreases w,
{
    if w == 0 {
        proof {
            assert(old(writer)@ + spec_be(v as nat, 0) =~= old(writer)@);
        }
        return ;
    }
    proof {
        assert(pow256(w as nat) == 256 * pow256((w - 1) as nat));
        assert(((v / 256) as nat) < pow256((w - 1) as nat)) by {
            lemma_fundamental_div_mod(v as int, 256);
        }
    }
    write_be_u64(writer, v / 256, w - 1);
    writer.push((v % 256) as u8);
    proof {
        assert(final(writer)@ =~= old(writer)@ + spec_be(v as nat, w as nat));
    }
}

/// The value held by big-endian bytes fits their width.
pub proof fn lemma_be_val_bound(s: Seq<u8>)
    ensures
        spec_be_val(s) < pow256(s.len() as nat),
    decreases s.len(),
{
    if s.len() == 0 {
    } else {
        lemma_be_val_bound(s.drop_last());
        assert(pow256(s.len() as nat) == 256 * pow256((s.len() - 1) as nat));
        assert(spec_be_val(s.drop_last()) * 256 <= (pow256((s.len() - 1) as nat) - 1) * 256)
            by (nonlinear_arith)
            requires
                spec_be_val(s.drop_last()) <= pow256((s.len() - 1) as nat) - 1,
        ;
    }
}

// Narrow bit-pattern conversions, same shape as the 32/64-bit ones.

pub open spec fn spec_i8_bits(x: i8) -> u8 {
    if x >= 0 {
        x as u8
    } else {
        ((x as int) + 0x100) as u8
    }
}

pub open spec fn spec_u8_as_i8(v: u8) -> i8 {
    if v < 0x80 {
        v as i8
    } else {
        ((v as int) - 0x100) as i8
    }
}

pub open spec fn spec_i16_bits(x: i16) -> u16 {
    if x >= 0 {
        x as u16
    } else {
        ((x as int) + 0x1_0000) as u16
    }
}

pub open spec fn spec_u16_as_i16(v: u16) -> i16 {
    if v < 0x8000 {
        v as i16
    } else {
        ((v as int) - 0x1_0000) as i16
    }
}

pub fn i8_bits(x: i8) -> (r: u8)
    ensures
        r == spec_i8_bits(x),
{
    if x >= 0 {
        x as u8
    } else {
        ((x as i16) + 0x100) as u8
    }
}

pub fn u8_as_i8(v: u8) -> (r: i8)
    ensures
        r == spec_u8_as_i8(v),
{
    if v < 0x80 {
        v as i8
    } else {
        ((v as i16) - 0x100) as i8
    }
}

pub fn i16_bits(x: i16) -> (r: u16)
    ensures
        r == spec_i16_bits(x),
{
    if x >= 0 {
        x as u16
    } else {
        ((x as i32) + 0x1_0000) as u16
    }
}

pub fn u16_as_i16(v: u16) -> (r: i16)
    ensures
        r == spec_u16_as_i16(v),
{
    if v < 0x8000 {
        v as i16
    } else {
        ((v as i32) - 0x1_0000) as i16
    }
}

// ---------------------------------------------------------------------
// Scalar wire types.

impl MinecraftDataType for bool {
    open spec fn spec_encoding(&self) -> Seq<u8> {
        seq![if *self { 1u8 } else { 0u8 }]
    }

    open spec fn spec_encodable(&self) -> bool {
        true
    }

    open spec fn spec_decode(s: Seq<u8>) -> Result<(bool, int), DecodeError> {
        if s.len() < 1 {
            Err(DecodeError::UnexpectedEnd)
        } else {
            Ok((s[0] != 0, 1))
        }
    }

    proof fn lemma_decode_extend(s: Seq<u8>, t: Seq<u8>) {
        if s.len() >= 1 {
            assert((s + t)[0] == s[0]);
        }
    }

    proof fn lemma_decode_len(s: Seq<u8>) {
    }

    fn read_as_mc_type(reader: &mut ByteCursor) -> (res: Result<Self, DecodeError>) {
        match read_be_u64(reader, 1) {
            Ok(v) => {
                proof {
                    assert(spec_be_val(Seq::<u8>::empty()) == 0);
                    assert(old(reader).suffix().subrange(0, 1).drop_last() =~= Seq::<u8>::empty());
                    assert(old(reader).suffix().subrange(0, 1).last() == old(reader).suffix()[0]);
                    assert(spec_be_val(old(reader).suffix().subrange(0, 1)) == old(
                        reader,
                    ).suffix()[0] as nat);
                }
                Ok(v != 0)
            },
            Err(e) => Err(e),
        }
    }

    fn write_as_mc_type(&self, writer: &mut Vec<u8>) -> (res: Result<(), EncodeError>) {
        writer.push(if *self { 1u8 } else { 0u8 });
        proof {
            assert(final(writer)@ =~= old(writer)@ + self.spec_encoding());
        }
        Ok(())
    }
}

impl MinecraftDataType for u8 {
    open spec fn spec_encoding(&self) -> Seq<u8> {
        seq![*self]
    }

    open spec fn spec_encodable(&self) -> bool {
        true
    }

    open spec fn spec_decode(s: Seq<u8>) -> Result<(u8, int), DecodeError> {
        if s.len() < 1 {
            Err(DecodeError::UnexpectedEnd)
        } else {
            Ok((s[0], 1))
        }
    }

    proof fn lemma_decode_extend(s: Seq<u8>, t: Seq<u8>) {
        if s.len() >= 1 {
            assert((s + t)[0] == s[0]);
        }
    }

    proof fn lemma_decode_len(s: Seq<u8>) {
    }

    fn read_as_mc_type(reader: &mut ByteCursor) -> (res: Result<Self, DecodeError>) {
        match read_be_u64(reader, 1) {
            Ok(v) => {
                proof {
                    assert(spec_be_val(Seq::<u8>::empty()) == 0);
                    assert(old(reader).suffix().subrange(0, 1).drop_last() =~= Seq::<u8>::empty());
                    assert(old(reader).suffix().subrange(0, 1).last() == old(reader).suffix()[0]);
                    assert(spec_be_val(old(reader).suffix().subrange(0, 1)) == old(
                        reader,
                    ).suffix()[0] as nat);
                }
                Ok(v as u8)
            },
            Err(e) => Err(e),
        }
    }

    fn write_as_mc_type(&self, writer: &mut Vec<u8>) -> (res: Result<(), EncodeError>) {
        writer.push(*self);
        proof {
            assert(final(writer)@ =~= old(writer)@ + self.spec_encoding());
        }
        Ok(())
    }
}

impl MinecraftDataType for i8 {
    open spec fn spec_encoding(&self) -> Seq<u8> {
        seq![spec_i8_bits(*self)]
    }

    open spec fn spec_encodable(&self) -> bool {
        true
    }

    open spec fn spec_decode(s: Seq<u8>) -> Result<(i8, int), DecodeError> {
        if s.len() < 1 {
            Err(DecodeError::UnexpectedEnd)
        } else {
            Ok((spec_u8_as_i8(s[0]), 1))
        }
    }

    proof fn lemma_decode_extend(s: Seq<u8>, t: Seq<u8>) {
        if s.len() >= 1 {
            assert((s + t)[0] == s[0]);
        }
    }

    proof fn lemma_decode_len(s: Seq<u8>) {
    }

    fn read_as_mc_type(reader: &mut ByteCursor) -> (res: Result<Self, DecodeError>) {
        match read_be_u64(reader, 1) {
            Ok(v) => {
                proof {
                    assert(spec_be_val(Seq::<u8>::empty()) == 0);
                    assert(old(reader).suffix().subrange(0, 1).drop_last() =~= Seq::<u8>::empty());
                    assert(old(reader).suffix().subrange(0, 1).last() == old(reader).suffix()[0]);
                    assert(spec_be_val(old(reader).suffix().subrange(0, 1)) == old(
                        reader,
                    ).suffix()[0] as nat);
                }
                Ok(u8_as_i8(v as u8))
            },
            Err(e) => Err(e),
        }
    }

    fn write_as_mc_type(&self, writer: &mut Vec<u8>) -> (res: Result<(), EncodeError>) {
        writer.push(i8_bits(*self));
        proof {
            assert(final(writer)@ =~= old(writer)@ + self.spec_encoding());
        }
        Ok(())
    }
}

impl MinecraftDataType for u16 {
    open spec fn spec_encoding(&self) -> Seq<u8> {
        spec_be(*self as nat, 2)
    }

    open spec fn spec_encodable(&self) -> bool {
        true
    }

    open spec fn spec_decode(s: Seq<u8>) -> Result<(u16, int), DecodeError> {
        match spec_be_decode(s, 2) {
            Ok(r) => Ok(((r.0 % 0x1_0000) as u16, 2)),
            Err(e) => Err(e),
        }
    }

    proof fn lemma_decode_extend(s: Seq<u8>, t: Seq<u8>) {
        if Self::spec_decode(s) is Ok {
            lemma_be_decode_extend(s, t, 2);
        }
    }

    proof fn lemma_decode_len(s: Seq<u8>) {
    }

    fn read_as_mc_type(reader: &mut ByteCursor) -> (res: Result<Self, DecodeError>) {
        match read_be_u64(reader, 2) {
            Ok(v) => {
                proof {
                    lemma_be_val_bound(old(reader).suffix().subrange(0, 2));
                    lemma_pow256_concrete();
                }
                Ok(v as u16)
            },
            Err(e) => Err(e),
        }
    }

    fn write_as_mc_type(&self, writer: &mut Vec<u8>) -> (res: Result<(), EncodeError>) {
        proof {
            lemma_pow256_concrete();
            lemma_be_round_trip(*self as nat, 2);
            assert(self.spec_encoding().subrange(0, 2) =~= self.spec_encoding());
        }
        write_be_u64(writer, *self as u64, 2);
        Ok(())
    }
}

impl MinecraftDataType for i16 {
    open spec fn spec_encoding(&self) -> Seq<u8> {
        spec_be(spec_i16_bits(*self) as nat, 2)
    }

    open spec fn spec_encodable(&self) -> bool {
        true
    }

    open spec fn spec_decode(s: Seq<u8>) -> Result<(i16, int), DecodeError> {
        match spec_be_decode(s, 2) {
            Ok(r) => Ok((spec_u16_as_i16((r.0 % 0x1_0000) as u16), 2)),
            Err(e) => Err(e),
        }
    }

    proof fn lemma_decode_extend(s: Seq<u8>, t: Seq<u8>) {
        if Self::spec_decode(s) is Ok {
            lemma_be_decode_extend(s, t, 2);
        }
    }

    proof fn lemma_decode_len(s: Seq<u8>) {
    }

    fn read_as_mc_type(reader: &mut ByteCursor) -> (res: Result<Self, DecodeError>) {
        match read_be_u64(reader, 2) {
            Ok(v) => {
                proof {
                    lemma_be_val_bound(old(reader).suffix().subrange(0, 2));
                    lemma_pow256_concrete();
                }
                Ok(u16_as_i16(v as u16))
            },
            Err(e) => Err(e),
        }
    }

    fn write_as_mc_type(&self, writer: &mut Vec<u8>) -> (res: Result<(), EncodeError>) {
        let bits = i16_bits(*self);
        proof {
            lemma_pow256_concrete();
            lemma_be_round_trip(bits as nat, 2);
            assert(self.spec_encoding().subrange(0, 2) =~= self.spec_encoding());
        }
        write_be_u64(writer, bits as u64, 2);
        Ok(())
    }
}

impl MinecraftDataType for i32 {
    open spec fn spec_encoding(&self) -> Seq<u8> {
        spec_be(spec_i32_bits(*self) as nat, 4)
    }

    open spec fn spec_encodable(&self) -> bool {
        true
    }

    open spec fn spec_decode(s: Seq<u8>) -> Result<(i32, int), DecodeError> {
        match spec_be_decode(s, 4) {
            Ok(r) => Ok((spec_u32_as_i32((r.0 % 0x1_0000_0000) as u32), 4)),
            Err(e) => Err(e),
        }
    }

    proof fn lemma_decode_extend(s: Seq<u8>, t: Seq<u8>) {
        if Self::spec_decode(s) is Ok {
            lemma_be_decode_extend(s, t, 4);
        }
    }

    proof fn lemma_decode_len(s: Seq<u8>) {
    }

    fn read_as_mc_type(reader: &mut ByteCursor) -> (res: Result<Self, DecodeError>) {
        match read_be_u64(reader, 4) {
            Ok(v) => {
                proof {
                    lemma_be_val_bound(old(reader).suffix().subrange(0, 4));
                    lemma_pow256_concrete();
                }
                Ok(u32_as_i32(v as u32))
            },
            Err(e) => Err(e),
        }
    }

    fn write_as_mc_type(&self, writer: &mut Vec<u8>) -> (res: Result<(), EncodeError>) {
        let bits = i32_bits(*self);
        proof {
            lemma_pow256_concrete();
            lemma_be_round_trip(bits as nat, 4);
            assert(self.spec_encoding().subrange(0, 4) =~= self.spec_encoding());
        }
        write_be_u64(writer, bits as u64, 4);
        Ok(())
    }
}

impl MinecraftDataType for i64 {
    open spec fn spec_encoding(&self) -> Seq<u8> {
        spec_be(spec_i64_bits(*self) as nat, 8)
    }

    open spec fn spec_encodable(&self) -> bool {
        true
    }

    open spec fn spec_decode(s: Seq<u8>) -> Result<(i64, int), DecodeError> {
        match spec_be_decode(s, 8) {
            Ok(r) => Ok((spec_u64_as_i64((r.0 % 0x1_0000_0000_0000_0000) as u64), 8)),
            Err(e) => Err(e),
        }
    }

    proof fn lemma_decode_extend(s: Seq<u8>, t: Seq<u8>) {
        if Self::spec_decode(s) is Ok {
            lemma_be_decode_extend(s, t, 8);
        }
    }

    proof fn lemma_decode_len(s: Seq<u8>) {
    }

    fn read_as_mc_type(reader: &mut ByteCursor) -> (res: Result<Self, DecodeError>) {
        match read_be_u64(reader, 8) {
            Ok(v) => {
                proof {
                    lemma_be_val_bound(old(reader).suffix().subrange(0, 8));
                    lemma_pow256_concrete();
                }
                Ok(u64_as_i64(v))
            },
            Err(e) => Err(e),
        }
    }

    fn write_as_mc_type(&self, writer: &mut Vec<u8>) -> (res: Result<(), EncodeError>) {
        let bits = i64_bits(*self);
        proof {
            lemma_pow256_concrete();
            lemma_be_round_trip(bits as nat, 8);
            assert(self.spec_encoding().subrange(0, 8) =~= self.spec_encoding());
        }
        write_be_u64(writer, bits, 8);
        Ok(())
    }
}

// ---------------------------------------------------------------------
// UUID: sixteen raw bytes, no internal framing.

/// A 16-byte universally unique identifier, held as its raw bytes.
#[derive(Debug, PartialEq, Eq, Clone)]
pub struct UUID {
    pub bytes: Vec<u8>,
}

impl UUID {
    pub open spec fn wf(&self) -> bool {
        self.bytes@.len() == 16
    }
}

impl DeepView for UUID {
    type V = Seq<u8>;

    open spec fn deep_view(&self) -> Seq<u8> {
        self.bytes@
    }
}

impl MinecraftDataType for UUID {
    open spec fn spec_encoding(&self) -> Seq<u8> {
        self.bytes@
    }

    open spec fn spec_encodable(&self) -> bool {
        self.wf()
    }

    open spec fn spec_decode(s: Seq<u8>) -> Result<(Seq<u8>, int), DecodeError> {
        if s.len() < 16 {
            Err(DecodeError::UnexpectedEnd)
        } else {
            Ok((s.subrange(0, 16), 16))
        }
    }

    proof fn lemma_decode_extend(s: Seq<u8>, t: Seq<u8>) {
        if s.len() >= 16 {
            assert((s + t).subrange(0, 16) =~= s.subrange(0, 16));
        }
    }

    proof fn lemma_decode_len(s: Seq<u8>) {
    }

    fn read_as_mc_type(reader: &mut ByteCursor) -> (res: Result<Self, DecodeError>) {
        match reader.take_bytes(16) {
            Ok(bytes) => Ok(UUID { bytes }),
            Err(e) => Err(e),
        }
    }

    fn write_as_mc_type(&self, writer: &mut Vec<u8>) -> (res: Result<(), EncodeError>) {
        if self.bytes.len() != 16 {
            return Err(EncodeError::MalformedValue);
        }
        append_bytes(writer, &self.bytes);
        proof {
            assert(self.bytes@.subrange(0, 16) =~= self.bytes@);
        }
        Ok(())
    }
}

// ---------------------------------------------------------------------
// Strings: a VarInt byte length followed by UTF-8 bytes.

/// Relies on String::from_utf8: it returns a string exactly when the
/// bytes are valid UTF-8, and that string decodes them, in the sense of
/// vstd's model of UTF-8.
#[verifier::external_body]
fn string_from_utf8(bytes: Vec<u8>) -> (r: Option<String>)
    ensures
        r matches Some(s) ==> valid_utf8(bytes@) && s@ == decode_utf8(bytes@),
        r is None ==> !valid_utf8(bytes@),
{
    String::from_utf8(bytes).ok()
}

pub open spec fn spec_string_decode(s: Seq<u8>) -> Result<(Seq<char>, int), DecodeError> {
    match spec_var_dec(s, 5) {
        VarDecResult::Done { value, len } => {
            let n = spec_u32_as_i32((value % 0x1_0000_0000) as u32);
            if n < 0 {
                Err(DecodeError::NegativeLength)
            } else if s.len() < len + n {
                Err(DecodeError::UnexpectedEnd)
            } else {
                let b = s.subrange(len as int, len as int + n);
                if valid_utf8(b) {
                    Ok((decode_utf8(b), len + n))
                } else {
                    Err(DecodeError::InvalidUtf8)
                }
            }
        },
        VarDecResult::Short => Err(DecodeError::UnexpectedEnd),
        VarDecResult::Over => Err(DecodeError::VarIntTooBig),
    }
}

impl MinecraftDataType for String {
    open spec fn spec_encoding(&self) -> Seq<u8> {
        spec_var_enc(encode_utf8(self@).len()) + encode_utf8(self@)
    }

    open spec fn spec_encodable(&self) -> bool {
        encode_utf8(self@).len() <= 0x7fff_ffff
    }

    open spec fn spec_decode(s: Seq<u8>) -> Result<(Seq<char>, int), DecodeError> {
        spec_string_decode(s)
    }

    proof fn lemma_decode_extend(s: Seq<u8>, t: Seq<u8>) {
        if Self::spec_decode(s) is Ok {
            lemma_var_dec_extend(s, t, 5);
            let r = spec_var_dec(s, 5);
            let len = r->Done_len;
            let value = r->Done_value;
            let n = spec_u32_as_i32((value % 0x1_0000_0000) as u32);
            assert((s + t).subrange(len as int, len as int + n) =~= s.subrange(
                len as int,
                len as int + n,
            ));
        }
    }

    proof fn lemma_decode_len(s: Seq<u8>) {
        if Self::spec_decode(s) is Ok {
            lemma_var_dec_bounds(s, 5);
        }
    }

    fn read_as_mc_type(reader: &mut ByteCursor) -> (res: Result<Self, DecodeError>) {
        let start = reader.pos;
        let ghost s = old(reader).suffix();
        let n = match VarInt::read_as_mc_type(reader) {
            Ok(v) => v,
            Err(e) => {
                return Err(e);
            },
        };
        let ghost plen = reader.pos - start;
        if n.0 < 0 {
            reader.pos = start;
            return Err(DecodeError::NegativeLength);
        }
        proof {
            lemma_var_dec_bounds(s, 5);
            assert(reader.suffix() =~= s.skip(plen as int));
        }
        let bytes = match reader.take_bytes(n.0 as usize) {
            Ok(b) => b,
            Err(e) => {
                reader.pos = start;
                proof {
                    assert(s.skip(plen as int).len() == s.len() - plen);
                }
                return Err(e);
            },
        };
        proof {
            assert(bytes@ =~= s.subrange(plen as int, plen as int + n.0));
        }
        match string_from_utf8(bytes) {
            Some(text) => Ok(text),
            None => {
                reader.pos = start;
                Err(DecodeError::InvalidUtf8)
            },
        }
    }

    fn write_as_mc_type(&self, writer: &mut Vec<u8>) -> (res: Result<(), EncodeError>) {
        let mut bytes = self.as_str().as_bytes_vec();
        if bytes.len() > 0x7fff_ffff {
            return Err(EncodeError::LengthTooLong);
        }
        let n = VarInt(bytes.len() as i32);
        let r = n.write_as_mc_type(writer);
        proof {
            assert(r is Ok);
        }
        writer.append(&mut bytes);
        proof {
            assert(spec_i32_bits(n.0) == encode_utf8(self@).len());
            assert(final(writer)@ =~= old(writer)@ + self.spec_encoding());
            lemma_string_encoding_decodes(self@);
        }
        Ok(())
    }
}

/// The canonical string encoding decodes back to the same characters.
proof fn lemma_string_encoding_decodes(cs: Seq<char>)
    requires
        encode_utf8(cs).len() <= 0x7fff_ffff,
    ensures
        spec_string_decode(spec_var_enc(encode_utf8(cs).len()) + encode_utf8(cs)) == Ok::<
            (Seq<char>, int),
            DecodeError,
        >((cs, (spec_var_enc(encode_utf8(cs).len()).len() + encode_utf8(cs).len()) as int)),
{
    let b = encode_utf8(cs);
    let prefix = spec_var_enc(b.len());
    let s = prefix + b;
    lemma_pow128_concrete();
    lemma_var_enc_len(b.len(), 5);
    lemma_var_enc_dec(b.len(), 5, b);
    assert(spec_var_dec(s, 5) == (VarDecResult::Done { value: b.len(), len: prefix.len() }));
    assert(s.subrange(prefix.len() as int, prefix.len() as int + b.len()) =~= b);
    encode_utf8_valid_utf8(cs);
    encode_utf8_decode_utf8(cs);
}

// ---------------------------------------------------------------------
// Identifier: a `namespace:path` pair carried as one string.

/// How many times `c` occurs among the characters.
pub open spec fn count_char(cs: Seq<char>, c: char) -> nat
    decreases cs.len(),
{
    if cs.len() == 0 {
        0
    } else {
        (if cs[0] == c {
            1nat
        } else {
            0nat
        }) + count_char(cs.drop_first(), c)
    }
}

/// The position of the one occurrence, meaningful when the count is 1.
pub open spec fn char_position(cs: Seq<char>, c: char) -> int {
    choose|i: int| 0 <= i < cs.len() && cs[i] == c
}

pub proof fn lemma_count_char_concat(a: Seq<char>, b: Seq<char>, c: char)
    ensures
        count_char(a + b, c) == count_char(a, c) + count_char(b, c),
    decreases a.len(),
{
    if a.len() == 0 {
        assert(a + b =~= b);
    } else {
        assert((a + b)[0] == a[0]);
        assert((a + b).drop_first() =~= a.drop_first() + b);
        lemma_count_char_concat(a.drop_first(), b, c);
    }
}

/// A count of zero means the character never occurs.
pub proof fn lemma_count_char_zero(cs: Seq<char>, c: char)
    requires
        count_char(cs, c) == 0,
    ensures
        forall|i: int| 0 <= i < cs.len() ==> cs[i] != c,
    decreases cs.len(),
{
    if cs.len() > 0 {
        assert(cs[0] != c);
        assert(count_char(cs.drop_first(), c) == 0);
        lemma_count_char_zero(cs.drop_first(), c);
        assert forall|i: int| 0 <= i < cs.len() implies cs[i] != c by {
            if i >= 1 {
                assert(cs[i] == cs.drop_first()[i - 1]);
            }
        }
    }
}

/// A count of one means there is exactly one occurrence.
pub proof fn lemma_count_char_one(cs: Seq<char>, c: char)
    requires
        count_char(cs, c) == 1,
    ensures
        0 <= char_position(cs, c) < cs.len(),
        cs[char_position(cs, c)] == c,
        forall|i: int| 0 <= i < cs.len() && cs[i] == c ==> i == char_position(cs, c),
    decreases cs.len(),
{
    if cs[0] == c {
        assert(count_char(cs.drop_first(), c) == 0);
        lemma_count_char_zero(cs.drop_first(), c);
        assert forall|i: int| 0 <= i < cs.len() && cs[i] == c implies i == 0 by {
            if i >= 1 {
                assert(cs[i] == cs.drop_first()[i - 1]);
            }
        }
        assert(exists|i: int| 0 <= i < cs.len() && cs[i] == c) by {
            assert(0 <= 0 < cs.len() && cs[0int] == c);
        }
        assert(char_position(cs, c) == 0);
    } else {
        assert(count_char(cs.drop_first(), c) == 1);
        lemma_count_char_one(cs.drop_first(), c);
        let p = char_position(cs.drop_first(), c);
        assert(cs[p + 1] == cs.drop_first()[p]);
        assert forall|i: int| 0 <= i < cs.len() && cs[i] == c implies i == p + 1 by {
            if i >= 1 {
                assert(cs[i] == cs.drop_first()[i - 1]);
            }
        }
        assert(exists|i: int| 0 <= i < cs.len() && cs[i] == c) by {
            assert(0 <= p + 1 < cs.len() && cs[p + 1] == c);
        }
        assert(char_position(cs, c) == p + 1);
    }
}

/// Counts the occurrences of `c` and reports the index of one of them.
fn scan_char(s: &String, c: char) -> (r: (usize, usize))
    ensures
        r.0 == count_char(s@, c),
        count_char(s@, c) >= 1 ==> r.1 < s@.len() && s@[r.1 as int] == c,
{
    let n = s.as_str().unicode_len();
    let mut i: usize = 0;
    let mut count: usize = 0;
    let mut found: usize = 0;
    proof {
        assert(s@.skip(0) =~= s@);
    }
    while i < n
        invariant
            i <= n == s@.len(),
            count <= i,
            count + count_char(s@.skip(i as int), c) == count_char(s@, c),
            count >= 1 ==> found < s@.len() && s@[found as int] == c,
            count == 0 ==> count_char(s@, c) == count_char(s@.skip(i as int), c),
        decreases n - i,
    {
        let ch = s.as_str().get_char(i);
        proof {
            assert(s@.skip(i as int)[0] == s@[i as int]);
            assert(s@.skip(i as int).drop_first() =~= s@.skip(i + 1));
            assert(count_char(s@.skip(i as int), c) == (if s@[i as int] == c {
                1nat
            } else {
                0nat
            }) + count_char(s@.skip(i + 1), c));
        }
        if ch == c {
            count = count + 1;
            found = i;
        }
        i += 1;
    }
    proof {
        assert(s@.skip(n as int).len() == 0);
    }
    (count, found)
}

/// A name of the form `namespace:path`; on the wire it is the combined
/// string, which must contain exactly one colon.
#[derive(Debug, PartialEq, Eq, Clone)]
pub struct Identifier {
    pub namespace: String,
    pub path: String,
}

impl Identifier {
    pub fn new(namespace: String, path: String) -> (r: Identifier)
        ensures
            r.namespace@ == namespace@,
            r.path@ == path@,
    {
        Identifier { namespace, path }
    }

    /// The characters this identifier sends on the wire.
    pub open spec fn spec_chars(&self) -> Seq<char> {
        self.namespace@ + seq![':'] + self.path@
    }
}

pub struct IdentifierView {
    pub namespace: Seq<char>,
    pub path: Seq<char>,
}

impl DeepView for Identifier {
    type V = IdentifierView;

    open spec fn deep_view(&self) -> IdentifierView {
        IdentifierView { namespace: self.namespace@, path: self.path@ }
    }
}

impl MinecraftDataType for Identifier {
    open spec fn spec_encoding(&self) -> Seq<u8> {
        spec_var_enc(encode_utf8(self.spec_chars()).len()) + encode_utf8(self.spec_chars())
    }

    open spec fn spec_encodable(&self) -> bool {
        &&& encode_utf8(self.spec_chars()).len() <= 0x7fff_ffff
        &&& count_char(self.namespace@, ':') == 0
        &&& count_char(self.path@, ':') == 0
    }

    open spec fn spec_decode(s: Seq<u8>) -> Result<(IdentifierView, int), DecodeError> {
        match spec_string_decode(s) {
            Ok((cs, n)) => {
                if count_char(cs, ':') == 1 {
                    let p = char_position(cs, ':');
                    Ok(
                        (
                            IdentifierView {
                                namespace: cs.subrange(0, p),
                                path: cs.subrange(p + 1, cs.len() as int),
                            },
                            n,
                        ),
                    )
                } else {
                    Err(DecodeError::InvalidIdentifier)
                }
            },
            Err(e) => Err(e),
        }
    }

    proof fn lemma_decode_extend(s: Seq<u8>, t: Seq<u8>) {
        if Self::spec_decode(s) is Ok {
            String::lemma_decode_extend(s, t);
        }
    }

    proof fn lemma_decode_len(s: Seq<u8>) {
        if Self::spec_decode(s) is Ok {
            String::lemma_decode_len(s);
        }
    }

    fn read_as_mc_type(reader: &mut ByteCursor) -> (res: Result<Self, DecodeError>) {
        let start = reader.pos;
        let text = match String::read_as_mc_type(reader) {
            Ok(t) => t,
            Err(e) => {
                return Err(e);
            },
        };
        let (count, colon) = scan_char(&text, ':');
        if count != 1 {
            reader.pos = start;
            return Err(DecodeError::InvalidIdentifier);
        }
        proof {
            lemma_count_char_one(text@, ':');
        }
        let n = text.as_str().unicode_len();
        let namespace = text.as_str().substring_char(0, colon).to_owned();
        let path = text.as_str().substring_char(colon + 1, n).to_owned();
        Ok(Identifier { namespace, path })
    }

    fn write_as_mc_type(&self, writer: &mut Vec<u8>) -> (res: Result<(), EncodeError>) {
        let (ns_count, _) = scan_char(&self.namespace, ':');
        let (path_count, _) = scan_char(&self.path, ':');
        if ns_count != 0 || path_count != 0 {
            return Err(EncodeError::MalformedValue);
        }
        let mut full = self.namespace.clone();
        full.append(":");
        full.append(self.path.as_str());
        proof {
            reveal_strlit(":");
            assert(full@ =~= self.spec_chars());
        }
        let r = full.write_as_mc_type(writer);
        match r {
            Ok(_) => {
                proof {
                    lemma_ident_chars_split(self.namespace@, self.path@);
                }
                Ok(())
            },
            Err(e) => Err(e),
        }
    }
}

/// Splitting `namespace + ":" + path` at its one colon gives the parts
/// back, provided neither part contains a colon.
proof fn lemma_ident_chars_split(ns: Seq<char>, p: Seq<char>)
    requires
        count_char(ns, ':') == 0,
        count_char(p, ':') == 0,
    ensures
        count_char(ns + seq![':'] + p, ':') == 1,
        char_position(ns + seq![':'] + p, ':') == ns.len(),
        (ns + seq![':'] + p).subrange(0, ns.len() as int) == ns,
        (ns + seq![':'] + p).subrange(ns.len() + 1 as int, (ns + seq![':'] + p).len() as int) == p,
{
    let cs = ns + seq![':'] + p;
    lemma_count_char_concat(ns + seq![':'], p, ':');
    lemma_count_char_concat(ns, seq![':'], ':');
    assert(count_char(seq![':'], ':') == 1) by {
        assert(count_char(Seq::<char>::empty(), ':') == 0);
        assert(seq![':'].drop_first() =~= Seq::<char>::empty());
    }
    lemma_count_char_one(cs, ':');
    assert(cs[ns.len() as int] == ':');
    assert(cs.subrange(0, ns.len() as int) =~= ns);
    assert(cs.subrange(ns.len() + 1 as int, cs.len() as int) =~= p);
}

// ---------------------------------------------------------------------
// Angle: one byte, 1/256ths of a full turn.

/// An angle in steps of 1/256 of a full turn.
#[derive(Debug, PartialEq, Eq, Structural, Clone, Copy)]
pub struct Angle(pub Byte);

impl DeepView for Angle {
    type V = Angle;

    open spec fn deep_view(&self) -> Angle {
        *self
    }
}

impl MinecraftDataType for Angle {
    open spec fn spec_encoding(&self) -> Seq<u8> {
        seq![spec_i8_bits(self.0)]
    }

    open spec fn spec_encodable(&self) -> bool {
        true
    }

    open spec fn spec_decode(s: Seq<u8>) -> Result<(Angle, int), DecodeError> {
        if s.len() < 1 {
            Err(DecodeError::UnexpectedEnd)
        } else {
            Ok((Angle(spec_u8_as_i8(s[0])), 1))
        }
    }

    proof fn lemma_decode_extend(s: Seq<u8>, t: Seq<u8>) {
        if s.len() >= 1 {
            assert((s + t)[0] == s[0]);
        }
    }

    proof fn lemma_decode_len(s: Seq<u8>) {
    }

    fn read_as_mc_type(reader: &mut ByteCursor) -> (res: Result<Self, DecodeError>) {
        match i8::read_as_mc_type(reader) {
            Ok(v) => Ok(Angle(v)),
            Err(e) => Err(e),
        }
    }

    fn write_as_mc_type(&self, writer: &mut Vec<u8>) -> (res: Result<(), EncodeError>) {
        self.0.write_as_mc_type(writer)
    }
}

// ---------------------------------------------------------------------
// Position: x, z and y packed into one 64-bit big-endian integer as
// bit fields of 26, 26 and 12 bits.

/// A block position; `x` and `z` carry 26 bits each and `y` 12 bits.
#[derive(Debug, PartialEq, Eq, Structural, Clone, Copy)]
pub struct Position {
    pub x: i32,
    pub y: i16,
    pub z: i32,
}

/// Sign extension of a 26-bit field.
pub open spec fn spec_sign26(u: nat) -> i32 {
    if u < 0x200_0000 {
        u as i32
    } else {
        ((u as int) - 0x400_0000) as i32
    }
}

/// Sign extension of a 12-bit field.
pub open spec fn spec_sign12(u: nat) -> i16 {
    if u < 0x800 {
        u as i16
    } else {
        ((u as int) - 0x1000) as i16
    }
}

/// The packed 64-bit value of a position.
pub open spec fn spec_position_bits(p: Position) -> nat {
    (spec_i32_bits(p.x) as nat % 0x400_0000) * 0x40_0000_0000 + (spec_i32_bits(p.z) as nat
        % 0x400_0000) * 0x1000 + (spec_i16_bits(p.y) as nat % 0x1000)
}

impl DeepView for Position {
    type V = Position;

    open spec fn deep_view(&self) -> Position {
        *self
    }
}

impl MinecraftDataType for Position {
    open spec fn spec_encoding(&self) -> Seq<u8> {
        spec_be(spec_position_bits(*self), 8)
    }

    open spec fn spec_encodable(&self) -> bool {
        &&& -0x200_0000 <= self.x < 0x200_0000
        &&& -0x800 <= self.y < 0x800
        &&& -0x200_0000 <= self.z < 0x200_0000
    }

    open spec fn spec_decode(s: Seq<u8>) -> Result<(Position, int), DecodeError> {
        match spec_be_decode(s, 8) {
            Ok(r) => Ok(
                (
                    Position {
                        x: spec_sign26((r.0 / 0x40_0000_0000) % 0x400_0000),
                        y: spec_sign12(r.0 % 0x1000),
                        z: spec_sign26((r.0 / 0x1000) % 0x400_0000),
                    },
                    8,
                ),
            ),
            Err(e) => Err(e),
        }
    }

    proof fn lemma_decode_extend(s: Seq<u8>, t: Seq<u8>) {
        if Self::spec_decode(s) is Ok {
            lemma_be_decode_extend(s, t, 8);
        }
    }

    proof fn lemma_decode_len(s: Seq<u8>) {
    }

    fn read_as_mc_type(reader: &mut ByteCursor) -> (res: Result<Self, DecodeError>) {
        let v = match read_be_u64(reader, 8) {
            Ok(v) => v,
            Err(e) => {
                return Err(e);
            },
        };
        let xf = (v / 0x40_0000_0000) % 0x400_0000;
        let zf = (v / 0x1000) % 0x400_0000;
        let yf = v % 0x1000;
        let x = if xf < 0x200_0000 {
            xf as i32
        } else {
            ((xf as i64) - 0x400_0000) as i32
        };
        let z = if zf < 0x200_0000 {
            zf as i32
        } else {
            ((zf as i64) - 0x400_0000) as i32
        };
        let y = if yf < 0x800 {
            yf as i16
        } else {
            ((yf as i64) - 0x1000) as i16
        };
        Ok(Position { x, y, z })
    }

    fn write_as_mc_type(&self, writer: &mut Vec<u8>) -> (res: Result<(), EncodeError>) {
        if !(-0x200_0000 <= self.x && self.x < 0x200_0000) || !(-0x800 <= self.y && self.y < 0x800)
            || !(-0x200_0000 <= self.z && self.z < 0x200_0000) {
            return Err(EncodeError::MalformedValue);
        }
        let xm = (i32_bits(self.x) % 0x400_0000) as u64;
        let zm = (i32_bits(self.z) % 0x400_0000) as u64;
        let ym = (i16_bits(self.y) % 0x1000) as u64;
        let bits = xm * 0x40_0000_0000 + zm * 0x1000 + ym;
        proof {
            lemma_pow256_concrete();
        }
        write_be_u64(writer, bits, 8);
        proof {
            lemma_be_round_trip(bits as nat, 8);
            assert(self.spec_encoding().subrange(0, 8) =~= self.spec_encoding());
            lemma_position_unpack(xm as nat, zm as nat, ym as nat);
            lemma_position_field26(self.x);
            lemma_position_field26(self.z);
            lemma_position_field12(self.y);
        }
        Ok(())
    }
}

/// The three packed fields come back out of the 64-bit value.
proof fn lemma_position_unpack(xm: nat, zm: nat, ym: nat)
    requires
        xm < 0x400_0000,
        zm < 0x400_0000,
        ym < 0x1000,
    ensures
        ((xm * 0x40_0000_0000 + zm * 0x1000 + ym) / 0x40_0000_0000) % 0x400_0000 == xm,
        ((xm * 0x40_0000_0000 + zm * 0x1000 + ym) / 0x1000) % 0x400_0000 == zm,
        (xm * 0x40_0000_0000 + zm * 0x1000 + ym) % 0x1000 == ym,
{
    let v = xm * 0x40_0000_0000 + zm * 0x1000 + ym;
    assert(zm * 0x1000 + ym < 0x40_0000_0000);
    lemma_fundamental_div_mod_converse(
        v as int,
        0x40_0000_0000,
        xm as int,
        (zm * 0x1000 + ym) as int,
    );
    lemma_small_mod(xm, 0x400_0000);
    assert(v == (xm * 0x400_0000 + zm) * 0x1000 + ym) by (nonlinear_arith)
        requires
            v == xm * 0x40_0000_0000 + zm * 0x1000 + ym,
    ;
    lemma_fundamental_div_mod_converse(v as int, 0x1000, (xm * 0x400_0000 + zm) as int, ym as int);
    lemma_fundamental_div_mod_converse(
        (xm * 0x400_0000 + zm) as int,
        0x400_0000,
        xm as int,
        zm as int,
    );
}

/// For an in-range coordinate, masking to 26 bits and sign-extending
/// gives the coordinate back.
proof fn lemma_position_field26(x: i32)
    requires
        -0x200_0000 <= x < 0x200_0000,
    ensures
        spec_sign26(spec_i32_bits(x) as nat % 0x400_0000) == x,
{
    if x >= 0 {
        lemma_small_mod(x as nat, 0x400_0000);
    } else {
        let bits = (x as int) + 0x1_0000_0000;
        assert(bits == 0x400_0000 * 63 + (x + 0x400_0000)) by {
            assert(0x400_0000 * 63 + 0x400_0000 == 0x1_0000_0000);
        }
        lemma_mod_multiples_vanish(63, x + 0x400_0000, 0x400_0000);
        lemma_small_mod((x + 0x400_0000) as nat, 0x400_0000);
    }
}

/// For an in-range height, masking to 12 bits and sign-extending gives
/// the height back.
proof fn lemma_position_field12(y: i16)
    requires
        -0x800 <= y < 0x800,
    ensures
        spec_sign12(spec_i16_bits(y) as nat % 0x1000) == y,
{
    if y >= 0 {
        lemma_small_mod(y as nat, 0x1000);
    } else {
        let bits = (y as int) + 0x1_0000;
        assert(bits == 0x1000 * 15 + (y + 0x1000)) by {
            assert(0x1000 * 15 + 0x1000 == 0x1_0000);
        }
        lemma_mod_multiples_vanish(15, y + 0x1000, 0x1000);
        lemma_small_mod((y + 0x1000) as nat, 0x1000);
    }
}

/// A variable-length decode comes up short exactly when the input is
/// shorter than the byte bound and every byte continues.
pub proof fn lemma_var_dec_short(s: Seq<u8>, max: nat)
    ensures
        (spec_var_dec(s, max) is Short) <==> (s.len() < max && (forall|i: int|
            0 <= i < s.len() ==> s[i] >= 128)),
    decreases max,
{
    if max == 0 {
    } else if s.len() == 0 {
    } else if s[0] < 128 {
    } else {
        lemma_var_dec_short(s.skip(1), (max - 1) as nat);
        if spec_var_dec(s, max) is Short {
            assert forall|i: int| 0 <= i < s.len() implies s[i] >= 128 by {
                if i >= 1 {
                    assert(s[i] == s.skip(1)[i - 1]);
                }
            }
        } else {
            if s.len() < max && (forall|i: int| 0 <= i < s.len() ==> s[i] >= 128) {
                assert forall|j: int| 0 <= j < s.skip(1).len() implies s.skip(1)[j] >= 128 by {
                    assert(s.skip(1)[j] == s[j + 1]);
                }
                assert(spec_var_dec(s.skip(1), (max - 1) as nat) is Short);
                assert(false);
            }
        }
    }
}

/// Whether a partial size prefix still awaits more bytes: true
/// exactly when what arrived so far decodes as too short. A caller
/// reading a frame from a stream feeds bytes one at a time until this
/// turns false, then hands the whole prefix to the decoder.
pub fn size_prefix_incomplete(bytes: &Vec<u8>) -> (r: bool)
    ensures
        r == (spec_var_dec(bytes@, 5) is Short),
{
    proof {
        lemma_var_dec_short(bytes@, 5);
    }
    if bytes.len() >= 5 {
        return false;
    }
    let mut i: usize = 0;
    while i < bytes.len()
        invariant
            i <= bytes@.len(),
            forall|j: int| 0 <= j < i ==> bytes@[j] >= 128,
        decreases bytes@.len() - i,
    {
        if bytes[i] < 128 {
            proof {
                lemma_var_dec_short(bytes@, 5);
            }
            return false;
        }
        i += 1;
    }
    proof {
        lemma_var_dec_short(bytes@, 5);
    }
    true
}

/// Law: the canonical encoding of any VarInt decodes back to the same
/// value and consumes exactly the encoding.
pub proof fn lemma_varint_round_trip(v: VarInt)
    ensures
        VarInt::spec_decode(v.spec_encoding()) matches Ok(r) && r.0 == v.0 && r.1
            == v.spec_encoding().len(),
{
    lemma_pow128_concrete();
    lemma_var_enc_len(spec_i32_bits(v.0) as nat, 5);
    lemma_var_enc_dec(spec_i32_bits(v.0) as nat, 5, Seq::empty());
    assert(v.spec_encoding() + Seq::<u8>::empty() =~= v.spec_encoding());
}

/// Law: the canonical encoding of any VarLong decodes back to the
/// same value and consumes exactly the encoding.
pub proof fn lemma_varlong_round_trip(v: VarLong)
    ensures
        VarLong::spec_decode(v.spec_encoding()) matches Ok(r) && r.0 == v.0 && r.1
            == v.spec_encoding().len(),
{
    lemma_pow128_concrete();
    lemma_var_enc_len(spec_i64_bits(v.0) as nat, 10);
    lemma_var_enc_dec(spec_i64_bits(v.0) as nat, 10, Seq::empty());
    assert(v.spec_encoding() + Seq::<u8>::empty() =~= v.spec_encoding());
}

/// Law: a string under the byte-length bound decodes back from its
/// canonical encoding to the same characters.
pub proof fn lemma_string_round_trip(cs: Seq<char>)
    requires
        encode_utf8(cs).len() <= 0x7fff_ffff,
    ensures
        spec_string_decode(spec_var_enc(encode_utf8(cs).len()) + encode_utf8(cs)) matches Ok(r)
            && r.0 == cs && r.1 == spec_var_enc(encode_utf8(cs).len()).len() + encode_utf8(
            cs,
        ).len(),
{
    lemma_string_encoding_decodes(cs);
}

// ---------------------------------------------------------------------
// Arrays: a VarInt element count, then the elements back to back.

/// The element-wise deep view of a sequence.
pub open spec fn deep_view_seq<T: DeepView>(s: Seq<T>) -> Seq<T::V> {
    Seq::new(s.len(), |i: int| s[i].deep_view())
}

/// The encodings of the elements, concatenated.
pub open spec fn spec_seq_body<T: MinecraftDataType>(s: Seq<T>) -> Seq<u8>
    decreases s.len(),
{
    if s.len() == 0 {
        Seq::empty()
    } else {
        s[0].spec_encoding() + spec_seq_body(s.drop_first())
    }
}

/// Exact decode of `k` elements back to back.
pub open spec fn spec_seq_dec<T: MinecraftDataType>(s: Seq<u8>, k: nat) -> Result<
    (Seq<T::V>, int),
    DecodeError,
>
    decreases k,
{
    if k == 0 {
        Ok((Seq::empty(), 0))
    } else {
        match T::spec_decode(s) {
            Ok((v, m)) => match spec_seq_dec::<T>(s.skip(m), (k - 1) as nat) {
                Ok((vs, rest)) => Ok((seq![v] + vs, m + rest)),
                Err(e) => Err(e),
            },
            Err(e) => Err(e),
        }
    }
}

/// How already-decoded elements combine with the decode of the rest.
pub open spec fn lift_seq_dec<V>(
    r: Result<(Seq<V>, int), DecodeError>,
    done: Seq<V>,
    consumed: int,
) -> Result<(Seq<V>, int), DecodeError> {
    match r {
        Ok((vs, m)) => Ok((done + vs, consumed + m)),
        Err(e) => Err(e),
    }
}

/// Element-sequence decoding consumes no more than the input.
pub proof fn lemma_seq_dec_len<T: MinecraftDataType>(s: Seq<u8>, k: nat)
    ensures
        spec_seq_dec::<T>(s, k) matches Ok(r) ==> 0 <= r.1 <= s.len() && r.0.len() == k,
    decreases k,
{
    if k > 0 && spec_seq_dec::<T>(s, k) is Ok {
        T::lemma_decode_len(s);
        let m = T::spec_decode(s)->Ok_0.1;
        lemma_seq_dec_len::<T>(s.skip(m), (k - 1) as nat);
    }
}

/// Element-sequence decoding never reads past what it consumes.
pub proof fn lemma_seq_dec_extend<T: MinecraftDataType>(s: Seq<u8>, t: Seq<u8>, k: nat)
    ensures
        spec_seq_dec::<T>(s, k) is Ok ==> spec_seq_dec::<T>(s + t, k) == spec_seq_dec::<T>(s, k),
    decreases k,
{
    if k > 0 && spec_seq_dec::<T>(s, k) is Ok {
        T::lemma_decode_extend(s, t);
        T::lemma_decode_len(s);
        let m = T::spec_decode(s)->Ok_0.1;
        assert((s + t).skip(m) =~= s.skip(m) + t);
        lemma_seq_dec_extend::<T>(s.skip(m), t, (k - 1) as nat);
    }
}

/// Appending one element whose encoding decodes back extends a fully
/// consumed element-sequence decode by that element.
pub proof fn lemma_seq_dec_snoc<T: MinecraftDataType>(
    b: Seq<u8>,
    k: nat,
    vs: Seq<T::V>,
    e_enc: Seq<u8>,
    ev: T::V,
)
    requires
        spec_seq_dec::<T>(b, k) == Ok::<(Seq<T::V>, int), DecodeError>((vs, b.len() as int)),
        T::spec_decode(e_enc) == Ok::<(T::V, int), DecodeError>((ev, e_enc.len() as int)),
    ensures
        spec_seq_dec::<T>(b + e_enc, k + 1) == Ok::<(Seq<T::V>, int), DecodeError>(
            (vs.push(ev), (b.len() + e_enc.len()) as int),
        ),
    decreases k,
{
    if k == 0 {
        assert(b.len() == 0);
        assert(b + e_enc =~= e_enc);
        assert(spec_seq_dec::<T>(e_enc.skip(e_enc.len() as int), 0) == Ok::<
            (Seq<T::V>, int),
            DecodeError,
        >((Seq::empty(), 0)));
        assert(seq![ev] + Seq::<T::V>::empty() =~= vs.push(ev));
    } else {
        T::lemma_decode_extend(b, e_enc);
        T::lemma_decode_len(b);
        let r0 = T::spec_decode(b)->Ok_0;
        let v0 = r0.0;
        let m0 = r0.1;
        let inner = spec_seq_dec::<T>(b.skip(m0), (k - 1) as nat);
        let vs0 = inner->Ok_0.0;
        lemma_seq_dec_len::<T>(b.skip(m0), (k - 1) as nat);
        assert(inner->Ok_0.1 == b.len() - m0);
        assert((b + e_enc).skip(m0) =~= b.skip(m0) + e_enc);
        lemma_seq_dec_snoc::<T>(b.skip(m0), (k - 1) as nat, vs0, e_enc, ev);
        assert(vs =~= seq![v0] + vs0);
        assert(seq![v0] + vs0.push(ev) =~= vs.push(ev));
    }
}

/// Appending an element appends its encoding to the element body.
pub proof fn lemma_seq_body_snoc<T: MinecraftDataType>(s: Seq<T>, e: T)
    ensures
        spec_seq_body(s.push(e)) == spec_seq_body(s) + e.spec_encoding(),
    decreases s.len(),
{
    if s.len() == 0 {
        assert(s.push(e).drop_first() =~= Seq::<T>::empty());
        assert(s.push(e)[0] == e);
        assert(spec_seq_body(Seq::<T>::empty()) == Seq::<u8>::empty());
        assert(e.spec_encoding() + Seq::<u8>::empty() =~= e.spec_encoding());
        assert(Seq::<u8>::empty() + e.spec_encoding() =~= e.spec_encoding());
    } else {
        assert(s.push(e).drop_first() =~= s.drop_first().push(e));
        lemma_seq_body_snoc::<T>(s.drop_first(), e);
        assert(s[0].spec_encoding() + (spec_seq_body(s.drop_first()) + e.spec_encoding()) =~= (
        s[0].spec_encoding() + spec_seq_body(s.drop_first())) + e.spec_encoding());
    }
}

/// One unfolding of the element-sequence decode.
pub proof fn lemma_seq_dec_unfold<T: MinecraftDataType>(s: Seq<u8>, k: nat, v: T::V, m: int)
    requires
        k >= 1,
        T::spec_decode(s) == Ok::<(T::V, int), DecodeError>((v, m)),
    ensures
        spec_seq_dec::<T>(s, k) == lift_seq_dec(
            spec_seq_dec::<T>(s.skip(m), (k - 1) as nat),
            seq![v],
            m,
        ),
{
    let inner = spec_seq_dec::<T>(s.skip(m), (k - 1) as nat);
    match inner {
        Ok(_) => {},
        Err(_) => {},
    }
}

/// Lifting twice is lifting once with the pieces joined.
pub proof fn lemma_lift_seq_dec_assoc<V>(
    r: Result<(Seq<V>, int), DecodeError>,
    v: V,
    m: int,
    done: Seq<V>,
    c: int,
)
    ensures
        lift_seq_dec(lift_seq_dec(r, seq![v], m), done, c) == lift_seq_dec(
            r,
            done.push(v),
            c + m,
        ),
{
    match r {
        Ok((vs, mm)) => {
            assert(done + (seq![v] + vs) =~= done.push(v) + vs);
        },
        Err(_) => {},
    }
}

pub open spec fn spec_vec_decode<T: MinecraftDataType>(s: Seq<u8>) -> Result<
    (Seq<T::V>, int),
    DecodeError,
> {
    match spec_var_dec(s, 5) {
        VarDecResult::Done { value, len } => {
            let n = spec_u32_as_i32((value % 0x1_0000_0000) as u32);
            if n < 0 {
                Err(DecodeError::NegativeLength)
            } else {
                match spec_seq_dec::<T>(s.skip(len as int), n as nat) {
                    Ok((vs, m)) => Ok((vs, len + m)),
                    Err(e) => Err(e),
                }
            }
        },
        VarDecResult::Short => Err(DecodeError::UnexpectedEnd),
        VarDecResult::Over => Err(DecodeError::VarIntTooBig),
    }
}

impl<T: MinecraftDataType> MinecraftDataType for Vec<T> {
    open spec fn spec_encoding(&self) -> Seq<u8> {
        spec_var_enc(self@.len()) + spec_seq_body(self@)
    }

    open spec fn spec_encodable(&self) -> bool {
        &&& self@.len() <= 0x7fff_ffff
        &&& forall|i: int| 0 <= i < self@.len() ==> #[trigger] self@[i].spec_encodable()
    }

    open spec fn spec_decode(s: Seq<u8>) -> Result<(Seq<T::V>, int), DecodeError> {
        spec_vec_decode::<T>(s)
    }

    proof fn lemma_decode_extend(s: Seq<u8>, t: Seq<u8>) {
        if Self::spec_decode(s) is Ok {
            lemma_var_dec_extend(s, t, 5);
            lemma_var_dec_bounds(s, 5);
            let r = spec_var_dec(s, 5);
            let len = r->Done_len;
            let value = r->Done_value;
            let n = spec_u32_as_i32((value % 0x1_0000_0000) as u32);
            assert((s + t).skip(len as int) =~= s.skip(len as int) + t);
            lemma_seq_dec_extend::<T>(s.skip(len as int), t, n as nat);
        }
    }

    proof fn lemma_decode_len(s: Seq<u8>) {
        if Self::spec_decode(s) is Ok {
            lemma_var_dec_bounds(s, 5);
            let r = spec_var_dec(s, 5);
            let len = r->Done_len;
            let value = r->Done_value;
            let n = spec_u32_as_i32((value % 0x1_0000_0000) as u32);
            lemma_seq_dec_len::<T>(s.skip(len as int), n as nat);
        }
    }

    fn read_as_mc_type(reader: &mut ByteCursor) -> (res: Result<Self, DecodeError>) {
        let start = reader.pos;
        let ghost s0 = old(reader).suffix();
        let n = match VarInt::read_as_mc_type(reader) {
            Ok(v) => v,
            Err(e) => {
                return Err(e);
            },
        };
        if n.0 < 0 {
            reader.pos = start;
            return Err(DecodeError::NegativeLength);
        }
        proof {
            lemma_var_dec_bounds(s0, 5);
        }
        let count = n.0 as usize;
        let base = reader.pos;
        let ghost s1 = reader.suffix();
        proof {
            assert(s1 =~= s0.skip((base - start) as int));
        }
        let mut out: Vec<T> = Vec::new();
        let mut k: usize = 0;
        proof {
            assert(out.deep_view() =~= Seq::<T::V>::empty());
            assert(s1.skip(0) =~= s1);
            let full = spec_seq_dec::<T>(s1, count as nat);
            match full {
                Ok((vs, m)) => {
                    assert(Seq::<T::V>::empty() + vs =~= vs);
                },
                Err(_) => {},
            }
        }
        while k < count
            invariant
                reader.wf(),
                reader.data@ == old(reader).data@,
                k <= count,
                start == old(reader).pos,
                start <= base <= reader.pos,
                s0 == old(reader).suffix(),
                reader.suffix() == s1.skip((reader.pos - base) as int),
                s1 == old(reader).data@.skip(base as int),
                out.deep_view().len() == k,
                spec_seq_dec::<T>(s1, count as nat) == lift_seq_dec(
                    spec_seq_dec::<T>(reader.suffix(), (count - k) as nat),
                    out.deep_view(),
                    (reader.pos - base) as int,
                ),
                Vec::<T>::spec_decode(s0) == (match spec_seq_dec::<T>(s1, count as nat) {
                    Ok((vs, m)) => Ok::<(Seq<T::V>, int), DecodeError>(
                        (vs, (base - start) + m),
                    ),
                    Err(e) => Err::<(Seq<T::V>, int), DecodeError>(e),
                }),
            decreases count - k,
        {
            let ghost cur = reader.suffix();
            let ghost pos0 = reader.pos;
            let ghost done0 = out.deep_view();
            let elem = match T::read_as_mc_type(reader) {
                Ok(v) => v,
                Err(e) => {
                    proof {
                        assert(spec_seq_dec::<T>(cur, (count - k) as nat) == Err::<
                            (Seq<T::V>, int),
                            DecodeError,
                        >(e));
                    }
                    reader.pos = start;
                    return Err(e);
                },
            };
            proof {
                let m = T::spec_decode(cur)->Ok_0.1;
                let v = T::spec_decode(cur)->Ok_0.0;
                T::lemma_decode_len(cur);
                assert(reader.suffix() =~= cur.skip(m));
                assert(reader.suffix() =~= s1.skip((reader.pos - base) as int));
                lemma_seq_dec_unfold::<T>(cur, (count - k) as nat, v, m);
                lemma_lift_seq_dec_assoc(
                    spec_seq_dec::<T>(cur.skip(m), (count - k - 1) as nat),
                    v,
                    m,
                    done0,
                    (pos0 - base) as int,
                );
            }
            out.push(elem);
            k += 1;
            proof {
                assert(out.deep_view() =~= done0.push(elem.deep_view()));
            }
        }
        proof {
            assert(spec_seq_dec::<T>(reader.suffix(), 0) == Ok::<(Seq<T::V>, int), DecodeError>(
                (Seq::empty(), 0),
            ));
            assert(out.deep_view() + Seq::<T::V>::empty() =~= out.deep_view());
        }
        Ok(out)
    }

    fn write_as_mc_type(&self, writer: &mut Vec<u8>) -> (res: Result<(), EncodeError>) {
        if self.len() > 0x7fff_ffff {
            return Err(EncodeError::LengthTooLong);
        }
        let mut body: Vec<u8> = Vec::new();
        let mut k: usize = 0;
        proof {
            assert(self@.take(0) =~= Seq::<T>::empty());
            assert(deep_view_seq(self@.take(0)) =~= Seq::<T::V>::empty());
            assert(body@ =~= spec_seq_body(self@.take(0)));
        }
        while k < self.len()
            invariant
                k <= self@.len() <= 0x7fff_ffff,
                body@ == spec_seq_body(self@.take(k as int)),
                spec_seq_dec::<T>(body@, k as nat) == Ok::<(Seq<T::V>, int), DecodeError>(
                    (deep_view_seq(self@.take(k as int)), body@.len() as int),
                ),
                forall|i: int| 0 <= i < k ==> #[trigger] self@[i].spec_encodable(),
            decreases self@.len() - k,
        {
            let ghost body0 = body@;
            let elem = &self[k];
            match elem.write_as_mc_type(&mut body) {
                Ok(_) => {},
                Err(e) => {
                    return Err(e);
                },
            }
            proof {
                lemma_seq_dec_snoc::<T>(
                    body0,
                    k as nat,
                    deep_view_seq(self@.take(k as int)),
                    elem.spec_encoding(),
                    elem.deep_view(),
                );
                lemma_seq_body_snoc::<T>(self@.take(k as int), *elem);
                assert(self@.take(k as int).push(*elem) =~= self@.take(k + 1));
                assert(deep_view_seq(self@.take(k as int)).push(elem.deep_view())
                    =~= deep_view_seq(self@.take(k + 1)));
            }
            k += 1;
        }
        proof {
            assert(self@.take(self@.len() as int) =~= self@);
        }
        let n = VarInt(self.len() as i32);
        let r = n.write_as_mc_type(writer);
        proof {
            assert(r is Ok);
        }
        writer.append(&mut body);
        proof {
            assert(spec_i32_bits(n.0) == self@.len());
            assert(final(writer)@ =~= old(writer)@ + self.spec_encoding());
            lemma_pow128_concrete();
            lemma_var_enc_len(self@.len(), 5);
            lemma_var_enc_dec(self@.len(), 5, spec_seq_body(self@));
            assert(self.spec_encoding().skip(spec_var_enc(self@.len()).len() as int)
                =~= spec_seq_body(self@));
            assert(deep_view_seq(self@) =~= self.deep_view());
        }
        Ok(())
    }
}

// ---------------------------------------------------------------------
// Optionals: one presence byte, then the value if present.

pub open spec fn spec_option_decode<T: MinecraftDataType>(s: Seq<u8>) -> Result<
    (Option<T::V>, int),
    DecodeError,
> {
    if s.len() < 1 {
        Err(DecodeError::UnexpectedEnd)
    } else if s[0] == 0 {
        Ok((None, 1))
    } else {
        match T::spec_decode(s.skip(1)) {
            Ok((v, m)) => Ok((Some(v), 1 + m)),
            Err(e) => Err(e),
        }
    }
}

impl<T: MinecraftDataType> MinecraftDataType for Option<T> {
    open spec fn spec_encoding(&self) -> Seq<u8> {
        match self {
            None => seq![0u8],
            Some(v) => seq![1u8] + v.spec_encoding(),
        }
    }

    open spec fn spec_encodable(&self) -> bool {
        match self {
            None => true,
            Some(v) => v.spec_encodable(),
        }
    }

    open spec fn spec_decode(s: Seq<u8>) -> Result<(Option<T::V>, int), DecodeError> {
        spec_option_decode::<T>(s)
    }

    proof fn lemma_decode_extend(s: Seq<u8>, t: Seq<u8>) {
        if Self::spec_decode(s) is Ok {
            assert((s + t)[0] == s[0]);
            assert((s + t).skip(1) =~= s.skip(1) + t);
            T::lemma_decode_extend(s.skip(1), t);
        }
    }

    proof fn lemma_decode_len(s: Seq<u8>) {
        if Self::spec_decode(s) is Ok && s.len() >= 1 && s[0] != 0 {
            T::lemma_decode_len(s.skip(1));
        }
    }

    fn read_as_mc_type(reader: &mut ByteCursor) -> (res: Result<Self, DecodeError>) {
        let start = reader.pos;
        let ghost s = old(reader).suffix();
        let present = match bool::read_as_mc_type(reader) {
            Ok(b) => b,
            Err(e) => {
                return Err(e);
            },
        };
        if !present {
            return Ok(None);
        }
        proof {
            assert(reader.suffix() =~= s.skip(1));
        }
        match T::read_as_mc_type(reader) {
            Ok(v) => Ok(Some(v)),
            Err(e) => {
                reader.pos = start;
                Err(e)
            },
        }
    }

    fn write_as_mc_type(&self, writer: &mut Vec<u8>) -> (res: Result<(), EncodeError>) {
        match self {
            None => {
                writer.push(0u8);
                proof {
                    assert(final(writer)@ =~= old(writer)@ + self.spec_encoding());
                }
                Ok(())
            },
            Some(v) => {
                let mut body: Vec<u8> = Vec::new();
                match v.write_as_mc_type(&mut body) {
                    Ok(_) => {},
                    Err(e) => {
                        return Err(e);
                    },
                }
                writer.push(1u8);
                writer.append(&mut body);
                proof {
                    assert(final(writer)@ =~= old(writer)@ + self.spec_encoding());
                    assert(self.spec_encoding()[0] != 0);
                    assert(self.spec_encoding().skip(1) =~= v.spec_encoding());
                    T::lemma_decode_extend(v.spec_encoding(), Seq::empty());
                }
                Ok(())
            },
        }
    }
}

/// Appends a copy of `data` to `writer`.
pub fn append_bytes(writer: &mut Vec<u8>, data: &Vec<u8>)
    ensures
        final(writer)@ == old(writer)@ + data@,
{
    let mut i: usize = 0;
    while i < data.len()
        invariant
            i <= data@.len(),
            writer@ == old(writer)@ + data@.take(i as int),
        decreases data@.len() - i,
    {
        writer.push(data[i]);
        i += 1;
        proof {
            assert(writer@ =~= old(writer)@ + data@.take(i as int));
        }
    }
    proof {
        assert(data@.take(data@.len() as int) =~= data@);
    }
}

} // verus!
