//! Bit-exact parsing and serialisation of WebSocket frames.
use vstd::prelude::*;
use vstd::slice::{slice_subrange, slice_to_vec};
use vstd::string::StringSliceAdditionalSpecFns;
use byteorder::{BigEndian, ByteOrder};

verus! {

/// Sentinel of the 7-bit length field: a 2-byte extended length follows.
pub const FRAME_LEN_U16: u8 = 126;
/// Sentinel of the 7-bit length field: an 8-byte extended length follows.
pub const FRAME_LEN_U64: u8 = 127;
/// Largest payload length the decoder accepts (16 MiB); longer frames are
/// rejected with `FrameError::LengthTooLarge` to bound memory use.
pub const MAX_PAYLOAD_LEN: u64 = 16777216;

/// The frame opcodes this codec recognises.
#[derive(Debug, Clone, Copy, PartialEq, Eq, Structural)]
pub enum OpCode {
    Continuation,
    TextFrame,
    BinaryFrame,
    ConnectionClose,
    Ping,
    Pong,
}

/// The 4-bit wire value of an opcode.
pub open spec fn opcode_value(op: OpCode) -> u8 {
    match op {
        OpCode::Continuation => 0,
        OpCode::TextFrame => 1,
        OpCode::BinaryFrame => 2,
        OpCode::ConnectionClose => 8,
        OpCode::Ping => 9,
        OpCode::Pong => 10,
    }
}

/// The opcode a 4-bit wire value stands for, if any.
pub open spec fn opcode_of(v: u8) -> Option<OpCode> {
    if v == 0 {
        Some(OpCode::Continuation)
    } else if v == 1 {
        Some(OpCode::TextFrame)
    } else if v == 2 {
        Some(OpCode::BinaryFrame)
    } else if v == 8 {
        Some(OpCode::ConnectionClose)
    } else if v == 9 {
        Some(OpCode::Ping)
    } else if v == 10 {
        Some(OpCode::Pong)
    } else {
        None
    }
}

impl OpCode {
    pub fn to_u8(self) -> (r: u8)
        ensures
            r == opcode_value(self),
            opcode_of(r) == Some(self),
    {
        match self {
            OpCode::Continuation => 0,
            OpCode::TextFrame => 1,
            OpCode::BinaryFrame => 2,
            OpCode::ConnectionClose => 8,
            OpCode::Ping => 9,
            OpCode::Pong => 10,
        }
    }

    pub fn from_u8(v: u8) -> (r: Option<OpCode>)
        ensures
            r == opcode_of(v),
    {
        if v == 0 {
            Some(OpCode::Continuation)
        } else if v == 1 {
            Some(OpCode::TextFrame)
        } else if v == 2 {
            Some(OpCode::BinaryFrame)
        } else if v == 8 {
            Some(OpCode::ConnectionClose)
        } else if v == 9 {
            Some(OpCode::Ping)
        } else if v == 10 {
            Some(OpCode::Pong)
        } else {
            None
        }
    }
}

/// Why a byte sequence does not (yet) decode to a frame.
#[derive(Debug, Clone, Copy, PartialEq, Eq, Structural)]
pub enum FrameError {
    /// Fewer bytes are available than the frame needs: buffer and retry.
    TruncatedInput,
    /// The opcode nibble is not one of the recognised values.
    UnsupportedOpcode,
    /// One of the reserved bits RSV1..RSV3 is set.
    ReservedBitsSet,
    /// The declared payload length exceeds `MAX_PAYLOAD_LEN`.
    LengthTooLarge,
}

/// The fixed two-byte header of a frame, unpacked.
#[derive(Debug, Clone, Copy, PartialEq, Eq, Structural)]
pub struct WebSocketFrameHeader {
    pub fin: bool,
    pub rsv1: bool,
    pub rsv2: bool,
    pub rsv3: bool,
    pub masked: bool,
    pub opcode: u8,
    /// The 7-bit length field: a literal length below 126, else a sentinel.
    pub payload_length: u8,
}

/// The 7-bit length field chosen for a payload of `len` bytes.
pub open spec fn length_field(len: nat) -> u8 {
    if len < 126 {
        len as u8
    } else if len < 65536 {
        FRAME_LEN_U16
    } else {
        FRAME_LEN_U64
    }
}

/// The first header byte: FIN, RSV1..RSV3 and the opcode nibble.
pub open spec fn header_byte0(h: WebSocketFrameHeader) -> u8 {
    (if h.fin { 0x80u8 } else { 0u8 }) | (if h.rsv1 { 0x40u8 } else { 0u8 }) | (if h.rsv2 {
        0x20u8
    } else {
        0u8
    }) | (if h.rsv3 { 0x10u8 } else { 0u8 }) | (h.opcode & 0x0f)
}

/// The second header byte: MASK and the 7-bit length field.
pub open spec fn header_byte1(h: WebSocketFrameHeader) -> u8 {
    (if h.masked { 0x80u8 } else { 0u8 }) | (h.payload_length & 0x7f)
}

/// The header that the two bytes `b0`, `b1` encode.
pub open spec fn header_of_bytes(b0: u8, b1: u8) -> WebSocketFrameHeader {
    WebSocketFrameHeader {
        fin: b0 & 0x80 == 0x80,
        rsv1: b0 & 0x40 == 0x40,
        rsv2: b0 & 0x20 == 0x20,
        rsv3: b0 & 0x10 == 0x10,
        opcode: b0 & 0x0f,
        masked: b1 & 0x80 == 0x80,
        payload_length: b1 & 0x7f,
    }
}

/// The unsigned integer that `s` spells, most significant byte first.
pub open spec fn be_value(s: Seq<u8>) -> nat
    decreases s.len(),
{
    if s.len() == 0 {
        0
    } else {
        be_value(s.drop_last()) * 256 + s.last() as nat
    }
}

/// The `k` low-order bytes of `n`, most significant first.
pub open spec fn be_bytes(n: nat, k: nat) -> Seq<u8>
    decreases k,
{
    if k == 0 {
        Seq::empty()
    } else {
        be_bytes(n / 256, (k - 1) as nat).push((n % 256) as u8)
    }
}

/// Relies on byteorder's `BigEndian::read_u16`: the two bytes at `at` as a
/// big-endian integer (it panics on fewer than two bytes).
#[verifier::external_body]
fn read_be_u16(buf: &[u8], at: usize) -> (r: u16)
    requires
        at + 2 <= buf@.len(),
    ensures
        r as nat == be_value(buf@.subrange(at as int, at + 2)),
{
    BigEndian::read_u16(&buf[at..])
}

/// Relies on byteorder's `BigEndian::read_u64`: the eight bytes at `at` as a
/// big-endian integer (it panics on fewer than eight bytes).
#[verifier::external_body]
fn read_be_u64(buf: &[u8], at: usize) -> (r: u64)
    requires
        at + 8 <= buf@.len(),
    ensures
        r as nat == be_value(buf@.subrange(at as int, at + 8)),
{
    BigEndian::read_u64(&buf[at..])
}

/// Relies on byteorder's `BigEndian::write_u16`: appends `n` as two
/// big-endian bytes.
#[verifier::external_body]
fn write_be_u16(out: &mut Vec<u8>, n: u16)
    ensures
        final(out)@ == old(out)@ + be_bytes(n as nat, 2),
{
    let mut b = [0u8; 2];
    BigEndian::write_u16(&mut b, n);
    out.extend_from_slice(&b);
}

/// Relies on byteorder's `BigEndian::write_u64`: appends `n` as eight
/// big-endian bytes.
#[verifier::external_body]
fn write_be_u64(out: &mut Vec<u8>, n: u64)
    ensures
        final(out)@ == old(out)@ + be_bytes(n as nat, 8),
{
    let mut b = [0u8; 8];
    BigEndian::write_u64(&mut b, n);
    out.extend_from_slice(&b);
}

/// Spelling `n` in `k` bytes and reading it back gives `n` when it fits.
pub proof fn lemma_be_value_of_bytes(n: nat, k: nat)
    requires
        n < pow256(k),
    ensures
        be_bytes(n, k).len() == k,
        be_value(be_bytes(n, k)) == n,
    decreases k,
{
    if k > 0 {
        let k1 = (k - 1) as nat;
        assert(n / 256 < pow256(k1)) by (nonlinear_arith)
            requires
                n < pow256(k1) * 256,
        ;
        lemma_be_value_of_bytes(n / 256, k1);
        let s = be_bytes(n, k);
        assert(s.drop_last() =~= be_bytes(n / 256, k1));
        assert(n == (n / 256) * 256 + n % 256) by (nonlinear_arith);
    }
}

/// 256 to the power `k`.
pub open spec fn pow256(k: nat) -> nat
    decreases k,
{
    if k == 0 {
        1
    } else {
        pow256((k - 1) as nat) * 256
    }
}

impl WebSocketFrameHeader {
    /// A final, unmasked header for a payload of `len` bytes.
    pub fn new_header(len: usize, opcode: u8) -> (r: WebSocketFrameHeader)
        ensures
            r == (WebSocketFrameHeader {
                fin: true,
                rsv1: false,
                rsv2: false,
                rsv3: false,
                masked: false,
                opcode,
                payload_length: length_field(len as nat),
            }),
    {
        WebSocketFrameHeader {
            fin: true,
            rsv1: false,
            rsv2: false,
            rsv3: false,
            masked: false,
            payload_length: Self::determine_len(len),
            opcode: opcode,
        }
    }

    /// The 7-bit length field for `len`: the length itself below 126, the
    /// 16-bit sentinel up to 65535, the 64-bit sentinel otherwise.
    pub fn determine_len(len: usize) -> (r: u8)
        ensures
            r == length_field(len as nat),
    {
        if len < (FRAME_LEN_U16 as usize) {
            len as u8
        } else if len < 65536 {
            FRAME_LEN_U16
        } else {
            FRAME_LEN_U64
        }
    }
}

/// Packing a header and unpacking it again gives it back, for a 4-bit
/// opcode and a 7-bit length field.
pub proof fn lemma_header_bytes_round_trip(h: WebSocketFrameHeader)
    requires
        h.opcode < 16,
        h.payload_length < 128,
    ensures
        header_of_bytes(header_byte0(h), header_byte1(h)) == h,
{
    let f: u8 = if h.fin { 0x80u8 } else { 0u8 };
    let a: u8 = if h.rsv1 { 0x40u8 } else { 0u8 };
    let b: u8 = if h.rsv2 { 0x20u8 } else { 0u8 };
    let c: u8 = if h.rsv3 { 0x10u8 } else { 0u8 };
    let op = h.opcode;
    let m: u8 = if h.masked { 0x80u8 } else { 0u8 };
    let l = h.payload_length;
    let b0 = f | a | b | c | (op & 0x0f);
    assert(b0 & 0x80 == f && b0 & 0x40 == a && b0 & 0x20 == b && b0 & 0x10 == c && b0 & 0x0f
        == op) by (bit_vector)
        requires
            f == 0 || f == 0x80,
            a == 0 || a == 0x40,
            b == 0 || b == 0x20,
            c == 0 || c == 0x10,
            op < 16,
            b0 == f | a | b | c | (op & 0x0f),
    ;
    let b1 = m | (l & 0x7f);
    assert(b1 & 0x80 == m && b1 & 0x7f == l) by (bit_vector)
        requires
            m == 0 || m == 0x80,
            l < 128,
            b1 == m | (l & 0x7f),
    ;
}

/// `s` with each byte XORed with the key byte at its index modulo four.
pub open spec fn mask_bytes(s: Seq<u8>, key: Seq<u8>) -> Seq<u8> {
    Seq::new(s.len(), |i: int| s[i] ^ key[i % 4])
}

/// Masking is its own inverse: applying the same 4-byte key twice gives the
/// original bytes back.
pub proof fn lemma_mask_involution(s: Seq<u8>, key: Seq<u8>)
    requires
        key.len() == 4,
    ensures
        mask_bytes(mask_bytes(s, key), key) == s,
{
    assert forall|i: int| 0 <= i < s.len() implies #[trigger] mask_bytes(
        mask_bytes(s, key),
        key,
    )[i] == s[i] by {
        let x = s[i];
        let k = key[i % 4];
        assert((x ^ k) ^ k == x) by (bit_vector);
    }
    assert(mask_bytes(mask_bytes(s, key), key) =~= s);
}

/// A frame: its header, the mask key it carried on the wire, and its payload
/// with any mask already removed.
#[derive(Debug)]
pub struct WebSocketFrame {
    pub header: WebSocketFrameHeader,
    pub mask: Option<[u8; 4]>,
    pub payload: Vec<u8>,
}

/// The extended-length bytes that follow the header for length field `len7`.
pub open spec fn ext_bytes(len7: u8, len: nat) -> Seq<u8> {
    if len7 == FRAME_LEN_U16 {
        be_bytes(len, 2)
    } else if len7 == FRAME_LEN_U64 {
        be_bytes(len, 8)
    } else {
        Seq::empty()
    }
}

/// The bytes sent for a frame with header `h` and payload `p`: this side
/// never masks, so the MASK bit is clear and no key is written.
pub open spec fn wire_bytes(h: WebSocketFrameHeader, p: Seq<u8>) -> Seq<u8> {
    seq![header_byte0(h), header_byte1(WebSocketFrameHeader { masked: false, ..h })] + ext_bytes(
        h.payload_length,
        p.len(),
    ) + p
}

/// The header of the frame that starts `s`.
pub open spec fn wire_header(s: Seq<u8>) -> WebSocketFrameHeader {
    header_of_bytes(s[0], s[1])
}

/// Number of extended-length bytes that follow a 7-bit length field.
pub open spec fn ext_size(len7: u8) -> nat {
    if len7 == FRAME_LEN_U16 {
        2
    } else if len7 == FRAME_LEN_U64 {
        8
    } else {
        0
    }
}

/// Where the length field (with its extension) of the frame in `s` ends.
pub open spec fn wire_length_end(s: Seq<u8>) -> nat {
    2 + ext_size(wire_header(s).payload_length)
}

/// The payload length declared by the frame in `s`.
pub open spec fn wire_payload_len(s: Seq<u8>) -> nat {
    let len7 = wire_header(s).payload_length;
    if len7 < FRAME_LEN_U16 {
        len7 as nat
    } else {
        be_value(s.subrange(2, wire_length_end(s) as int))
    }
}

/// Where the payload of the frame in `s` starts.
pub open spec fn wire_payload_start(s: Seq<u8>) -> nat {
    wire_length_end(s) + if wire_header(s).masked {
        4nat
    } else {
        0nat
    }
}

/// Where the frame in `s` ends.
pub open spec fn wire_frame_end(s: Seq<u8>) -> nat {
    wire_payload_start(s) + wire_payload_len(s)
}

/// The mask key of the frame in `s`.
pub open spec fn wire_mask_key(s: Seq<u8>) -> Seq<u8> {
    s.subrange(wire_length_end(s) as int, wire_length_end(s) + 4int)
}

/// The payload of the frame in `s`, with its mask removed.
pub open spec fn wire_payload(s: Seq<u8>) -> Seq<u8> {
    let raw = s.subrange(wire_payload_start(s) as int, wire_frame_end(s) as int);
    if wire_header(s).masked {
        mask_bytes(raw, wire_mask_key(s))
    } else {
        raw
    }
}

/// Why `s` does not start with a complete, acceptable frame, if it does not.
pub open spec fn decode_error(s: Seq<u8>) -> Option<FrameError> {
    if s.len() < 2 {
        Some(FrameError::TruncatedInput)
    } else if opcode_of(wire_header(s).opcode) is None {
        Some(FrameError::UnsupportedOpcode)
    } else if wire_header(s).rsv1 || wire_header(s).rsv2 || wire_header(s).rsv3 {
        Some(FrameError::ReservedBitsSet)
    } else if s.len() < wire_length_end(s) {
        Some(FrameError::TruncatedInput)
    } else if wire_payload_len(s) > MAX_PAYLOAD_LEN {
        Some(FrameError::LengthTooLarge)
    } else if s.len() < wire_frame_end(s) {
        Some(FrameError::TruncatedInput)
    } else {
        None
    }
}

/// What decoding the frame that starts `s` yields: the frame and the number
/// of bytes it took.
pub open spec fn decoded_as(s: Seq<u8>, f: WebSocketFrame, n: nat) -> bool {
    &&& decode_error(s) is None
    &&& n == wire_frame_end(s)
    &&& f.header == wire_header(s)
    &&& f.payload@ == wire_payload(s)
    &&& (f.mask is Some <==> f.header.masked)
    &&& (f.mask matches Some(k) ==> k@ == wire_mask_key(s))
}

impl WebSocketFrame {
    /// The header is a 7-bit length field with a 4-bit opcode that agrees
    /// with the payload's length, and a key is held exactly when masked.
    pub open spec fn wf(&self) -> bool {
        let len7 = self.header.payload_length;
        let n = self.payload@.len();
        &&& self.header.opcode < 16
        &&& len7 < 128
        &&& (len7 < FRAME_LEN_U16 ==> n == len7)
        &&& (len7 == FRAME_LEN_U16 ==> n < 65536)
        &&& (self.mask is Some <==> self.header.masked)
    }

    /// The bytes this frame is sent as.
    pub open spec fn spec_wire(&self) -> Seq<u8> {
        wire_bytes(self.header, self.payload@)
    }

    /// The header packed into a big-endian 16-bit word.
    pub fn serialize_header(hdr: &WebSocketFrameHeader) -> (r: u16)
        ensures
            r == header_byte0(*hdr) as u16 * 256 + header_byte1(*hdr) as u16,
    {
        let b1: u8 = (if hdr.fin { 0x80u8 } else { 0u8 }) | (if hdr.rsv1 { 0x40u8 } else { 0u8 })
            | (if hdr.rsv2 { 0x20u8 } else { 0u8 }) | (if hdr.rsv3 { 0x10u8 } else { 0u8 }) | (
        hdr.opcode & 0x0f);
        let b2: u8 = (if hdr.masked { 0x80u8 } else { 0u8 }) | (hdr.payload_length & 0x7f);
        (b1 as u16) * 256 + (b2 as u16)
    }

    /// The header that a big-endian 16-bit word holds; `UnsupportedOpcode`
    /// when its opcode nibble is not a recognised opcode.
    pub fn parse_header(buf: u16) -> (r: Result<WebSocketFrameHeader, FrameError>)
        ensures
            opcode_of(((buf / 256) as u8) & 0x0f) is None ==> r == Err::<
                WebSocketFrameHeader,
                FrameError,
            >(FrameError::UnsupportedOpcode),
            opcode_of(((buf / 256) as u8) & 0x0f) is Some ==> r == Ok::<
                WebSocketFrameHeader,
                FrameError,
            >(header_of_bytes((buf / 256) as u8, (buf % 256) as u8)),
    {
        let b0: u8 = (buf / 256) as u8;
        let b1: u8 = (buf % 256) as u8;
        if OpCode::from_u8(b0 & 0x0f).is_none() {
            return Err(FrameError::UnsupportedOpcode);
        }
        Ok(WebSocketFrameHeader {
            fin: b0 & 0x80 == 0x80,
            rsv1: b0 & 0x40 == 0x40,
            rsv2: b0 & 0x20 == 0x20,
            rsv3: b0 & 0x10 == 0x10,
            opcode: b0 & 0x0f,
            masked: b1 & 0x80 == 0x80,
            payload_length: b1 & 0x7f,
        })
    }

    /// XORs each byte with the key byte at its index modulo four; the same
    /// call both masks and unmasks.
    pub fn apply_mask(mask: [u8; 4], bytes: &mut Vec<u8>)
        ensures
            final(bytes)@ == mask_bytes(old(bytes)@, mask@),
    {
        let n = bytes.len();
        let mut idx: usize = 0;
        while idx < n
            invariant
                n == old(bytes)@.len(),
                bytes@.len() == n,
                idx <= n,
                forall|j: int| 0 <= j < idx ==> bytes@[j] == old(bytes)@[j] ^ mask@[j % 4],
                forall|j: int| idx <= j < n ==> bytes@[j] == old(bytes)@[j],
            decreases n - idx,
        {
            let c = bytes[idx] ^ mask[idx % 4];
            bytes.set(idx, c);
            idx = idx + 1;
        }
        assert(bytes@ =~= mask_bytes(old(bytes)@, mask@));
    }

    /// The four mask-key bytes at `at`; `TruncatedInput` when `input` ends
    /// before them.
    pub fn read_mask(input: &[u8], at: usize) -> (r: Result<[u8; 4], FrameError>)
        ensures
            at + 4 <= input@.len() ==> (r matches Ok(k) && k@ == input@.subrange(
                at as int,
                at + 4,
            )),
            at + 4 > input@.len() ==> r matches Err(FrameError::TruncatedInput),
    {
        if at > input.len() || input.len() - at < 4 {
            return Err(FrameError::TruncatedInput);
        }
        let r = [input[at], input[at + 1], input[at + 2], input[at + 3]];
        assert(r@ =~= input@.subrange(at as int, at + 4));
        Ok(r)
    }
}

/// Two bytes read as a big-endian integer.
pub proof fn lemma_be_value_two(s: Seq<u8>)
    requires
        s.len() == 2,
    ensures
        be_value(s) == s[0] as nat * 256 + s[1] as nat,
{
    reveal_with_fuel(be_value, 3);
    assert(s.drop_last().drop_last() =~= Seq::<u8>::empty());
    assert(s.drop_last().last() == s[0]);
}

/// A 16-bit word spelled in two big-endian bytes is its high byte, then its low byte.
pub proof fn lemma_be_bytes_word(b0: u8, b1: u8)
    ensures
        be_bytes(b0 as nat * 256 + b1 as nat, 2) == seq![b0, b1],
{
    let w = b0 as nat * 256 + b1 as nat;
    assert(w / 256 == b0 as nat && w % 256 == b1 as nat) by (nonlinear_arith)
        requires
            w == b0 as nat * 256 + b1 as nat,
            b1 < 256,
    ;
    assert((b0 as nat) / 256 == 0 && (b0 as nat) % 256 == b0 as nat);
    reveal_with_fuel(be_bytes, 3);
    assert(be_bytes(w, 2) =~= seq![b0, b1]);
}

impl WebSocketFrame {
    /// A final, unmasked frame carrying a copy of `payload` under `opcode`.
    pub fn new(payload: &[u8], opcode: OpCode) -> (r: WebSocketFrame)
        ensures
            r.wf(),
            r.header == (WebSocketFrameHeader {
                fin: true,
                rsv1: false,
                rsv2: false,
                rsv3: false,
                masked: false,
                opcode: opcode_value(opcode),
                payload_length: length_field(payload@.len()),
            }),
            r.mask is None,
            r.payload@ == payload@,
    {
        WebSocketFrame {
            header: WebSocketFrameHeader::new_header(payload.len(), opcode.to_u8()),
            payload: slice_to_vec(payload),
            mask: None,
        }
    }

    /// A binary frame carrying a copy of `payload`.
    pub fn binary(payload: &[u8]) -> (r: WebSocketFrame)
        ensures
            r.wf(),
            r.header == (WebSocketFrameHeader {
                fin: true,
                rsv1: false,
                rsv2: false,
                rsv3: false,
                masked: false,
                opcode: opcode_value(OpCode::BinaryFrame),
                payload_length: length_field(payload@.len()),
            }),
            r.mask is None,
            r.payload@ == payload@,
    {
        Self::new(payload, OpCode::BinaryFrame)
    }

    /// A text frame carrying the UTF-8 bytes of `payload`.
    pub fn text(payload: &str) -> (r: WebSocketFrame)
        ensures
            r.wf(),
            r.header == (WebSocketFrameHeader {
                fin: true,
                rsv1: false,
                rsv2: false,
                rsv3: false,
                masked: false,
                opcode: opcode_value(OpCode::TextFrame),
                payload_length: length_field(payload.spec_bytes().len()),
            }),
            r.mask is None,
            r.payload@ == payload.spec_bytes(),
    {
        Self::new(payload.as_bytes(), OpCode::TextFrame)
    }

    /// Appends this frame's wire form to `output`: the header with the MASK
    /// bit clear, the extended length the length field calls for, then the
    /// payload.
    pub fn write(&self, output: &mut Vec<u8>)
        requires
            self.wf(),
        ensures
            final(output)@ == old(output)@ + self.spec_wire(),
    {
        let hdr = WebSocketFrameHeader {
            fin: self.header.fin,
            rsv1: self.header.rsv1,
            rsv2: self.header.rsv2,
            rsv3: self.header.rsv3,
            masked: false,
            opcode: self.header.opcode,
            payload_length: self.header.payload_length,
        };
        let word = Self::serialize_header(&hdr);
        write_be_u16(output, word);
        proof {
            lemma_be_bytes_word(header_byte0(hdr), header_byte1(hdr));
        }
        let ghost after_header = output@;
        let n = self.payload.len();
        if self.header.payload_length == FRAME_LEN_U16 {
            write_be_u16(output, n as u16);
        } else if self.header.payload_length == FRAME_LEN_U64 {
            write_be_u64(output, n as u64);
        }
        let ghost after_len = output@;
        assert(after_len == after_header + ext_bytes(self.header.payload_length, n as nat));
        let mut i: usize = 0;
        while i < n
            invariant
                n == self.payload@.len(),
                i <= n,
                output@ == after_len + self.payload@.subrange(0, i as int),
            decreases n - i,
        {
            output.push(self.payload[i]);
            i = i + 1;
            assert(output@ =~= after_len + self.payload@.subrange(0, i as int));
        }
        assert(self.payload@.subrange(0, n as int) =~= self.payload@);
        assert(final(output)@ =~= old(output)@ + self.spec_wire());
    }

    /// The payload length that the frame in `input` declares, reading the
    /// extended length where its 7-bit field calls for one:
    /// `TruncatedInput` while the length is incomplete, `LengthTooLarge` when
    /// it exceeds `MAX_PAYLOAD_LEN`.
    pub fn read_length(input: &[u8]) -> (r: Result<u64, FrameError>)
        ensures
            input@.len() < 2 || input@.len() < wire_length_end(input@) ==> r == Err::<
                u64,
                FrameError,
            >(FrameError::TruncatedInput),
            input@.len() >= 2 && input@.len() >= wire_length_end(input@) && wire_payload_len(
                input@,
            ) > MAX_PAYLOAD_LEN ==> r == Err::<u64, FrameError>(FrameError::LengthTooLarge),
            input@.len() >= 2 && input@.len() >= wire_length_end(input@) && wire_payload_len(
                input@,
            ) <= MAX_PAYLOAD_LEN ==> r == Ok::<u64, FrameError>(wire_payload_len(input@) as u64),
            match r {
                Ok(n) => wire_header(input@).payload_length == FRAME_LEN_U16 ==> n < 65536,
                Err(_) => true,
            },
    {
        if input.len() < 2 {
            return Err(FrameError::TruncatedInput);
        }
        let payload_len: u8 = input[1] & 0x7f;
        proof {
            let b1 = input@[1];
            assert(b1 & 0x7f < 128) by (bit_vector);
        }
        let n: u64 = if payload_len == FRAME_LEN_U64 {
            if input.len() < 10 {
                return Err(FrameError::TruncatedInput);
            }
            read_be_u64(input, 2)
        } else if payload_len == FRAME_LEN_U16 {
            if input.len() < 4 {
                return Err(FrameError::TruncatedInput);
            }
            read_be_u16(input, 2) as u64
        } else {
            payload_len as u64
        };
        if n > MAX_PAYLOAD_LEN {
            return Err(FrameError::LengthTooLarge);
        }
        Ok(n)
    }

    /// A copy of the bytes of `input` from `start` up to `end`;
    /// `TruncatedInput` when `input` ends before `end`.
    pub fn read_payload(input: &[u8], start: usize, end: usize) -> (r: Result<Vec<u8>, FrameError>)
        requires
            start <= end,
        ensures
            end <= input@.len() ==> (r matches Ok(v) && v@ == input@.subrange(
                start as int,
                end as int,
            )),
            end > input@.len() ==> r matches Err(FrameError::TruncatedInput),
    {
        if input.len() < end {
            return Err(FrameError::TruncatedInput);
        }
        Ok(slice_to_vec(slice_subrange(input, start, end)))
    }

    /// Decodes the frame at the start of `input`, removing its mask, and
    /// returns it with the number of bytes it took; or says why it cannot:
    /// `TruncatedInput` when more bytes are needed.
    pub fn read(input: &[u8]) -> (r: Result<(WebSocketFrame, usize), FrameError>)
        ensures
            match r {
                Ok((f, n)) => decoded_as(input@, f, n as nat) && f.wf(),
                Err(e) => decode_error(input@) == Some(e),
            },
    {
        if input.len() < 2 {
            return Err(FrameError::TruncatedInput);
        }
        let word = read_be_u16(input, 0);
        proof {
            lemma_be_value_two(input@.subrange(0, 2));
            assert(word / 256 == input@[0] && word % 256 == input@[1]) by (nonlinear_arith)
                requires
                    word == input@[0] as nat * 256 + input@[1] as nat,
                    input@[1] < 256,
            ;
        }
        let header = match Self::parse_header(word) {
            Ok(h) => h,
            Err(e) => return Err(e),
        };
        assert(header == wire_header(input@));
        if header.rsv1 || header.rsv2 || header.rsv3 {
            return Err(FrameError::ReservedBitsSet);
        }
        let len = match Self::read_length(input) {
            Ok(n) => n,
            Err(e) => return Err(e),
        };
        let pos: usize = if header.payload_length == FRAME_LEN_U64 {
            10
        } else if header.payload_length == FRAME_LEN_U16 {
            4
        } else {
            2
        };
        let start: usize = if header.masked { pos + 4 } else { pos };
        let end: usize = start + len as usize;
        let mut payload = match Self::read_payload(input, start, end) {
            Ok(v) => v,
            Err(e) => return Err(e),
        };
        let mask_key = if header.masked {
            match Self::read_mask(input, pos) {
                Ok(m) => Some(m),
                Err(e) => return Err(e),
            }
        } else {
            None
        };
        match mask_key {
            Some(m) => Self::apply_mask(m, &mut payload),
            None => {},
        }
        proof {
            let b0 = input@[0];
            let b1 = input@[1];
            assert(b0 & 0x0f < 16 && b1 & 0x7f < 128) by (bit_vector);
        }
        let f = WebSocketFrame { header, mask: mask_key, payload };
        assert(start == wire_payload_start(input@));
        assert(end == wire_frame_end(input@));
        assert(decode_error(input@) is None);
        assert(f.payload@ == wire_payload(input@));
        assert(f.wf());
        Ok((f, end))
    }
}

/// A header that this codec sends and accepts back for payload `p`: a
/// recognised opcode, no reserved bits, a 7-bit length field that agrees with
/// `p`, and `p` within the decoder's cap.
pub open spec fn sendable(h: WebSocketFrameHeader, p: Seq<u8>) -> bool {
    &&& opcode_of(h.opcode) is Some
    &&& !h.rsv1 && !h.rsv2 && !h.rsv3
    &&& h.payload_length < 128
    &&& (h.payload_length < FRAME_LEN_U16 ==> p.len() == h.payload_length)
    &&& (h.payload_length == FRAME_LEN_U16 ==> p.len() < 65536)
    &&& p.len() <= MAX_PAYLOAD_LEN
}

/// Decoding the bytes sent for header `h` and payload `p` gives back the
/// header (with MASK clear) and the payload, and takes exactly those bytes.
pub proof fn lemma_write_read_round_trip(h: WebSocketFrameHeader, p: Seq<u8>)
    requires
        sendable(h, p),
    ensures
        decode_error(wire_bytes(h, p)) is None,
        wire_header(wire_bytes(h, p)) == (WebSocketFrameHeader { masked: false, ..h }),
        wire_payload(wire_bytes(h, p)) == p,
        wire_frame_end(wire_bytes(h, p)) == wire_bytes(h, p).len(),
{
    let hm = WebSocketFrameHeader { masked: false, ..h };
    assert(opcode_of(h.opcode) is Some ==> h.opcode < 16);
    lemma_header_bytes_round_trip(hm);
    assert(header_byte0(hm) == header_byte0(h));
    let s = wire_bytes(h, p);
    let len7 = h.payload_length;
    let k = ext_size(len7);
    assert(wire_header(s) == hm);
    reveal_with_fuel(pow256, 9);
    if len7 == FRAME_LEN_U16 {
        lemma_be_value_of_bytes(p.len(), 2);
    } else if len7 == FRAME_LEN_U64 {
        lemma_be_value_of_bytes(p.len(), 8);
    }
    assert(s.subrange(2, 2 + k as int) =~= ext_bytes(len7, p.len()));
    assert(wire_payload_len(s) == p.len());
    assert(s.subrange(wire_payload_start(s) as int, wire_frame_end(s) as int) =~= p);
}

/// The frame built for payload `p` under opcode `op`, once sent and decoded,
/// gives back `p` and `op`, for any payload within the decoder's cap.
pub proof fn lemma_round_trip(p: Seq<u8>, op: OpCode)
    requires
        p.len() <= MAX_PAYLOAD_LEN,
    ensures
        ({
            let h = WebSocketFrameHeader {
                fin: true,
                rsv1: false,
                rsv2: false,
                rsv3: false,
                masked: false,
                opcode: opcode_value(op),
                payload_length: length_field(p.len()),
            };
            let s = wire_bytes(h, p);
            &&& decode_error(s) is None
            &&& wire_payload(s) == p
            &&& opcode_of(wire_header(s).opcode) == Some(op)
            &&& wire_header(s) == h
            &&& wire_frame_end(s) == s.len()
        }),
{
    let h = WebSocketFrameHeader {
        fin: true,
        rsv1: false,
        rsv2: false,
        rsv3: false,
        masked: false,
        opcode: opcode_value(op),
        payload_length: length_field(p.len()),
    };
    lemma_write_read_round_trip(h, p);
    assert((WebSocketFrameHeader { masked: false, ..h }) == h);
}

/// Every strict prefix of a complete frame decodes as `TruncatedInput`: a
/// reader that has only part of a frame keeps it and waits for more.
pub proof fn lemma_prefix_truncated(s: Seq<u8>, k: nat)
    requires
        decode_error(s) is None,
        k < wire_frame_end(s),
    ensures
        decode_error(s.take(k as int)) == Some(FrameError::TruncatedInput),
{
    let a = s.take(k as int);
    if k >= 2 {
        assert(wire_header(a) == wire_header(s));
        if k >= wire_length_end(s) {
            assert(a.subrange(2, wire_length_end(s) as int) =~= s.subrange(
                2,
                wire_length_end(s) as int,
            ));
        }
    }
}

/// Bytes that follow a complete frame do not change how it decodes.
pub proof fn lemma_extension_stable(s: Seq<u8>, t: Seq<u8>)
    requires
        decode_error(s) is None,
    ensures
        decode_error(s + t) is None,
        wire_header(s + t) == wire_header(s),
        wire_frame_end(s + t) == wire_frame_end(s),
        wire_payload(s + t) == wire_payload(s),
        wire_header(s).masked ==> wire_mask_key(s + t) == wire_mask_key(s),
{
    let u = s + t;
    assert(wire_header(u) == wire_header(s));
    assert(u.subrange(2, wire_length_end(s) as int) =~= s.subrange(2, wire_length_end(s) as int));
    if wire_header(s).masked {
        assert(wire_mask_key(u) =~= wire_mask_key(s));
    }
    assert(u.subrange(wire_payload_start(s) as int, wire_frame_end(s) as int) =~= s.subrange(
        wire_payload_start(s) as int,
        wire_frame_end(s) as int,
    ));
}

/// A frame split anywhere into two chunks: the first chunk alone decodes as
/// `TruncatedInput`, and the two chunks buffered together decode exactly as
/// the whole frame does.
pub proof fn lemma_split_reassembly(a: Seq<u8>, b: Seq<u8>)
    requires
        decode_error(a + b) is None,
        wire_frame_end(a + b) == (a + b).len(),
        b.len() > 0,
    ensures
        decode_error(a) == Some(FrameError::TruncatedInput),
{
    let s = a + b;
    lemma_prefix_truncated(s, a.len());
    assert(s.take(a.len() as int) =~= a);
}

} // verus!
