//! The per-connection state machine: handshake headers, buffering of partial
//! frame input, and what to do with each decoded frame.
use vstd::prelude::*;
use vstd::string::StringSliceAdditionalSpecFns;
use vstd::slice::{slice_subrange, slice_to_vec};
use crate::frame::{
    decode_error, decoded_as, lemma_split_reassembly, length_field, opcode_of, opcode_value,
    wire_bytes, wire_frame_end, wire_header, wire_payload, FrameError, OpCode, WebSocketFrame,
    WebSocketFrameHeader,
};
use crate::handshake::{accept_value, append_bytes, gen_key};

verus! {

/// Name of the request header that carries the client's key.
pub const KEY_HEADER: &'static str = "Sec-WebSocket-Key";
/// The upgrade response up to the accept value.
pub const RESPONSE_HEAD: &'static str =
    "HTTP/1.1 101 Switching Protocols\r\nUpgrade: websocket\r\nConnection: Upgrade\r\nSec-WebSocket-Accept: ";
/// The end of the upgrade response, after the accept value.
pub const RESPONSE_TAIL: &'static str = "\r\n\r\n";

/// Where a connection stands in its life.
#[derive(Debug, Clone, Copy, PartialEq, Eq, Structural)]
pub enum Phase {
    Handshaking,
    Framed,
    Closing,
}

/// What the event loop is to do after one step of a framed connection.
#[derive(Debug)]
pub enum Step {
    /// The buffered bytes hold no complete frame yet: wait for more input.
    NeedMore,
    /// A data frame (text, binary, continuation or pong) for the application.
    Deliver(WebSocketFrame),
    /// Send these bytes and stay connected (the answer to a ping).
    Reply(Vec<u8>),
    /// Send these bytes (a close frame), then shut the connection down.
    Close(Vec<u8>),
}

/// One client connection's state, apart from its socket.
pub struct ClientConnection {
    pub phase: Phase,
    /// Request headers received so far, in order of arrival.
    pub headers: Vec<(Vec<u8>, Vec<u8>)>,
    /// The header name whose value is expected next.
    pub current_field: Option<Vec<u8>>,
    /// Frame bytes received and not yet decoded.
    pub pending: Vec<u8>,
}

/// The headers as a sequence of (name, value) byte strings.
pub open spec fn headers_view(hs: Seq<(Vec<u8>, Vec<u8>)>) -> Seq<(Seq<u8>, Seq<u8>)> {
    hs.map_values(|p: (Vec<u8>, Vec<u8>)| (p.0@, p.1@))
}

/// The value of the last header named `name`, if any (a later header of the
/// same name replaces an earlier one).
pub open spec fn header_lookup(hs: Seq<(Seq<u8>, Seq<u8>)>, name: Seq<u8>) -> Option<Seq<u8>>
    decreases hs.len(),
{
    if hs.len() == 0 {
        None
    } else if hs.last().0 == name {
        Some(hs.last().1)
    } else {
        header_lookup(hs.drop_last(), name)
    }
}

/// The full upgrade response for accept value `accept`.
pub open spec fn upgrade_response(accept: Seq<u8>) -> Seq<u8> {
    RESPONSE_HEAD.spec_bytes() + accept + RESPONSE_TAIL.spec_bytes()
}

/// The header of an outgoing frame with opcode `op` and a payload of `len` bytes.
pub open spec fn out_header(op: OpCode, len: nat) -> WebSocketFrameHeader {
    WebSocketFrameHeader {
        fin: true,
        rsv1: false,
        rsv2: false,
        rsv3: false,
        masked: false,
        opcode: opcode_value(op),
        payload_length: length_field(len),
    }
}

/// The bytes of an empty close frame.
pub open spec fn close_frame_bytes() -> Seq<u8> {
    wire_bytes(out_header(OpCode::ConnectionClose, 0), Seq::empty())
}

/// Whether two byte strings are equal.
pub fn bytes_eq(a: &[u8], b: &[u8]) -> (r: bool)
    ensures
        r == (a@ == b@),
{
    if a.len() != b.len() {
        return false;
    }
    let mut i: usize = 0;
    while i < a.len()
        invariant
            a@.len() == b@.len(),
            i <= a@.len(),
            forall|j: int| 0 <= j < i ==> a@[j] == b@[j],
        decreases a@.len() - i,
    {
        if a[i] != b[i] {
            return false;
        }
        i = i + 1;
    }
    assert(a@ =~= b@);
    true
}

/// The value of the last header in `hs` named `name`.
pub fn find_header<'a>(hs: &'a Vec<(Vec<u8>, Vec<u8>)>, name: &[u8]) -> (r: Option<&'a Vec<u8>>)
    ensures
        match r {
            Some(v) => header_lookup(headers_view(hs@), name@) == Some(v@),
            None => header_lookup(headers_view(hs@), name@) is None,
        },
{
    let mut i: usize = hs.len();
    assert(hs@.subrange(0, i as int) =~= hs@);
    while i > 0
        invariant
            i <= hs@.len(),
            header_lookup(headers_view(hs@), name@) == header_lookup(
                headers_view(hs@.subrange(0, i as int)),
                name@,
            ),
        decreases i,
    {
        let ghost sub = headers_view(hs@.subrange(0, i as int));
        assert(sub.drop_last() =~= headers_view(hs@.subrange(0, i - 1)));
        if bytes_eq(hs[i - 1].0.as_slice(), name) {
            return Some(&hs[i - 1].1);
        }
        i = i - 1;
    }
    assert(headers_view(hs@.subrange(0, 0)) =~= Seq::<(Seq<u8>, Seq<u8>)>::empty());
    None
}

/// The upgrade response for client key `key`.
pub fn handshake_response(key: &[u8]) -> (r: Vec<u8>)
    ensures
        r@ == upgrade_response(accept_value(key@)),
{
    let accept = gen_key(key);
    let mut r: Vec<u8> = Vec::new();
    append_bytes(&mut r, RESPONSE_HEAD.as_bytes());
    append_bytes(&mut r, accept.as_slice());
    append_bytes(&mut r, RESPONSE_TAIL.as_bytes());
    r
}

/// What one step does to a framed connection `a`, leaving `b` and
/// returning `r`.
pub open spec fn step_outcome(a: ClientConnection, b: ClientConnection, r: Step) -> bool {
    let s = a.pending@;
    &&& b.headers == a.headers
    &&& match decode_error(s) {
        Some(FrameError::TruncatedInput) => r is NeedMore && b.pending@ == s && b.phase
            == Phase::Framed,
        Some(_) => (r matches Step::Close(c) && c@ == close_frame_bytes()) && b.phase
            == Phase::Closing && b.pending@.len() == 0,
        None => {
            let op = opcode_of(wire_header(s).opcode);
            let p = wire_payload(s);
            &&& b.pending@ == s.skip(wire_frame_end(s) as int)
            &&& if op == Some(OpCode::ConnectionClose) {
                (r matches Step::Close(c) && c@ == close_frame_bytes()) && b.phase
                    == Phase::Closing
            } else if op == Some(OpCode::Ping) {
                (r matches Step::Reply(c) && c@ == wire_bytes(out_header(OpCode::Pong, p.len()), p))
                    && b.phase == Phase::Framed
            } else {
                (r matches Step::Deliver(f) && decoded_as(s, f, wire_frame_end(s))) && b.phase
                    == Phase::Framed
            }
        },
    }
}

/// What the end of the request head does to a handshaking connection `a`,
/// leaving `b` and returning `r`.
pub open spec fn headers_complete_outcome(
    a: ClientConnection,
    b: ClientConnection,
    is_upgrade: bool,
    r: Option<Vec<u8>>,
) -> bool {
    &&& match header_lookup(headers_view(a.headers@), KEY_HEADER.spec_bytes()) {
        Some(key) if is_upgrade => r matches Some(resp) && resp@ == upgrade_response(
            accept_value(key),
        ) && b.phase == Phase::Framed,
        _ => r is None && b.phase == Phase::Closing,
    }
    &&& b.headers == a.headers
    &&& b.pending == a.pending
}

/// What one read from the socket gave.
#[derive(Debug, Clone, Copy, PartialEq, Eq, Structural)]
pub enum ReadEvent {
    /// Some bytes arrived (and have been handed on).
    Bytes,
    /// No data is available now.
    WouldBlock,
    /// The read was interrupted before any data arrived.
    Interrupted,
    /// A zero-length read: the peer has closed.
    EndOfInput,
    /// Any other read error.
    Failed,
}

/// Whether the event loop should read the socket again.
#[derive(Debug, Clone, Copy, PartialEq, Eq, Structural)]
pub enum ReadAction {
    ReadAgain,
    StopReading,
}

/// What a read event does to connection `a`, leaving `b` and returning `r`:
/// end of input or a read error closes the connection; would-block stops the
/// reads; an interrupted read is retried; after bytes, reads go on unless the
/// connection is closing.
pub open spec fn read_event_outcome(
    a: ClientConnection,
    b: ClientConnection,
    ev: ReadEvent,
    r: ReadAction,
) -> bool {
    &&& b.headers == a.headers
    &&& b.pending == a.pending
    &&& b.current_field == a.current_field
    &&& match ev {
        ReadEvent::EndOfInput | ReadEvent::Failed => b.phase == Phase::Closing && r
            == ReadAction::StopReading,
        ReadEvent::WouldBlock => b.phase == a.phase && r == ReadAction::StopReading,
        ReadEvent::Interrupted => b.phase == a.phase && r == ReadAction::ReadAgain,
        ReadEvent::Bytes => b.phase == a.phase && (r == ReadAction::ReadAgain <==> a.phase
            != Phase::Closing),
    }
}

/// What the HTTP parser's report on a chunk of the request does to a
/// handshaking connection `a`, leaving `b` and returning `r`. Once the
/// request head is complete, an upgrade request with a key moves to the
/// framed phase, buffers the bytes after the head (`rest`) as frame input
/// and yields the upgrade response; any other complete request closes. A
/// parse error before the head is complete closes; otherwise nothing changes.
pub open spec fn request_outcome(
    a: ClientConnection,
    b: ClientConnection,
    parse_error: bool,
    complete: bool,
    is_upgrade: bool,
    rest: Seq<u8>,
    r: Option<Vec<u8>>,
) -> bool {
    &&& b.headers == a.headers
    &&& if complete {
        match header_lookup(headers_view(a.headers@), KEY_HEADER.spec_bytes()) {
            Some(key) if is_upgrade => r matches Some(resp) && resp@ == upgrade_response(
                accept_value(key),
            ) && b.phase == Phase::Framed && b.pending@ == a.pending@ + rest,
            _ => r is None && b.phase == Phase::Closing && b.pending == a.pending,
        }
    } else if parse_error {
        r is None && b.phase == Phase::Closing && b.pending == a.pending
    } else {
        r is None && b.phase == a.phase && b.pending == a.pending
    }
}

/// When only the first of two chunks of a complete frame has arrived, a
/// step asks for more input and keeps the chunk buffered, so that once the
/// second chunk is fed the buffer holds the frame exactly as if it had come
/// in one piece.
pub proof fn lemma_first_chunk_kept(
    a: ClientConnection,
    b: ClientConnection,
    r: Step,
    first: Seq<u8>,
    second: Seq<u8>,
)
    requires
        a.pending@ == first,
        decode_error(first + second) is None,
        wire_frame_end(first + second) == (first + second).len(),
        second.len() > 0,
        step_outcome(a, b, r),
    ensures
        r is NeedMore,
        b.pending@ == first,
        b.pending@ + second == first + second,
        b.phase == Phase::Framed,
{
    lemma_split_reassembly(first, second);
}

/// The bytes of an empty close frame.
pub fn close_frame() -> (r: Vec<u8>)
    ensures
        r@ == close_frame_bytes(),
{
    let empty: Vec<u8> = Vec::new();
    let f = WebSocketFrame::new(empty.as_slice(), OpCode::ConnectionClose);
    let mut out: Vec<u8> = Vec::new();
    f.write(&mut out);
    assert(out@ =~= close_frame_bytes());
    out
}

impl ClientConnection {
    /// A connection that has received nothing yet.
    pub open spec fn is_fresh(&self) -> bool {
        &&& self.phase == Phase::Handshaking
        &&& self.headers@.len() == 0
        &&& self.current_field is None
        &&& self.pending@.len() == 0
    }

    /// A freshly accepted connection, waiting for the upgrade request.
    pub fn new() -> (r: ClientConnection)
        ensures
            r.is_fresh(),
    {
        ClientConnection {
            phase: Phase::Handshaking,
            headers: Vec::new(),
            current_field: None,
            pending: Vec::new(),
        }
    }

    /// The HTTP parser has read a header name.
    pub fn on_header_field(&mut self, s: &[u8])
        ensures
            final(self).current_field matches Some(k) && k@ == s@,
            final(self).phase == old(self).phase,
            final(self).headers == old(self).headers,
            final(self).pending == old(self).pending,
    {
        self.current_field = Some(slice_to_vec(s));
    }

    /// The HTTP parser has read a header value: it is recorded under the
    /// name read last, if there is one.
    pub fn on_header_value(&mut self, s: &[u8])
        ensures
            match old(self).current_field {
                Some(k) => headers_view(final(self).headers@) == headers_view(old(self).headers@).push(
                    (k@, s@),
                ),
                None => final(self).headers == old(self).headers,
            },
            final(self).current_field == old(self).current_field,
            final(self).phase == old(self).phase,
            final(self).pending == old(self).pending,
    {
        match &self.current_field {
            Some(k) => {
                let entry = (k.clone(), slice_to_vec(s));
                let ghost before = self.headers@;
                self.headers.push(entry);
                proof {
                    assert(entry.0@ == k@);
                    assert(headers_view(self.headers@) =~= headers_view(before).push((k@, s@)));
                }
            },
            None => {},
        }
    }

    /// The HTTP parser has read the whole request head. An upgrade request
    /// that carries a key moves the connection to the framed phase and
    /// yields the upgrade response to send; any other request closes it.
    pub fn on_headers_complete(&mut self, is_upgrade: bool) -> (r: Option<Vec<u8>>)
        requires
            old(self).phase == Phase::Handshaking,
        ensures
            headers_complete_outcome(*old(self), *final(self), is_upgrade, r),
    {
        if !is_upgrade {
            self.phase = Phase::Closing;
            return None;
        }
        let resp = match find_header(&self.headers, KEY_HEADER.as_bytes()) {
            Some(key) => handshake_response(key.as_slice()),
            None => {
                self.phase = Phase::Closing;
                return None;
            },
        };
        self.phase = Phase::Framed;
        Some(resp)
    }

    /// Bytes read from the socket are added to the not-yet-decoded input.
    pub fn feed(&mut self, chunk: &[u8])
        ensures
            final(self).pending@ == old(self).pending@ + chunk@,
            final(self).phase == old(self).phase,
            final(self).headers == old(self).headers,
    {
        append_bytes(&mut self.pending, chunk);
    }

    /// A read error or end of input: the connection is to be closed.
    pub fn close(&mut self)
        ensures
            final(self).phase == Phase::Closing,
            final(self).headers == old(self).headers,
            final(self).pending == old(self).pending,
            final(self).current_field == old(self).current_field,
    {
        self.phase = Phase::Closing;
    }

    /// Decides what follows one read from the socket.
    pub fn on_read(&mut self, ev: ReadEvent) -> (r: ReadAction)
        ensures
            read_event_outcome(*old(self), *final(self), ev, r),
    {
        match ev {
            ReadEvent::EndOfInput | ReadEvent::Failed => {
                self.close();
                ReadAction::StopReading
            },
            ReadEvent::WouldBlock => ReadAction::StopReading,
            ReadEvent::Interrupted => ReadAction::ReadAgain,
            ReadEvent::Bytes => {
                if matches!(self.phase, Phase::Closing) {
                    ReadAction::StopReading
                } else {
                    ReadAction::ReadAgain
                }
            },
        }
    }

    /// Takes the HTTP parser's report on a chunk of the request: whether it
    /// found an error, whether the request head is complete, whether it is
    /// an upgrade, and the bytes of the chunk after the head.
    pub fn on_request_bytes(
        &mut self,
        parse_error: bool,
        complete: bool,
        is_upgrade: bool,
        rest: &[u8],
    ) -> (r: Option<Vec<u8>>)
        requires
            old(self).phase == Phase::Handshaking,
        ensures
            request_outcome(*old(self), *final(self), parse_error, complete, is_upgrade, rest@, r),
    {
        if complete {
            let out = self.on_headers_complete(is_upgrade);
            if out.is_some() {
                self.feed(rest);
            }
            out
        } else if parse_error {
            self.close();
            None
        } else {
            None
        }
    }

    /// Decodes at most one frame from the buffered input and says what to do
    /// with it. Incomplete input stays buffered; a malformed frame or a close
    /// frame is answered with a close frame and ends the connection; a ping
    /// is answered with a pong carrying the same payload.
    pub fn step(&mut self) -> (r: Step)
        requires
            old(self).phase == Phase::Framed,
        ensures
            step_outcome(*old(self), *final(self), r),
    {
        match WebSocketFrame::read(self.pending.as_slice()) {
            Err(FrameError::TruncatedInput) => Step::NeedMore,
            Err(_) => {
                self.phase = Phase::Closing;
                self.pending = Vec::new();
                Step::Close(close_frame())
            },
            Ok((f, n)) => {
                let len = self.pending.len();
                self.pending = slice_to_vec(slice_subrange(self.pending.as_slice(), n, len));
                match OpCode::from_u8(f.header.opcode) {
                    Some(OpCode::ConnectionClose) => {
                        self.phase = Phase::Closing;
                        Step::Close(close_frame())
                    },
                    Some(OpCode::Ping) => {
                        let pong = WebSocketFrame::new(f.payload.as_slice(), OpCode::Pong);
                        let mut out: Vec<u8> = Vec::new();
                        pong.write(&mut out);
                        assert(out@ =~= wire_bytes(out_header(OpCode::Pong, f.payload@.len()), f.payload@));
                        Step::Reply(out)
                    },
                    _ => Step::Deliver(f),
                }
            },
        }
    }
}

} // verus!
