//! Decoding of the frames that a websocket client sends (RFC 6455, section 5).
use vstd::prelude::*;
use vstd::utf8::{decode_utf8, encode_utf8, encode_utf8_decode_utf8, encode_utf8_valid_utf8, valid_utf8};
use crate::message::Message;
use crate::text::str_from_utf8;
use crate::hstring::{buffer_text, buffer_text_as_str, buffer_text_new, buffer_text_push_str};
use vstd::slice::{slice_subrange, slice_to_vec};

verus! {

/// What a client frame carries, as the decoder reports it.
#[derive(Debug, PartialEq, Eq, Structural, Clone, Copy)]
pub enum WebSocketFrameType {
    Continuation,
    /// A text frame whose payload has the given length.
    Text(usize),
    /// A binary frame whose payload has the given length.
    Binary(usize),
    ConnectionClose,
    Ping,
    Pong,
    Unknown,
    Invalid,
}

/// Why the websocket server could not deliver a message.
#[derive(Debug, PartialEq, Eq, Structural, Clone, Copy)]
pub enum WebSocketError {
    InvalidState,
    InvalidPort,
    ConnectionReset,
    InvalidMessage,
    InboxEmpy,
}

/// A final frame, without extension bits, with the mask bit set.
pub open spec fn header_ok(d: Seq<u8>) -> bool {
    &&& d.len() >= 2
    &&& d[0] & 0x80 == 0x80
    &&& d[0] & 0x70 == 0
    &&& d[1] & 0x80 == 0x80
}

/// The 7-bit payload length field.
pub open spec fn length_code(d: Seq<u8>) -> u8 {
    d[1] & 0x7f
}

/// Where the payload starts: after the header, the extended length and the mask key.
pub open spec fn frame_payload_start(d: Seq<u8>) -> int {
    if length_code(d) == 0x7e {
        8
    } else if length_code(d) == 0x7f {
        14
    } else {
        6
    }
}

/// The big-endian 64-bit value of the eight bytes at `i`.
pub open spec fn be64_at(d: Seq<u8>, i: int) -> u64 {
    ((d[i] as u64) << 56) | ((d[i + 1] as u64) << 48) | ((d[i + 2] as u64) << 40) | ((d[i + 3] as u64)
        << 32) | ((d[i + 4] as u64) << 24) | ((d[i + 5] as u64) << 16) | ((d[i + 6] as u64) << 8) | (d[i
        + 7] as u64)
}

/// The payload length that the header announces (7-bit or 64-bit form).
pub open spec fn frame_payload_len(d: Seq<u8>) -> int {
    if length_code(d) == 0x7f {
        be64_at(d, 2) as int
    } else {
        length_code(d) as int
    }
}

/// A frame with the 16-bit extended length form that is long enough to be read;
/// the decoder reads its length as eight bytes out of a two-byte field and panics.
pub open spec fn is_16bit_length_frame(d: Seq<u8>) -> bool {
    header_ok(d) && length_code(d) == 0x7e && d.len() >= 8
}

/// A frame that the decoder accepts: a good header, the whole mask key, and the
/// announced payload within the data.
pub open spec fn frame_is_valid(d: Seq<u8>) -> bool {
    &&& header_ok(d)
    &&& length_code(d) != 0x7e
    &&& d.len() >= frame_payload_start(d)
    &&& frame_payload_len(d) <= d.len() - frame_payload_start(d)
}

/// The frame type of a client frame, by its opcode.
pub open spec fn frame_type_of(d: Seq<u8>) -> WebSocketFrameType {
    if !frame_is_valid(d) {
        WebSocketFrameType::Invalid
    } else {
        let opcode = d[0] & 0x0f;
        if opcode == 0 {
            WebSocketFrameType::Continuation
        } else if opcode == 1 {
            WebSocketFrameType::Text(frame_payload_len(d) as usize)
        } else if opcode == 2 {
            WebSocketFrameType::Binary(frame_payload_len(d) as usize)
        } else if opcode == 8 {
            WebSocketFrameType::ConnectionClose
        } else if opcode == 9 {
            WebSocketFrameType::Ping
        } else if opcode == 10 {
            WebSocketFrameType::Pong
        } else {
            WebSocketFrameType::Unknown
        }
    }
}

/// The data after decoding: for a valid frame, everything after the mask key is
/// unmasked (XOR with the key, cycling) and moved to the front; the last
/// `payload_start` bytes stay as they were. An invalid frame is left unchanged.
pub open spec fn unmasked(d: Seq<u8>) -> Seq<u8> {
    if !frame_is_valid(d) {
        d
    } else {
        let start = frame_payload_start(d);
        Seq::new(
            d.len(),
            |j: int|
                if j < d.len() - start {
                    d[j + start] ^ d[start - 4 + j % 4]
                } else {
                    d[j]
                },
        )
    }
}

/// Decodes a client frame in place: checks its header, reports its type, and
/// unmasks its payload to the front of `data`.
pub fn unpack_clientframe(data: &mut [u8]) -> (frame_type: WebSocketFrameType)
    requires
        !is_16bit_length_frame(old(data)@),
    ensures
        frame_type == frame_type_of(old(data)@),
        final(data)@ == unmasked(old(data)@),
{
    let ghost d = data@;
    let payload_len: u64;
    let payload_start: usize;
    let mut mask_key: [u8; 4] = [0u8; 4];
    let frame_type: WebSocketFrameType;
    if data.len() < 2 {
        return WebSocketFrameType::Invalid;
    }
    if data[0] & 0x80 != 0x80 {
        return WebSocketFrameType::Invalid;
    }
    if data[0] & 0b01110000 != 0 {
        return WebSocketFrameType::Invalid;
    }
    if data[1] & 0x80 != 0x80 {
        return WebSocketFrameType::Invalid;
    }
    let code = data[1] & 0b01111111;
    if code == 0x7E {
        // Frames of this form that hold at least eight bytes are outside the precondition.
        return WebSocketFrameType::Invalid;
    } else if code == 0x7F {
        if data.len() < 14 {
            return WebSocketFrameType::Invalid;
        }
        payload_len = ((data[2] as u64) << 56) | ((data[3] as u64) << 48) | ((data[4] as u64) << 40)
            | ((data[5] as u64) << 32) | ((data[6] as u64) << 24) | ((data[7] as u64) << 16) | ((
        data[8] as u64) << 8) | (data[9] as u64);
        payload_start = 14;
        let mut i: usize = 0;
        while i < 4
            invariant
                i <= 4,
                data@ == d,
                d.len() >= 14,
                forall|k: int| 0 <= k < i ==> mask_key@[k] == d[k + 10],
            decreases 4 - i,
        {
            mask_key[i] = data[i + 10];
            i = i + 1;
        }
    } else {
        if data.len() < 6 {
            return WebSocketFrameType::Invalid;
        }
        payload_len = code as u64;
        payload_start = 6;
        let mut i: usize = 0;
        while i < 4
            invariant
                i <= 4,
                data@ == d,
                d.len() >= 6,
                forall|k: int| 0 <= k < i ==> mask_key@[k] == d[k + 2],
            decreases 4 - i,
        {
            mask_key[i] = data[i + 2];
            i = i + 1;
        }
    }
    assert(payload_start as int == frame_payload_start(d));
    assert(payload_len as int == frame_payload_len(d));
    if payload_len > (data.len() - payload_start) as u64 {
        return WebSocketFrameType::Invalid;
    }
    assert(frame_is_valid(d));
    let opcode = data[0] & 0b1111;
    if opcode == 0x0 {
        frame_type = WebSocketFrameType::Continuation;
    } else if opcode == 0x1 {
        frame_type = WebSocketFrameType::Text(payload_len as usize);
    } else if opcode == 0x2 {
        frame_type = WebSocketFrameType::Binary(payload_len as usize);
    } else if opcode == 0x8 {
        frame_type = WebSocketFrameType::ConnectionClose;
    } else if opcode == 0x9 {
        frame_type = WebSocketFrameType::Ping;
    } else if opcode == 0xA {
        frame_type = WebSocketFrameType::Pong;
    } else {
        frame_type = WebSocketFrameType::Unknown;
    }
    let mut i: usize = payload_start;
    while i < data.len()
        invariant
            payload_start as int == frame_payload_start(d),
            6 <= payload_start <= i <= d.len(),
            data@.len() == d.len(),
            forall|k: int| 0 <= k < 4 ==> mask_key@[k] == d[payload_start - 4 + k],
            forall|j: int|
                0 <= j < i - payload_start ==> #[trigger] data@[j] == d[j + payload_start]
                    ^ d[payload_start - 4 + j % 4],
            forall|j: int| i - payload_start <= j < d.len() ==> #[trigger] data@[j] == d[j],
        decreases d.len() - i,
    {
        data[i - payload_start] = data[i] ^ mask_key[(i - payload_start) % 4];
        i = i + 1;
    }
    assert(data@ =~= unmasked(d));
    frame_type
}

/// A frame that the message decoder can take: not of the 16-bit length form (on
/// which the frame decoder panics), and, for a text frame, a payload of valid UTF-8
/// (it is unwrapped as a string) that fits a buffer of 1024 bytes.
pub open spec fn is_decodable_frame(d: Seq<u8>) -> bool {
    &&& !is_16bit_length_frame(d)
    &&& (frame_type_of(d) matches WebSocketFrameType::Text(m) ==> valid_utf8(
        unmasked(d).take(m as int),
    ) && m <= 1024)
}

/// The message that a client frame delivers: a text frame whose payload is the text
/// of a message gives that message; every other frame is an invalid message.
pub open spec fn message_of_frame(d: Seq<u8>) -> Result<Message, WebSocketError> {
    match frame_type_of(d) {
        WebSocketFrameType::Text(m) => match Message::parse(decode_utf8(unmasked(d).take(m as int))) {
            Some(msg) => Ok(msg),
            None => Err(WebSocketError::InvalidMessage),
        },
        _ => Err(WebSocketError::InvalidMessage),
    }
}

/// Decodes the message carried by one frame received from the client; the frame
/// is unmasked in place.
pub fn decode_message(frame: &mut [u8]) -> (r: Result<Message, WebSocketError>)
    requires
        is_decodable_frame(old(frame)@),
    ensures
        r == message_of_frame(old(frame)@),
        final(frame)@ == unmasked(old(frame)@),
{
    let frame_type = unpack_clientframe(frame);
    match frame_type {
        WebSocketFrameType::Text(m) => {
            let payload = slice_subrange(frame, 0, m);
            match str_from_utf8(payload) {
                Some(received) => {
                    proof {
                        encode_utf8_decode_utf8(received@);
                    }
                    let mut data = buffer_text_new();
                    assert(vstd::utf8::encode_utf8(buffer_text(data)) =~= Seq::<u8>::empty());
                    let r = buffer_text_push_str(&mut data, received);
                    assert(r is Ok);
                    let text = buffer_text_as_str(&data);
                    assert(text@ =~= received@);
                    match Message::from_str(text) {
                        Some(msg) => Ok(msg),
                        None => Err(WebSocketError::InvalidMessage),
                    }
                },
                None => Err(WebSocketError::InvalidMessage),
            }
        },
        WebSocketFrameType::Binary(_) => Err(WebSocketError::InvalidMessage),
        _ => Err(WebSocketError::InvalidMessage),
    }
}

/// Whether `decode_message` can take this frame.
pub fn is_decodable_client_frame(frame: &[u8]) -> (b: bool)
    ensures
        b == is_decodable_frame(frame@),
{
    if frame.len() >= 8 && frame[0] & 0x80 == 0x80 && frame[0] & 0x70 == 0 && frame[1] & 0x80 == 0x80
        && frame[1] & 0x7f == 0x7e {
        return false;
    }
    let mut copy = slice_to_vec(frame);
    let frame_type = unpack_clientframe(copy.as_mut_slice());
    match frame_type {
        WebSocketFrameType::Text(m) => {
            let payload = slice_subrange(copy.as_slice(), 0, m);
            m <= 1024 && str_from_utf8(payload).is_some()
        },
        _ => true,
    }
}

/// A frame as a client sends it: final, with a payload shorter than 126 bytes in the
/// 7-bit length form, masked with the four bytes of `mask`.
pub open spec fn client_frame(opcode: u8, payload: Seq<u8>, mask: Seq<u8>) -> Seq<u8> {
    seq![0x80u8 | opcode, 0x80u8 | (payload.len() as u8)] + mask + Seq::new(
        payload.len(),
        |i: int| payload[i] ^ mask[i % 4],
    )
}

/// Decoding a frame that a client masked gives back its payload, whatever the mask.
pub proof fn lemma_client_frame_roundtrip(opcode: u8, payload: Seq<u8>, mask: Seq<u8>)
    requires
        opcode < 16,
        payload.len() < 126,
        mask.len() == 4,
    ensures
        ({
            let f = client_frame(opcode, payload, mask);
            &&& frame_is_valid(f)
            &&& !is_16bit_length_frame(f)
            &&& frame_payload_len(f) == payload.len()
            &&& f[0] & 0x0f == opcode
            &&& unmasked(f).take(payload.len() as int) == payload
        }),
{
    let f = client_frame(opcode, payload, mask);
    let n = payload.len() as u8;
    assert(((0x80u8 | opcode) & 0x80 == 0x80) && ((0x80u8 | opcode) & 0x70 == 0) && ((0x80u8 | opcode)
        & 0x0f == opcode)) by (bit_vector)
        requires
            opcode < 16,
    ;
    assert(((0x80u8 | n) & 0x80 == 0x80) && ((0x80u8 | n) & 0x7f == n)) by (bit_vector)
        requires
            n < 126,
    ;
    assert(f[0] == 0x80u8 | opcode && f[1] == 0x80u8 | n);
    assert(frame_payload_start(f) == 6);
    assert forall|j: int| 0 <= j < payload.len() implies #[trigger] unmasked(f)[j] == payload[j] by {
        assert(f[j + 6] == payload[j] ^ mask[j % 4]);
        assert(f[6 - 4 + j % 4] == mask[j % 4]);
        let (p, m) = (payload[j], mask[j % 4]);
        assert((p ^ m) ^ m == p) by (bit_vector);
    }
    assert(unmasked(f).take(payload.len() as int) =~= payload);
}

/// Bytes that follow a client's frame in the same read (the start of its next frame)
/// do not change how the frame decodes: the frame type is the same, the payload comes
/// out unmasked at the front, and a message is delivered as it would be alone.
pub proof fn lemma_trailing_bytes_ignored(opcode: u8, payload: Seq<u8>, mask: Seq<u8>, rest: Seq<u8>)
    requires
        opcode < 16,
        payload.len() < 126,
        mask.len() == 4,
    ensures
        ({
            let f = client_frame(opcode, payload, mask);
            &&& frame_type_of(f + rest) == frame_type_of(f)
            &&& frame_type_of(f) != WebSocketFrameType::Invalid
            &&& !is_16bit_length_frame(f + rest)
            &&& unmasked(f + rest).take(payload.len() as int) == payload
            &&& message_of_frame(f + rest) == message_of_frame(f)
        }),
{
    let f = client_frame(opcode, payload, mask);
    let g = f + rest;
    lemma_client_frame_roundtrip(opcode, payload, mask);
    assert(g[0] == f[0] && g[1] == f[1]);
    assert(frame_payload_start(g) == frame_payload_start(f));
    assert(frame_payload_start(f) == 6) by {
        let n = payload.len() as u8;
        assert(((0x80u8 | n) & 0x7f == n)) by (bit_vector)
            requires
                n < 126,
        ;
    }
    assert(frame_payload_len(g) == frame_payload_len(f));
    assert(frame_is_valid(g));
    assert forall|j: int| 0 <= j < payload.len() implies #[trigger] unmasked(g)[j] == unmasked(f)[j] by {
        assert(g[j + 6] == f[j + 6]);
        assert(g[6 - 4 + j % 4] == f[6 - 4 + j % 4]);
    }
    assert(unmasked(g).take(payload.len() as int) =~= unmasked(f).take(payload.len() as int));
}

/// A message that the client sends as a text frame is the message that the server
/// decodes from it, whatever the mask.
pub proof fn lemma_message_delivery(m: Message, mask: Seq<u8>)
    requires
        mask.len() == 4,
    ensures
        ({
            let f = client_frame(1, encode_utf8(m.text()), mask);
            &&& is_decodable_frame(f)
            &&& message_of_frame(f) == Ok::<Message, WebSocketError>(m)
        }),
{
    let p = encode_utf8(m.text());
    assert(p.len() < 126) by {
        vstd::utf8::is_ascii_chars_encode_utf8(m.text());
    }
    lemma_client_frame_roundtrip(1, p, mask);
    encode_utf8_valid_utf8(m.text());
    encode_utf8_decode_utf8(m.text());
    crate::message::lemma_message_text_roundtrip(m, m.text());
}

/// A message that the client sends as a text frame is delivered even when the read
/// that holds the frame also holds bytes after it, such as the client's next frame.
pub proof fn lemma_message_delivery_with_more_data(m: Message, mask: Seq<u8>, rest: Seq<u8>)
    requires
        mask.len() == 4,
    ensures
        ({
            let f = client_frame(1, encode_utf8(m.text()), mask) + rest;
            &&& is_decodable_frame(f)
            &&& message_of_frame(f) == Ok::<Message, WebSocketError>(m)
        }),
{
    let p = encode_utf8(m.text());
    assert(p.len() < 126) by {
        vstd::utf8::is_ascii_chars_encode_utf8(m.text());
    }
    lemma_message_delivery(m, mask);
    lemma_trailing_bytes_ignored(1, p, mask, rest);
    lemma_client_frame_roundtrip(1, p, mask);
}

/// What the websocket server does after one read.
#[derive(Debug, PartialEq, Eq, Structural, Clone, Copy)]
pub enum ServerStep {
    /// Pass the message on to the LED worker, then read again.
    Deliver(Message),
    /// Nothing has arrived: wait this many milliseconds, then read again.
    RetryAfterMs(u64),
    /// Drop the connection.
    Close,
}

/// The server's next step after a read: a message is passed on, an empty inbox is
/// waited on for 100 ms, and any other error drops the connection.
pub fn next_server_step(read: Result<Message, WebSocketError>) -> (s: ServerStep)
    ensures
        s == match read {
            Ok(m) => ServerStep::Deliver(m),
            Err(WebSocketError::InboxEmpy) => ServerStep::RetryAfterMs(100),
            Err(_) => ServerStep::Close,
        },
{
    match read {
        Ok(m) => ServerStep::Deliver(m),
        Err(WebSocketError::InboxEmpy) => ServerStep::RetryAfterMs(100),
        Err(_) => ServerStep::Close,
    }
}

/// The result of one read of the server's socket: when nothing is ready to be read
/// the inbox is empty; otherwise it is the message of the frame that was read.
pub fn read_outcome(ready: bool, frame: &mut [u8]) -> (r: Result<Message, WebSocketError>)
    requires
        ready ==> is_decodable_frame(old(frame)@),
    ensures
        !ready ==> r == Err::<Message, WebSocketError>(WebSocketError::InboxEmpy),
        ready ==> r == message_of_frame(old(frame)@),
        ready ==> final(frame)@ == unmasked(old(frame)@),
        !ready ==> final(frame)@ == old(frame)@,
{
    if ready {
        decode_message(frame)
    } else {
        Err(WebSocketError::InboxEmpy)
    }
}

/// The server's step after a read, as `next_server_step` takes it.
pub open spec fn server_step(read: Result<Message, WebSocketError>) -> ServerStep {
    match read {
        Ok(m) => ServerStep::Deliver(m),
        Err(WebSocketError::InboxEmpy) => ServerStep::RetryAfterMs(100),
        Err(_) => ServerStep::Close,
    }
}

/// The messages that the server passes on over a run of reads: each step's message,
/// up to the step that drops the connection.
pub open spec fn delivered(reads: Seq<Result<Message, WebSocketError>>) -> Seq<Message>
    decreases reads.len(),
{
    if reads.len() == 0 {
        Seq::empty()
    } else {
        match server_step(reads[0]) {
            ServerStep::Deliver(m) => seq![m] + delivered(reads.drop_first()),
            ServerStep::RetryAfterMs(_) => delivered(reads.drop_first()),
            ServerStep::Close => Seq::empty(),
        }
    }
}

/// The position of the first read that failed with an error other than an empty
/// inbox, or the number of reads.
pub open spec fn first_failure(reads: Seq<Result<Message, WebSocketError>>) -> nat
    decreases reads.len(),
{
    if reads.len() == 0 {
        0
    } else {
        match reads[0] {
            Ok(_) => 1 + first_failure(reads.drop_first()),
            Err(WebSocketError::InboxEmpy) => 1 + first_failure(reads.drop_first()),
            Err(_) => 0,
        }
    }
}

/// The messages that a run of reads gave, in order.
pub open spec fn read_messages(reads: Seq<Result<Message, WebSocketError>>) -> Seq<Message>
    decreases reads.len(),
{
    if reads.len() == 0 {
        Seq::empty()
    } else {
        match reads[0] {
            Ok(m) => seq![m] + read_messages(reads.drop_first()),
            Err(_) => read_messages(reads.drop_first()),
        }
    }
}

/// Over a run of reads, the server passes on every message that was read before the
/// connection failed, each once and in the order read, and nothing after.
pub proof fn lemma_server_delivers_in_order(reads: Seq<Result<Message, WebSocketError>>)
    ensures
        first_failure(reads) <= reads.len(),
        delivered(reads) == read_messages(reads.take(first_failure(reads) as int)),
    decreases reads.len(),
{
    if reads.len() > 0 {
        let rest = reads.drop_first();
        lemma_server_delivers_in_order(rest);
        match reads[0] {
            Err(WebSocketError::InboxEmpy) => {
                let t = reads.take(first_failure(reads) as int);
                assert(first_failure(reads) == 1 + first_failure(rest));
                assert(t.len() > 0 && t[0] == reads[0]);
                assert(t.drop_first() =~= rest.take(first_failure(rest) as int));
            },
            Ok(_) => {
                let t = reads.take(first_failure(reads) as int);
                assert(first_failure(reads) == 1 + first_failure(rest));
                assert(t.len() > 0 && t[0] == reads[0]);
                assert(t.drop_first() =~= rest.take(first_failure(rest) as int));
            },
            Err(_) => {
                assert(reads.take(0) =~= Seq::<Result<Message, WebSocketError>>::empty());
            },
        }
    }
}

} // verus!
