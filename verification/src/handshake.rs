//! The server side of the websocket opening handshake (RFC 6455, section 4.2).
use vstd::prelude::*;
use vstd::string::StringSliceAdditionalSpecFns;
use vstd::utf8::{
    decode_utf8, encode_utf8, encode_utf8_decode_utf8, is_ascii_chars, is_ascii_chars_encode_utf8,
    valid_utf8,
};
use crate::text::{str_from_utf8, trim, trim_range};
use crate::sha1::{compute_sha1, sha1};
use crate::digest_text::{base64, sha1_bytes_2_base64};
use crate::hstring::{
    base64_text, base64_text_as_str, buffer_text, buffer_text_as_str, buffer_text_new,
    buffer_text_push_str, key_text, key_text_as_bytes, key_text_new, key_text_push_str,
    response_text, response_text_new, response_text_push_str,
};

verus! {

/// The header line that carries the client's key.
pub const KEY_HEADER: [char; 18] = [
    'S', 'e', 'c', '-', 'W', 'e', 'b', 'S', 'o', 'c', 'k', 'e', 't', '-', 'K', 'e', 'y', ':',
];

/// The position of the first `c` in `s`, or the length of `s` when there is none.
pub open spec fn index_or_len(s: Seq<char>, c: char) -> nat
    decreases s.len(),
{
    if s.len() == 0 || s[0] == c {
        0
    } else {
        1 + index_or_len(s.drop_first(), c)
    }
}

/// The value of a key header line: what follows its first `:` up to the next `:`
/// or the end of the line.
pub open spec fn key_field(line: Seq<char>) -> Seq<char> {
    let rest = line.skip(18);
    rest.take(index_or_len(rest, ':') as int)
}

/// The key of the first line of `s` that starts with `Sec-WebSocket-Key:`, trimmed.
/// Lines end at `\n`; a `\r` before it is whitespace and falls to the trimming.
pub open spec fn websocket_key(s: Seq<char>) -> Option<Seq<char>>
    decreases s.len(),
{
    let e = index_or_len(s, '\n');
    let line = s.take(e as int);
    if line.len() >= 18 && line.take(18) == KEY_HEADER@ {
        Some(trim(key_field(line)))
    } else if e < s.len() {
        websocket_key(s.skip(e as int + 1))
    } else {
        None
    }
}

pub proof fn lemma_index_or_len(t: Seq<char>, c: char, m: int)
    requires
        0 <= m <= t.len(),
        forall|k: int| 0 <= k < m ==> #[trigger] t[k] != c,
        m == t.len() || t[m] == c,
    ensures
        index_or_len(t, c) == m,
    decreases m,
{
    if m > 0 {
        lemma_index_or_len(t.drop_first(), c, m - 1);
    }
}

proof fn lemma_key_header_literal()
    ensures
        KEY_HEADER@ == "Sec-WebSocket-Key:"@,
{
    reveal_strlit("Sec-WebSocket-Key:");
    assert(KEY_HEADER@ =~= "Sec-WebSocket-Key:"@);
}

/// A request line that does not start with `Sec-WebSocket-Key:` (such as the line of
/// `Sec-WebSocket-Version` or `Sec-WebSocket-Extensions`) never supplies the key: the
/// key of a request is the key of the lines after it, and a last line without the
/// header gives none.
pub proof fn lemma_key_skips_other_lines(line: Seq<char>, rest: Seq<char>)
    requires
        !line.contains('\n'),
        !"Sec-WebSocket-Key:"@.is_prefix_of(line),
    ensures
        websocket_key(line + seq!['\n'] + rest) == websocket_key(rest),
        websocket_key(line) is None,
{
    lemma_key_header_literal();
    let s = line + seq!['\n'] + rest;
    assert forall|k: int| 0 <= k < line.len() implies #[trigger] s[k] != '\n' by {
        assert(s[k] == line[k]);
        if s[k] == '\n' {
            assert(line.contains('\n'));
        }
    }
    lemma_index_or_len(s, '\n', line.len() as int);
    assert(s.take(line.len() as int) =~= line);
    if line.len() >= 18 && line.take(18) == KEY_HEADER@ {
        assert(KEY_HEADER@.is_prefix_of(line));
    }
    assert(s.skip(line.len() as int + 1) =~= rest);
    assert forall|k: int| 0 <= k < line.len() implies #[trigger] line[k] != '\n' by {
        if line[k] == '\n' {
            assert(line.contains('\n'));
        }
    }
    lemma_index_or_len(line, '\n', line.len() as int);
    assert(line.take(line.len() as int) =~= line);
}

/// A request line `Sec-WebSocket-Key:` followed by a value supplies the key: the value
/// up to the next `:`, without surrounding whitespace, whatever lines follow.
pub proof fn lemma_key_from_key_line(value: Seq<char>, tail: Seq<char>, rest: Seq<char>)
    requires
        !value.contains('\n'),
        !value.contains(':'),
        !tail.contains('\n'),
        tail.len() == 0 || tail[0] == ':',
    ensures
        websocket_key("Sec-WebSocket-Key:"@ + value + tail + seq!['\n'] + rest) == Some(trim(value)),
        websocket_key("Sec-WebSocket-Key:"@ + value + tail) == Some(trim(value)),
{
    lemma_key_header_literal();
    let line = KEY_HEADER@ + value + tail;
    assert(KEY_HEADER@.len() == 18);
    assert forall|k: int| 0 <= k < line.len() implies #[trigger] line[k] != '\n' by {
        if k < 18 {
            assert(line[k] == KEY_HEADER@[k]);
        } else if k < 18 + value.len() {
            assert(line[k] == value[k - 18]);
            if line[k] == '\n' {
                assert(value.contains('\n'));
            }
        } else {
            assert(line[k] == tail[k - 18 - value.len()]);
            if line[k] == '\n' {
                assert(tail.contains('\n'));
            }
        }
    }
    assert(line.take(18) =~= KEY_HEADER@);
    let after = line.skip(18);
    assert(after =~= value + tail);
    assert forall|k: int| 0 <= k < value.len() implies #[trigger] after[k] != ':' by {
        assert(after[k] == value[k]);
        if value[k] == ':' {
            assert(value.contains(':'));
        }
    }
    lemma_index_or_len(after, ':', value.len() as int);
    assert(after.take(value.len() as int) =~= value);
    assert(key_field(line) == value);
    let s = line + seq!['\n'] + rest;
    assert forall|k: int| 0 <= k < line.len() implies #[trigger] s[k] != '\n' by {
        assert(s[k] == line[k]);
    }
    lemma_index_or_len(s, '\n', line.len() as int);
    assert(s.take(line.len() as int) =~= line);
    lemma_index_or_len(line, '\n', line.len() as int);
    assert(line.take(line.len() as int) =~= line);
}

/// The position of the first `c` in `text[from..end]`, or `end` when there is none.
fn scan_to(text: &str, from: usize, end: usize, c: char) -> (e: usize)
    requires
        from <= end <= text@.len(),
    ensures
        from <= e <= end,
        index_or_len(text@.subrange(from as int, end as int), c) == e - from,
{
    let mut e = from;
    while e < end && text.get_char(e) != c
        invariant
            from <= e <= end <= text@.len(),
            forall|k: int| from <= k < e ==> #[trigger] text@[k] != c,
        decreases end - e,
    {
        e = e + 1;
    }
    proof {
        let t = text@.subrange(from as int, end as int);
        assert forall|k: int| 0 <= k < e - from implies #[trigger] t[k] != c by {
            assert(t[k] == text@[from + k]);
        }
        lemma_index_or_len(t, c, e - from);
    }
    e
}

/// The character range of the client's key in a handshake request, if the request
/// has a key header line.
pub fn find_websocket_key(text: &str) -> (r: Option<(usize, usize)>)
    ensures
        r is None <==> websocket_key(text@) is None,
        r matches Some((a, b)) ==> a <= b <= text@.len() && websocket_key(text@) == Some(
            text@.subrange(a as int, b as int),
        ),
{
    let n = text.unicode_len();
    let mut start: usize = 0;
    assert(text@.skip(0) =~= text@);
    while start <= n
        invariant
            start <= n,
            n == text@.len(),
            websocket_key(text@) == websocket_key(text@.skip(start as int)),
        decreases n - start,
    {
        let ghost s = text@.skip(start as int);
        let e = scan_to(text, start, n, '\n');
        assert(text@.subrange(start as int, n as int) =~= s);
        let ghost line = s.take(e - start);
        assert(line =~= text@.subrange(start as int, e as int));
        if e - start >= 18 {
            let mut k: usize = 0;
            let mut matches = true;
            while k < 18
                invariant
                    k <= 18,
                    start + 18 <= e <= n,
                    n == text@.len(),
                    matches <==> (forall|j: int| 0 <= j < k ==> text@[start + j] == KEY_HEADER@[j]),
                decreases 18 - k,
            {
                if text.get_char(start + k) != KEY_HEADER[k] {
                    matches = false;
                }
                k = k + 1;
            }
            if matches {
                assert(line.take(18) =~= KEY_HEADER@);
                let f = scan_to(text, start + 18, e, ':');
                let ghost rest = line.skip(18);
                assert(text@.subrange(start + 18, e as int) =~= rest);
                assert(key_field(line) =~= text@.subrange(start + 18, f as int));
                let (a, b) = trim_range(text, start + 18, f);
                return Some((a, b));
            } else {
                assert(line.take(18) != KEY_HEADER@) by {
                    let j = choose|j: int| 0 <= j < 18 && text@[start + j] != KEY_HEADER@[j];
                    assert(line.take(18)[j] == text@[start + j]);
                }
            }
        }
        if e < n {
            assert(s.skip(e - start + 1) =~= text@.skip(e + 1));
            start = e + 1;
        } else {
            return None;
        }
    }
    None
}

/// The status line and headers of the server's answer, up to the accept value.
pub const WS_ANSWER: &'static str = "HTTP/1.1 101 Switching Protocols\r\nUpgrade: websocket\r\nConnection: Upgrade\r\nSec-WebSocket-Accept: ";

/// The GUID that RFC 6455 appends to the client's key.
pub const WS_GUID: &'static str = "258EAFA5-E914-47DA-95CA-C5AB0DC85B11";

/// The end of the answer's header block.
pub const WS_ANSWER_END: &'static str = "\r\n\r\n";

/// The bytes that the handshake hashes: the UTF-8 bytes of the request's key followed
/// by the GUID, or no bytes at all when the request has no key header.
pub open spec fn handshake_key_bytes(request: Seq<u8>) -> Seq<u8> {
    match websocket_key(decode_utf8(request)) {
        Some(k) => encode_utf8(k) + WS_GUID.spec_bytes(),
        None => Seq::empty(),
    }
}

/// The `Sec-WebSocket-Accept` value: base64 of the SHA-1 of the hashed bytes.
pub open spec fn accept_value(request: Seq<u8>) -> Seq<char> {
    base64(sha1(handshake_key_bytes(request)))
}

/// The server's whole answer to a handshake request.
pub open spec fn accept_response(request: Seq<u8>) -> Seq<char> {
    WS_ANSWER@ + accept_value(request) + WS_ANSWER_END@
}

/// A request that the handshake takes: it fits the 1024-byte buffer it is read into,
/// it is valid UTF-8, and where it has a key, the key and the GUID fit together in
/// 64 bytes. On any other request the handshake panics.
pub open spec fn is_acceptable_request(request: Seq<u8>) -> bool {
    &&& request.len() <= 1024
    &&& valid_utf8(request)
    &&& handshake_key_bytes(request).len() <= 64
}

/// The UTF-8 encoding of a concatenation is the concatenation of the encodings.
pub proof fn lemma_encode_utf8_concat(a: Seq<char>, b: Seq<char>)
    ensures
        encode_utf8(a + b) == encode_utf8(a) + encode_utf8(b),
    decreases a.len(),
{
    if a.len() > 0 {
        lemma_encode_utf8_concat(a.drop_first(), b);
        assert((a + b).drop_first() =~= a.drop_first() + b);
        assert((a + b)[0] == a[0]);
        assert(encode_utf8(a + b) =~= encode_utf8(a) + encode_utf8(b));
    } else {
        assert(a + b =~= b);
        assert(encode_utf8(a) =~= Seq::<u8>::empty());
    }
}

proof fn lemma_literals()
    ensures
        is_ascii_chars(WS_ANSWER@),
        WS_ANSWER@.len() == 97,
        is_ascii_chars(WS_GUID@),
        WS_GUID@.len() == 36,
        is_ascii_chars(WS_ANSWER_END@),
        WS_ANSWER_END@.len() == 4,
{
    reveal_strlit("HTTP/1.1 101 Switching Protocols\r\nUpgrade: websocket\r\nConnection: Upgrade\r\nSec-WebSocket-Accept: ");
    reveal_strlit("258EAFA5-E914-47DA-95CA-C5AB0DC85B11");
    reveal_strlit("\r\n\r\n");
}

/// The server's answer to a websocket handshake request.
pub fn websocket_accept_response(request: &[u8]) -> (response: heapless::String<142>)
    requires
        is_acceptable_request(request@),
    ensures
        response_text(response) == accept_response(request@),
{
    proof {
        lemma_literals();
        is_ascii_chars_encode_utf8(WS_ANSWER@);
        is_ascii_chars_encode_utf8(WS_GUID@);
        is_ascii_chars_encode_utf8(WS_ANSWER_END@);
    }
    let received = match str_from_utf8(request) {
        Some(t) => t,
        None => {
            proof {
                assert(false);
            }
            ""
        },
    };
    proof {
        encode_utf8_decode_utf8(received@);
    }
    let mut data = buffer_text_new();
    assert(encode_utf8(buffer_text(data)) =~= Seq::<u8>::empty());
    let r = buffer_text_push_str(&mut data, received);
    assert(r is Ok);
    let text = buffer_text_as_str(&data);
    assert(text@ =~= received@);
    assert(text@ == decode_utf8(request@));
    let mut to_be_hashed = key_text_new();
    assert(encode_utf8(key_text(to_be_hashed)) =~= Seq::<u8>::empty());
    match find_websocket_key(text) {
        Some((a, b)) => {
            let key = text.substring_char(a, b);
            let r = key_text_push_str(&mut to_be_hashed, key);
            assert(r is Ok);
            let ghost key_chars = key_text(to_be_hashed);
            assert(key_chars =~= key@);
            proof {
                lemma_encode_utf8_concat(key_chars, WS_GUID@);
            }
            let r = key_text_push_str(&mut to_be_hashed, WS_GUID);
            assert(r is Ok);
            assert(encode_utf8(key_text(to_be_hashed)) == handshake_key_bytes(request@));
        },
        None => {
            assert(encode_utf8(key_text(to_be_hashed)) == handshake_key_bytes(request@));
        },
    }
    let hash = compute_sha1(key_text_as_bytes(&to_be_hashed));
    let encoded = sha1_bytes_2_base64(&hash);
    let mut response = response_text_new();
    assert(encode_utf8(response_text(response)) =~= Seq::<u8>::empty());
    let r = response_text_push_str(&mut response, WS_ANSWER);
    assert(r is Ok);
    let ghost after_answer = response_text(response);
    proof {
        is_ascii_chars_encode_utf8(after_answer);
    }
    let encoded_str = base64_text_as_str(&encoded);
    proof {
        is_ascii_chars_encode_utf8(encoded_str@);
    }
    let r = response_text_push_str(&mut response, encoded_str);
    assert(r is Ok);
    let ghost after_key = response_text(response);
    proof {
        assert(after_key =~= WS_ANSWER@ + base64_text(encoded));
        assert(is_ascii_chars(after_key));
        is_ascii_chars_encode_utf8(after_key);
    }
    let r = response_text_push_str(&mut response, WS_ANSWER_END);
    assert(r is Ok);
    response
}

/// Whether `websocket_accept_response` takes this request.
pub fn is_acceptable_handshake(request: &[u8]) -> (b: bool)
    ensures
        b == is_acceptable_request(request@),
{
    proof {
        lemma_literals();
        is_ascii_chars_encode_utf8(WS_GUID@);
    }
    if request.len() > 1024 {
        return false;
    }
    let text = match str_from_utf8(request) {
        Some(t) => t,
        None => return false,
    };
    proof {
        encode_utf8_decode_utf8(text@);
    }
    assert(text@ == decode_utf8(request@));
    match find_websocket_key(text) {
        Some((a, b)) => {
            let key = text.substring_char(a, b);
            assert(handshake_key_bytes(request@) == key.spec_bytes() + WS_GUID.spec_bytes());
            proof {
                let t = text@;
                assert(t =~= t.take(a as int) + (key@ + t.skip(b as int)));
                lemma_encode_utf8_concat(t.take(a as int), key@ + t.skip(b as int));
                lemma_encode_utf8_concat(key@, t.skip(b as int));
                assert(key.spec_bytes().len() <= 1024);
            }
            key.len() <= 28
        },
        None => {
            assert(handshake_key_bytes(request@) =~= Seq::<u8>::empty());
            true
        },
    }
}

} // verus!
