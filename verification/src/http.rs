//! Decisions of the HTTP server that serves the client app's files.
use vstd::prelude::*;
use crate::handshake::index_or_len;
use crate::text::{contains, contains_str, str_equals, str_from_utf8, trim, trim_range};

verus! {

/// What the server answers a request with.
#[derive(Debug, PartialEq, Eq, Structural, Clone, Copy)]
pub enum HttpRoute {
    /// The client app file at this position in the file list.
    File(usize),
    /// The app's `index.html`.
    Index,
    /// `404 Not Found`.
    NotFound,
}

pub const INDEX_REQUEST: &'static str = "GET / HTTP/1.1";

pub const INDEX_HTML_REQUEST: &'static str = "GET /index.html HTTP/1.1";

pub const JS_HEADER: &'static str = "HTTP/1.1 200 OK\r\nContent-Type: application/javascript\r\n\r\n";

pub const WASM_HEADER: &'static str = "HTTP/1.1 200 OK\r\nContent-Type: application/wasm\r\n\r\n";

pub const TEXT_HEADER: &'static str = "HTTP/1.1 200 OK\r\nContent-Type: text/plain\r\n\r\n";

pub const HTML_HEADER: &'static str = "HTTP/1.1 200 OK\r\nContent-Type: text/html\r\n\r\n";

pub const NOT_FOUND_RESPONSE: &'static str = "HTTP/1.1 404 Not Found\r\nContent-Type: text/plain\r\n\r\n404 Not Found";

/// The request line of a request: its first line, trimmed, when the request has a
/// line break; the whole request, as it is, when it has none.
pub open spec fn request_line(s: Seq<char>) -> Seq<char> {
    let e = index_or_len(s, '\n');
    if e < s.len() {
        trim(s.take(e as int))
    } else {
        s
    }
}

/// The first file, from position `i` on, whose name occurs in the request line.
pub open spec fn first_file_in(line: Seq<char>, files: Seq<&str>, i: int) -> Option<int>
    decreases files.len() - i,
{
    if i < 0 || i >= files.len() {
        None
    } else if contains(line, files[i]@) {
        Some(i)
    } else {
        first_file_in(line, files, i + 1)
    }
}

/// The route of a request line: the first file whose name it holds; else the index
/// page when it asks for `/` or `/index.html`; else not found.
pub open spec fn route_of(line: Seq<char>, files: Seq<&str>) -> HttpRoute {
    match first_file_in(line, files, 0) {
        Some(i) => HttpRoute::File(i as usize),
        None => if contains(line, INDEX_REQUEST@) || contains(line, INDEX_HTML_REQUEST@) {
            HttpRoute::Index
        } else {
            HttpRoute::NotFound
        },
    }
}

/// The route of the `n` bytes read from a connection; `None` when they are not UTF-8,
/// on which the connection is closed without an answer.
pub open spec fn route_of_request(data: Seq<u8>, files: Seq<&str>) -> Option<HttpRoute> {
    if vstd::utf8::valid_utf8(data) {
        Some(route_of(request_line(vstd::utf8::decode_utf8(data)), files))
    } else {
        None
    }
}

/// Chooses the answer to a request from the names of the files that can be served.
pub fn route_request(data: &[u8], files: &[&str]) -> (r: Option<HttpRoute>)
    ensures
        r == route_of_request(data@, files@),
{
    let text = match str_from_utf8(data) {
        Some(t) => t,
        None => return None,
    };
    proof {
        vstd::utf8::encode_utf8_decode_utf8(text@);
    }
    let ghost s = text@;
    assert(s == vstd::utf8::decode_utf8(data@));
    let n = text.unicode_len();
    let mut e: usize = 0;
    while e < n && text.get_char(e) != '\n'
        invariant
            e <= n,
            n == s.len(),
            s == text@,
            forall|k: int| 0 <= k < e ==> #[trigger] s[k] != '\n',
        decreases n - e,
    {
        e = e + 1;
    }
    proof {
        crate::handshake::lemma_index_or_len(s, '\n', e as int);
    }
    let line: &str = if e < n {
        let (a, b) = trim_range(text, 0, e);
        assert(s.subrange(0, e as int) =~= s.take(e as int));
        text.substring_char(a, b)
    } else {
        text
    };
    assert(line@ == request_line(s));
    let mut i: usize = 0;
    while i < files.len()
        invariant
            i <= files@.len(),
            line@ == request_line(s),
            s == vstd::utf8::decode_utf8(data@),
            vstd::utf8::valid_utf8(data@),
            first_file_in(line@, files@, 0) == first_file_in(line@, files@, i as int),
        decreases files@.len() - i,
    {
        if contains_str(line, files[i]) {
            assert(first_file_in(line@, files@, i as int) == Some(i as int));
            return Some(HttpRoute::File(i));
        }
        i = i + 1;
    }
    if contains_str(line, INDEX_REQUEST) || contains_str(line, INDEX_HTML_REQUEST) {
        Some(HttpRoute::Index)
    } else {
        Some(HttpRoute::NotFound)
    }
}

/// What follows the last `.` of a file name, or the whole name when it has none,
/// as `name.split(".").last()` gives it.
pub open spec fn extension(name: Seq<char>) -> Seq<char>
    decreases name.len(),
{
    if name.len() == 0 {
        name
    } else if name.last() == '.' {
        Seq::empty()
    } else {
        extension(name.drop_last()).push(name.last())
    }
}

/// The response header for a served file, chosen by its extension.
pub open spec fn file_header(name: Seq<char>) -> Seq<char> {
    if extension(name) == "js"@ {
        JS_HEADER@
    } else if extension(name) == "wasm"@ {
        WASM_HEADER@
    } else {
        TEXT_HEADER@
    }
}

/// The response header with which a file of this name is served.
pub fn file_response_header(name: &str) -> (h: &'static str)
    ensures
        h@ == file_header(name@),
{
    let n = name.unicode_len();
    let mut d = n;
    assert(name@.take(n as int) =~= name@);
    assert(extension(name@) == extension(name@.take(n as int)) + name@.skip(n as int)) by {
        assert(extension(name@) + Seq::<char>::empty() =~= extension(name@));
        assert(name@.skip(n as int) =~= Seq::<char>::empty());
    }
    while d > 0 && name.get_char(d - 1) != '.'
        invariant
            d <= n,
            n == name@.len(),
            extension(name@) == extension(name@.take(d as int)) + name@.skip(d as int),
        decreases d,
    {
        let ghost t = name@.take(d as int);
        assert(t.drop_last() =~= name@.take(d - 1));
        assert(name@.skip(d - 1) =~= seq![t.last()] + name@.skip(d as int));
        assert(extension(t) == extension(t.drop_last()).push(t.last()));
        assert(extension(t.drop_last()).push(t.last()) + name@.skip(d as int) =~= extension(t.drop_last())
            + name@.skip(d - 1));
        d = d - 1;
    }
    assert(name@.take(n as int) =~= name@);
    assert(name@.skip(n as int) =~= Seq::<char>::empty());
    let ghost ext = name@.skip(d as int);
    assert(extension(name@) == ext) by {
        if d > 0 {
            assert(name@.take(d as int).last() == '.');
        } else {
            assert(name@.take(0) =~= Seq::<char>::empty());
        }
    }
    let ext = name.substring_char(d, n);
    if str_equals(ext, "js") {
        JS_HEADER
    } else if str_equals(ext, "wasm") {
        WASM_HEADER
    } else {
        TEXT_HEADER
    }
}

/// The size of the next write of a large body: the socket's whole send capacity
/// while more than that remains, else the rest.
pub fn next_chunk_len(sent: usize, total: usize, capacity: usize) -> (len: usize)
    requires
        sent <= total,
        sent + capacity <= usize::MAX,
    ensures
        len == (if sent + capacity < total {
            capacity
        } else {
            (total - sent) as usize
        }),
        sent + len <= total,
{
    if sent + capacity < total {
        capacity
    } else {
        total - sent
    }
}


/// The next chunk of a large body to write after `sent` bytes of it went out, on a
/// socket with `capacity` bytes of send capacity: the next `next_chunk_len` bytes.
pub fn next_chunk(data: &[u8], sent: usize, capacity: usize) -> (chunk: &[u8])
    requires
        sent <= data@.len(),
        sent + capacity <= usize::MAX,
    ensures
        chunk@ == data@.subrange(
            sent as int,
            sent + (if sent + capacity < data@.len() {
                capacity as int
            } else {
                data@.len() - sent
            }),
        ),
{
    let len = next_chunk_len(sent, data.len(), capacity);
    vstd::slice::slice_subrange(data, sent, sent + len)
}

/// Writing a large body chunk by chunk sends it whole and in order: after the bytes
/// sent so far, a write of the first `written` bytes of the next chunk leaves the
/// first `sent + written` bytes of the body sent.
pub proof fn lemma_chunks_make_up_data(data: Seq<u8>, sent: int, written: int)
    requires
        0 <= sent,
        0 <= written,
        sent + written <= data.len(),
    ensures
        data.take(sent) + data.subrange(sent, sent + written) == data.take(sent + written),
        sent + written == data.len() ==> data.take(sent + written) == data,
{
    assert(data.take(sent) + data.subrange(sent, sent + written) =~= data.take(sent + written));
    if sent + written == data.len() {
        assert(data.take(sent + written) =~= data);
    }
}

} // verus!
