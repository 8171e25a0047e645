//! The client's side of HTTP/1.1, as far as a warm Kythe server needs it: one
//! request and its response over a connection that is kept alive.
//!
//! The connection itself is left to the caller: a [`Response`] says what it
//! needs to be read next and is given it.

use vstd::prelude::*;
use vstd::utf8::encode_utf8;

use crate::text::{
    chars_of, contains, decimal, decimal_of, find_class, first_of, has_part, lossy_chars,
    lossy_string, lowercase, lowered, number, parse_number, split_chars, starts_with, trim,
    trim_end, trim_start, trimmed, trimmed_end, trimmed_start, words, words_of, Class,
};

verus! {

// --------------------------------------------------------------- requests

/// An address without its scheme and without slashes at its end.
pub open spec fn bare_address(addr: Seq<char>) -> Seq<char> {
    let rest = if "http://"@.is_prefix_of(addr) {
        addr.skip(7)
    } else {
        addr
    };
    trim_end(rest, Class::Only('/'))
}

/// The address of a server: takes `host:port`, with `http://` before it or
/// slashes behind it.
pub fn server_address(addr: &str) -> (r: String)
    ensures
        r@ == bare_address(addr@),
{
    proof {
        reveal_strlit("http://");
    }
    if starts_with(addr, "http://") {
        proof {
            assert(addr@.len() >= 7);
        }
        trimmed_end(split_chars(addr, 7).1, Class::Only('/'))
    } else {
        trimmed_end(addr, Class::Only('/'))
    }
}

/// A request that posts a body of JSON.
pub open spec fn post_request(addr: Seq<char>, path: Seq<char>, body: Seq<char>) -> Seq<char> {
    "POST /"@ + trim_start(path, Class::Only('/')) + " HTTP/1.1\r\nHost: "@ + addr.take(
        first_of(addr, Class::Only(':'), 0),
    ) + "\r\nContent-Type: application/json\r\nContent-Length: "@ + decimal(
        encode_utf8(body).len(),
    ) + "\r\nConnection: keep-alive\r\n\r\n"@ + body
}

/// Writes a request that posts a body of JSON to the server at `addr`.
pub fn request_text(addr: &str, path: &str, body: &str) -> (r: String)
    ensures
        r@ == post_request(addr@, path@, body@),
{
    let c = chars_of(addr);
    let colon: usize = find_class(c.as_slice(), Class::Only(':'), 0);
    let host: &str = split_chars(addr, colon).0;
    let mut r: String = "POST /".to_string();
    r.append(trimmed_start(path, Class::Only('/')).as_str());
    r.append(" HTTP/1.1\r\nHost: ");
    r.append(host);
    r.append("\r\nContent-Type: application/json\r\nContent-Length: ");
    r.append(decimal_of(body.as_bytes().len() as u64).as_str());
    r.append("\r\nConnection: keep-alive\r\n\r\n");
    r.append(body);
    r
}

// -------------------------------------------------------------- responses

/// Why a response could not be had.
#[derive(Debug)]
pub enum HttpError {
    /// The connection was closed before the status line.
    Closed,
    /// A chunk's size is no number.
    ChunkSize,
    /// The body or a chunk of it ended early.
    Short,
    /// The server refused: the status, and what it said.
    Status { code: u16, text: String },
}

/// Whether a request is sent again after this error: once, and only where a
/// kept connection was dropped.
pub fn sends_again(e: &HttpError, first: bool) -> (r: bool)
    ensures
        r == (first && (e is Closed || e is Short)),
{
    match e {
        HttpError::Closed => first,
        HttpError::Short => first,
        _ => false,
    }
}

/// What of a response is to be read.
#[derive(Clone, Copy, Debug, PartialEq, Eq, Structural)]
pub enum Stage {
    /// The status line.
    Status,
    /// A header, or the blank line behind them.
    Headers,
    /// A body of this many bytes.
    Whole(usize),
    /// A body that goes on to the end of the connection.
    ToEnd,
    /// The line with a chunk's size.
    ChunkSize,
    /// A chunk of this many bytes.
    Chunk(usize),
    /// The line end behind a chunk.
    ChunkEnd,
    /// The line behind the last chunk.
    Trailer,
    /// Nothing more.
    Done,
}

/// A response so far.
#[verifier::ext_equal]
pub struct ResponseView {
    pub stage: Stage,
    pub code: u16,
    pub length: Option<usize>,
    pub chunked: bool,
    pub body: Seq<u8>,
}

/// The status in a status line; 0 where there is none.
pub open spec fn status_in(line: Seq<char>) -> u16 {
    if words(line).len() > 1 {
        match number(words(line)[1], 10, u16::MAX as nat) {
            Some(n) => n as u16,
            None => 0,
        }
    } else {
        0
    }
}

/// The size in the line before a chunk: hexadecimal, up to a semicolon.
pub open spec fn chunk_size_in(line: Seq<char>) -> Option<nat> {
    let s = trim(line);
    number(trim(s.take(first_of(s, Class::Only(';'), 0))), 16, usize::MAX as nat)
}

/// The body that the headers announce: in chunks, of a length, or else up to
/// the end of the connection.
pub open spec fn body_stage(v: ResponseView) -> Stage {
    if v.chunked {
        Stage::ChunkSize
    } else {
        match v.length {
            Some(n) => Stage::Whole(n),
            None => Stage::ToEnd,
        }
    }
}

/// The response after a header. A length that is no number counts as none.
pub open spec fn with_header(v: ResponseView, line: Seq<char>) -> ResponseView {
    let lower = lowercase(line);
    if "content-length:"@.is_prefix_of(lower) {
        ResponseView {
            length: match number(trim(lower.skip(15)), 10, usize::MAX as nat) {
                Some(n) => Some(n as usize),
                None => None,
            },
            ..v
        }
    } else if "transfer-encoding:"@.is_prefix_of(lower) && has_part(lower, "chunked"@) {
        ResponseView { chunked: true, ..v }
    } else {
        v
    }
}

/// Why a response could not be had, as a function of what was read.
pub enum HttpErrorView {
    Closed,
    ChunkSize,
    Short,
}

/// The response after a line was read, or the end of the connection.
pub open spec fn after_line(v: ResponseView, line: Option<Seq<char>>) -> Result<
    ResponseView,
    HttpErrorView,
> {
    match v.stage {
        Stage::Status => match line {
            None => Err(HttpErrorView::Closed),
            Some(l) => Ok(ResponseView { stage: Stage::Headers, code: status_in(l), ..v }),
        },
        Stage::Headers => match line {
            Some(l) if trim_end(l, Class::Space).len() > 0 => Ok(
                with_header(v, trim_end(l, Class::Space)),
            ),
            _ => Ok(ResponseView { stage: body_stage(v), ..v }),
        },
        Stage::ChunkSize => match line {
            None => Ok(ResponseView { stage: Stage::Done, ..v }),
            Some(l) => match chunk_size_in(l) {
                None => Err(HttpErrorView::ChunkSize),
                Some(n) => Ok(
                    ResponseView {
                        stage: if n == 0 {
                            Stage::Trailer
                        } else {
                            Stage::Chunk(n as usize)
                        },
                        ..v
                    },
                ),
            },
        },
        _ => Ok(ResponseView { stage: Stage::Done, ..v }),
    }
}

/// The response after bytes were read, or fewer than were needed.
pub open spec fn after_bytes(v: ResponseView, bytes: Option<Seq<u8>>) -> Result<
    ResponseView,
    HttpErrorView,
> {
    match v.stage {
        Stage::ChunkEnd => Ok(ResponseView { stage: Stage::ChunkSize, ..v }),
        Stage::Chunk(_) => match bytes {
            None => Err(HttpErrorView::Short),
            Some(b) => Ok(ResponseView { stage: Stage::ChunkEnd, body: v.body + b, ..v }),
        },
        _ => match bytes {
            None => Err(HttpErrorView::Short),
            Some(b) => Ok(ResponseView { stage: Stage::Done, body: b, ..v }),
        },
    }
}

/// An error says what the view of it says.
pub open spec fn same_error(e: HttpError, v: HttpErrorView) -> bool {
    match v {
        HttpErrorView::Closed => e is Closed,
        HttpErrorView::ChunkSize => e is ChunkSize,
        HttpErrorView::Short => e is Short,
    }
}

/// A line is to be read next.
pub open spec fn needs_line(s: Stage) -> bool {
    s is Status || s is Headers || s is ChunkSize || s is Trailer
}

/// Bytes are to be read next.
pub open spec fn needs_bytes(s: Stage) -> bool {
    s is Whole || s is ToEnd || s is Chunk || s is ChunkEnd
}

/// A response that is being read.
pub struct Response {
    stage: Stage,
    code: u16,
    length: Option<usize>,
    chunked: bool,
    body: Vec<u8>,
}

impl View for Response {
    type V = ResponseView;

    closed spec fn view(&self) -> ResponseView {
        ResponseView {
            stage: self.stage,
            code: self.code,
            length: self.length,
            chunked: self.chunked,
            body: self.body@,
        }
    }
}

impl Response {
    /// A response of which nothing has been read.
    pub fn new() -> (r: Self)
        ensures
            r@ == (ResponseView {
                stage: Stage::Status,
                code: 0,
                length: None,
                chunked: false,
                body: seq![],
            }),
    {
        let r = Response {
            stage: Stage::Status,
            code: 0,
            length: None,
            chunked: false,
            body: Vec::new(),
        };
        proof {
            assert(r@.body =~= seq![]);
        }
        r
    }

    /// What is to be read next.
    pub fn stage(&self) -> (r: Stage)
        ensures
            r == self@.stage,
    {
        self.stage
    }

    fn take_header(&mut self, line: &str)
        ensures
            final(self)@ == with_header(old(self)@, line@),
    {
        let lower = lowered(line);
        let l: &str = lower.as_str();
        proof {
            reveal_strlit("content-length:");
        }
        if starts_with(l, "content-length:") {
            proof {
                assert(l@.len() >= 15);
            }
            let v = trimmed(split_chars(l, 15).1);
            self.length = match parse_number(v.as_str(), 10, usize::MAX as u64) {
                Some(n) => Some(n as usize),
                None => None,
            };
        } else if starts_with(l, "transfer-encoding:") && contains(l, "chunked") {
            self.chunked = true;
        }
    }

    /// Gives the line that was read, or nothing at the end of the connection.
    pub fn give_line(&mut self, line: Option<&str>) -> (r: Result<(), HttpError>)
        requires
            needs_line(old(self)@.stage),
        ensures
            ({
                let l = match line {
                    Some(s) => Some(s@),
                    None => None,
                };
                match after_line(old(self)@, l) {
                    Ok(next) => r is Ok && final(self)@ == next,
                    Err(e) => r is Err && same_error(r->Err_0, e),
                }
            }),
    {
        match self.stage {
            Stage::Status => match line {
                None => Err(HttpError::Closed),
                Some(l) => {
                    self.code = status_of(l);
                    self.stage = Stage::Headers;
                    Ok(())
                },
            },
            Stage::Headers => {
                if let Some(l) = line {
                    let t = trimmed_end(l, Class::Space);
                    if !t.as_str().is_empty() {
                        self.take_header(t.as_str());
                        return Ok(());
                    }
                }
                self.stage = if self.chunked {
                    Stage::ChunkSize
                } else {
                    match self.length {
                        Some(n) => Stage::Whole(n),
                        None => Stage::ToEnd,
                    }
                };
                Ok(())
            },
            Stage::ChunkSize => match line {
                None => {
                    self.stage = Stage::Done;
                    Ok(())
                },
                Some(l) => match chunk_size(l) {
                    None => Err(HttpError::ChunkSize),
                    Some(n) => {
                        self.stage = if n == 0 {
                            Stage::Trailer
                        } else {
                            Stage::Chunk(n)
                        };
                        Ok(())
                    },
                },
            },
            _ => {
                self.stage = Stage::Done;
                Ok(())
            },
        }
    }

    /// Gives the bytes that were read, or nothing where there were too few.
    /// What stands behind a chunk does not matter.
    pub fn give_bytes(&mut self, bytes: Option<Vec<u8>>) -> (r: Result<(), HttpError>)
        requires
            needs_bytes(old(self)@.stage),
        ensures
            ({
                let b = match bytes {
                    Some(v) => Some(v@),
                    None => None,
                };
                match after_bytes(old(self)@, b) {
                    Ok(next) => r is Ok && final(self)@ == next,
                    Err(e) => r is Err && same_error(r->Err_0, e),
                }
            }),
    {
        match self.stage {
            Stage::ChunkEnd => {
                self.stage = Stage::ChunkSize;
                Ok(())
            },
            Stage::Chunk(_) => match bytes {
                None => Err(HttpError::Short),
                Some(b) => {
                    let mut more: Vec<u8> = b;
                    self.body.append(&mut more);
                    self.stage = Stage::ChunkEnd;
                    Ok(())
                },
            },
            _ => match bytes {
                None => Err(HttpError::Short),
                Some(b) => {
                    self.body = b;
                    self.stage = Stage::Done;
                    Ok(())
                },
            },
        }
    }

    /// The body of a response that has been read. A status of 400 or more is
    /// an error, with the body as its text.
    pub fn finish(self) -> (r: Result<Vec<u8>, HttpError>)
        ensures
            self@.code < 400 ==> r is Ok && r->Ok_0@ == self@.body,
            self@.code >= 400 ==> (r matches Err(HttpError::Status { code, text }) && code
                == self@.code && text@ == lossy_chars(self@.body)),
    {
        if self.code >= 400 {
            Err(HttpError::Status { code: self.code, text: lossy_string(self.body.as_slice()) })
        } else {
            Ok(self.body)
        }
    }
}

/// The status in a status line; 0 where there is none.
fn status_of(line: &str) -> (r: u16)
    ensures
        r == status_in(line@),
{
    let w = words_of(line);
    if w.len() > 1 {
        proof {
            assert(words(line@)[1] == w@[1]@);
            assert(words(line@).len() == w@.len());
        }
        match parse_number(w[1].as_str(), 10, u16::MAX as u64) {
            Some(n) => n as u16,
            None => 0,
        }
    } else {
        proof {
            assert(words(line@).len() == w@.len());
        }
        0
    }
}

/// The size in the line before a chunk.
fn chunk_size(line: &str) -> (r: Option<usize>)
    ensures
        r matches Some(n) ==> chunk_size_in(line@) == Some(n as nat),
        r is None ==> chunk_size_in(line@) is None,
{
    let s = trimmed(line);
    let c = chars_of(s.as_str());
    let semi: usize = find_class(c.as_slice(), Class::Only(';'), 0);
    let digits = trimmed(split_chars(s.as_str(), semi).0);
    match parse_number(digits.as_str(), 16, usize::MAX as u64) {
        Some(n) => Some(n as usize),
        None => None,
    }
}

// ------------------------------------------------------------------- laws

/// Reads a chunk: its size, its bytes and its end.
pub open spec fn after_chunk(
    v: ResponseView,
    size: Seq<char>,
    data: Seq<u8>,
    end: Option<Seq<u8>>,
) -> Result<ResponseView, HttpErrorView> {
    match after_line(v, Some(size)) {
        Err(e) => Err(e),
        Ok(a) => match after_bytes(a, Some(data)) {
            Err(e) => Err(e),
            Ok(b) => after_bytes(b, end),
        },
    }
}

/// Reading a chunk adds its bytes to the body, and the next chunk follows,
/// whatever stands behind the bytes.
pub proof fn lemma_chunk(v: ResponseView, size: Seq<char>, data: Seq<u8>, end: Option<Seq<u8>>)
    requires
        v.stage == Stage::ChunkSize,
        chunk_size_in(size) == Some(data.len()),
        data.len() > 0,
    ensures
        after_chunk(v, size, data, end) == Ok::<ResponseView, HttpErrorView>(
            ResponseView { body: v.body + data, ..v },
        ),
{
}

/// A chunk: the line with its size, its bytes, and what was read behind them.
pub struct ChunkView {
    pub size: Seq<char>,
    pub data: Seq<u8>,
    pub end: Option<Seq<u8>>,
}

/// Reads chunks, one behind the other.
pub open spec fn after_chunks(v: ResponseView, chunks: Seq<ChunkView>) -> Result<
    ResponseView,
    HttpErrorView,
>
    decreases chunks.len(),
{
    if chunks.len() == 0 {
        Ok(v)
    } else {
        match after_chunks(v, chunks.drop_last()) {
            Err(e) => Err(e),
            Ok(w) => after_chunk(w, chunks.last().size, chunks.last().data, chunks.last().end),
        }
    }
}

/// The bytes of chunks, one behind the other.
pub open spec fn chunk_bytes(chunks: Seq<ChunkView>) -> Seq<u8>
    decreases chunks.len(),
{
    if chunks.len() == 0 {
        seq![]
    } else {
        chunk_bytes(chunks.drop_last()) + chunks.last().data
    }
}

proof fn lemma_chunks(v: ResponseView, chunks: Seq<ChunkView>)
    requires
        v.stage == Stage::ChunkSize,
        forall|i: int|
            0 <= i < chunks.len() ==> (#[trigger] chunks[i]).data.len() > 0 && chunk_size_in(
                chunks[i].size,
            ) == Some(chunks[i].data.len()),
    ensures
        after_chunks(v, chunks) == Ok::<ResponseView, HttpErrorView>(
            ResponseView { body: v.body + chunk_bytes(chunks), ..v },
        ),
    decreases chunks.len(),
{
    if chunks.len() == 0 {
        assert(v.body + chunk_bytes(chunks) =~= v.body);
    } else {
        let front = chunks.drop_last();
        let c = chunks.last();
        assert(c == chunks[chunks.len() - 1]);
        assert forall|i: int| 0 <= i < front.len() implies (#[trigger] front[i]).data.len() > 0
            && chunk_size_in(front[i].size) == Some(front[i].data.len()) by {
            assert(front[i] == chunks[i]);
        }
        lemma_chunks(v, front);
        let w = ResponseView { body: v.body + chunk_bytes(front), ..v };
        lemma_chunk(w, c.size, c.data, c.end);
        assert(w.body + c.data =~= v.body + chunk_bytes(chunks));
    }
}

/// A body in chunks is read whole: after chunks, a chunk of size 0 and the line
/// behind it the response is done, and its body is the bytes of the chunks.
pub proof fn lemma_chunked_body(
    v: ResponseView,
    chunks: Seq<ChunkView>,
    last: Seq<char>,
    trailer: Option<Seq<char>>,
)
    requires
        v.stage == Stage::ChunkSize,
        v.body.len() == 0,
        forall|i: int|
            0 <= i < chunks.len() ==> (#[trigger] chunks[i]).data.len() > 0 && chunk_size_in(
                chunks[i].size,
            ) == Some(chunks[i].data.len()),
        chunk_size_in(last) == Some(0nat),
    ensures
        after_chunks(v, chunks) is Ok,
        after_line(after_chunks(v, chunks)->Ok_0, Some(last)) is Ok,
        after_line(after_line(after_chunks(v, chunks)->Ok_0, Some(last))->Ok_0, trailer) == Ok::<
            ResponseView,
            HttpErrorView,
        >(ResponseView { stage: Stage::Done, body: chunk_bytes(chunks), ..v }),
{
    lemma_chunks(v, chunks);
    assert(v.body + chunk_bytes(chunks) =~= chunk_bytes(chunks));
}


// ------------------------------------------- what the operations are for

/// The address of a server: what stands before slashes, with `http://` before
/// it or not.
pub proof fn lemma_address_is(host: Seq<char>, slashes: Seq<char>)
    requires
        host.len() > 0 && host.last() != '/',
        forall|i: int| 0 <= i < slashes.len() ==> #[trigger] slashes[i] == '/',
    ensures
        bare_address("http://"@ + host + slashes) == host,
        !"http://"@.is_prefix_of(host + slashes) ==> bare_address(host + slashes) == host,
{
    let scheme = "http://"@;
    reveal_strlit("http://");
    let all = scheme + host + slashes;
    assert(all.subrange(0, 7) =~= scheme);
    assert(scheme.is_prefix_of(all));
    assert(all.skip(7) =~= host + slashes);
    let rest = host + slashes;
    let class = Class::Only('/');
    crate::text::lemma_trim_ends(rest, class);
    let t = trim_end(rest, class);
    if t.len() < host.len() {
        assert(class.holds(rest[host.len() - 1]));
        assert(rest[host.len() - 1] == host.last());
    }
    if t.len() > host.len() {
        assert(t.last() == rest[t.len() - 1]);
        assert(rest[t.len() - 1] == slashes[t.len() - 1 - host.len()]);
    }
    assert(t =~= rest.subrange(0, t.len() as int));
    assert(t =~= host);
}

/// A request: the method and the path with one slash before it, the host
/// without its port, the length of the body in bytes, and the body behind a
/// blank line.
pub proof fn lemma_request_is(
    host: Seq<char>,
    port: Seq<char>,
    slashes: Seq<char>,
    path: Seq<char>,
    body: Seq<char>,
)
    requires
        !host.contains(':'),
        path.len() > 0 ==> path[0] != '/',
        forall|i: int| 0 <= i < slashes.len() ==> #[trigger] slashes[i] == '/',
    ensures
        post_request(host + seq![':'] + port, slashes + path, body) == "POST /"@ + path
            + " HTTP/1.1\r\nHost: "@ + host
            + "\r\nContent-Type: application/json\r\nContent-Length: "@ + decimal(
            encode_utf8(body).len(),
        ) + "\r\nConnection: keep-alive\r\n\r\n"@ + body,
{
    let addr = host + seq![':'] + port;
    let class = Class::Only(':');
    assert forall|i: int| 0 <= i < host.len() implies !class.holds(#[trigger] host[i]) by {
        assert(host.contains(host[i]));
    }
    crate::text::lemma_first_of(addr, class, 0);
    let at = first_of(addr, class, 0);
    assert(addr[host.len() as int] == ':');
    if at < host.len() {
        assert(addr[at] == host[at]);
    }
    assert(addr.take(at) =~= host);
    let all = slashes + path;
    let slash = Class::Only('/');
    crate::text::lemma_trim_ends(all, slash);
    let t = trim_start(all, slash);
    let cut = all.len() - t.len();
    if cut < slashes.len() {
        assert(t[0] == all[cut]);
        assert(all[cut] == slashes[cut]);
    }
    if cut > slashes.len() {
        assert(slash.holds(all[slashes.len() as int]));
        assert(all[slashes.len() as int] == path[0]);
    }
    assert(t =~= path);
}

/// The status of a response is the number that is the second word of its first
/// line; without one it is 0.
pub proof fn lemma_status_is(line: Seq<char>, n: u16)
    ensures
        words(line).len() > 1 && number(words(line)[1], 10, 65535) == Some(n as nat)
            ==> status_in(line) == n,
        words(line).len() > 1 && number(words(line)[1], 10, 65535) is None ==> status_in(line) == 0,
        words(line).len() < 2 ==> status_in(line) == 0,
{
}

/// The size of a chunk is the hexadecimal number in its line, without the white
/// space round it and without what stands behind a semicolon.
pub proof fn lemma_chunk_size_is(digits: Seq<char>, rest: Seq<char>)
    requires
        digits.len() > 0,
        !Class::Space.holds(digits[0]) && !Class::Space.holds(digits.last()),
        !digits.contains(';'),
        rest.len() == 0 || !Class::Space.holds(rest.last()),
    ensures
        chunk_size_in(digits) == number(digits, 16, usize::MAX as nat),
        chunk_size_in(digits + seq!['\r', '\n']) == number(digits, 16, usize::MAX as nat),
        chunk_size_in(digits + seq![';'] + rest + seq!['\r', '\n']) == number(
            digits,
            16,
            usize::MAX as nat,
        ),
{
    let none = Seq::<char>::empty();
    let end = seq!['\r', '\n'];
    let semi = Class::Only(';');
    assert forall|i: int| 0 <= i < digits.len() implies !semi.holds(#[trigger] digits[i]) by {
        assert(digits.contains(digits[i]));
    }
    crate::text::lemma_trim_is(none, digits, none);
    assert(none + digits + none =~= digits);
    crate::text::lemma_trim_is(none, digits, end);
    assert(none + digits + end =~= digits + end);
    crate::text::lemma_first_of(digits, semi, 0);
    assert(first_of(digits, semi, 0) == digits.len());
    assert(digits.take(digits.len() as int) =~= digits);
    let body = digits + seq![';'] + rest;
    crate::text::lemma_trim_is(none, body, end);
    assert(none + body + end =~= digits + seq![';'] + rest + end);
    assert(body[0] == digits[0]);
    assert(rest.len() > 0 ==> body.last() == rest.last());
    assert(rest.len() == 0 ==> body.last() == ';');
    crate::text::lemma_first_of(body, semi, 0);
    let at = first_of(body, semi, 0);
    assert(body[digits.len() as int] == ';');
    if at < digits.len() {
        assert(body[at] == digits[at]);
    }
    assert(body.take(at) =~= digits);
}

/// What headers say: the length of the body, and that it comes in chunks; in
/// whatever case they are written. Any other header says nothing.
pub proof fn lemma_header_is(v: ResponseView, line: Seq<char>)
    ensures
        ({
            let l = lowercase(line);
            let r = with_header(v, line);
            let is_length = l.len() >= 15 && l.subrange(0, 15) == "content-length:"@;
            let is_coding = l.len() >= 18 && l.subrange(0, 18) == "transfer-encoding:"@
                && crate::query::stands_in("chunked"@, l);
            &&& r.stage == v.stage && r.code == v.code && r.body == v.body
            &&& is_length && number(trim(l.skip(15)), 10, usize::MAX as nat) is Some ==> r.length
                == Some(number(trim(l.skip(15)), 10, usize::MAX as nat)->0 as usize)
            &&& is_length && number(trim(l.skip(15)), 10, usize::MAX as nat) is None
                ==> r.length is None
            &&& is_length ==> r.chunked == v.chunked
            &&& !is_length && is_coding ==> r.chunked && r.length == v.length
            &&& !is_length && !is_coding ==> r == v
        }),
{
    reveal_strlit("content-length:");
    reveal_strlit("transfer-encoding:");
    let l = lowercase(line);
    crate::text::lemma_has_part_is(seq![], "chunked"@, seq![], l);
    if l.len() >= 15 && l.subrange(0, 15) == "content-length:"@ {
        assert("content-length:"@.is_prefix_of(l));
    }
    if l.len() >= 18 && l.subrange(0, 18) == "transfer-encoding:"@ {
        assert("transfer-encoding:"@.is_prefix_of(l));
    }
}

/// How a response is read by lines: the status, headers up to a blank line, and
/// then the body as the headers announce it, in chunks before a length.
pub proof fn lemma_lines_read(v: ResponseView, l: Seq<char>)
    ensures
        v.stage == Stage::Status ==> after_line(v, None) == Err::<ResponseView, HttpErrorView>(
            HttpErrorView::Closed,
        ) && after_line(v, Some(l)) == Ok::<ResponseView, HttpErrorView>(
            ResponseView { stage: Stage::Headers, code: status_in(l), ..v },
        ),
        v.stage == Stage::Headers && trim_end(l, Class::Space).len() > 0 ==> after_line(v, Some(l))
            == Ok::<ResponseView, HttpErrorView>(with_header(v, trim_end(l, Class::Space))),
        ({
            let body = if v.chunked {
                Stage::ChunkSize
            } else if v.length is Some {
                Stage::Whole(v.length->0)
            } else {
                Stage::ToEnd
            };
            let r = Ok::<ResponseView, HttpErrorView>(ResponseView { stage: body, ..v });
            &&& v.stage == Stage::Headers ==> after_line(v, None) == r
            &&& v.stage == Stage::Headers && trim_end(l, Class::Space).len() == 0 ==> after_line(
                v,
                Some(l),
            ) == r
        }),
        v.stage == Stage::ChunkSize && chunk_size_in(l) is None ==> after_line(v, Some(l)) == Err::<
            ResponseView,
            HttpErrorView,
        >(HttpErrorView::ChunkSize),
        v.stage == Stage::ChunkSize ==> after_line(v, None) == Ok::<ResponseView, HttpErrorView>(
            ResponseView { stage: Stage::Done, ..v },
        ),
{
}

/// How a response is read by bytes: a whole body is the body, a chunk goes
/// behind those before it, and where there are too few bytes there is none.
pub proof fn lemma_bytes_read(v: ResponseView, b: Seq<u8>)
    ensures
        v.stage is Whole || v.stage is ToEnd ==> after_bytes(v, Some(b)) == Ok::<
            ResponseView,
            HttpErrorView,
        >(ResponseView { stage: Stage::Done, body: b, ..v }),
        v.stage is Chunk ==> after_bytes(v, Some(b)) == Ok::<ResponseView, HttpErrorView>(
            ResponseView { stage: Stage::ChunkEnd, body: v.body + b, ..v },
        ),
        v.stage is Whole || v.stage is ToEnd || v.stage is Chunk ==> after_bytes(v, None) == Err::<
            ResponseView,
            HttpErrorView,
        >(HttpErrorView::Short),
        v.stage is ChunkEnd ==> after_bytes(v, None) == Ok::<ResponseView, HttpErrorView>(
            ResponseView { stage: Stage::ChunkSize, ..v },
        ),
        needs_line(v.stage) <==> v.stage is Status || v.stage is Headers || v.stage is ChunkSize
            || v.stage is Trailer,
        needs_bytes(v.stage) <==> v.stage is Whole || v.stage is ToEnd || v.stage is Chunk
            || v.stage is ChunkEnd,
{
}

} // verus!
