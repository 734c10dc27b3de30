//! The wire format: the request line and the header lines as they are
//! read, and the bytes of a response as they are written.

use vstd::prelude::*;
use vstd::string::*;
use vstd::utf8::*;
use crate::http::text::{
    ends_with_crlf, parse_unsigned, same_text, split, split_on, strip_crlf, unsigned_value, views,
    without_last_two,
};
use crate::http::{
    content_length_name, method_named, version_named, HttpMethod, HttpRequest, HttpRequestView,
    HttpResponse, HttpVersion, StatusCode,
};

verus! {

/// Why a connection is given up before a response is written.
#[derive(Debug, PartialEq, Eq, Clone, Copy, Structural)]
pub enum ProtocolError {
    /// The request line does not end with a line end, or is not three
    /// tokens with one space between neighbours.
    MalformedRequestLine,
    /// The first token of the request line names no method.
    UnknownMethod,
    /// The third token of the request line is not `HTTP/1.1`.
    UnsupportedVersion,
    /// A header line does not end with a line end, or does not hold `": "`
    /// exactly once.
    MalformedHeader,
    /// The value of `Content-Length` is no number, or one that is too
    /// large.
    InvalidContentLength,
}

/// What a request line says.
pub struct RequestLine {
    pub method: HttpMethod,
    pub path: Seq<char>,
    pub version: HttpVersion,
}

/// What the request line `line` says: method, path and version, with one
/// space between them and a line end after them.
pub open spec fn request_line(line: Seq<char>) -> Result<RequestLine, ProtocolError> {
    if !ends_with_crlf(line) {
        Err(ProtocolError::MalformedRequestLine)
    } else {
        let tokens = split_on(without_last_two(line), ' ');
        if tokens.len() != 3 {
            Err(ProtocolError::MalformedRequestLine)
        } else {
            match method_named(tokens[0]) {
                None => Err(ProtocolError::UnknownMethod),
                Some(method) => match version_named(tokens[2]) {
                    None => Err(ProtocolError::UnsupportedVersion),
                    Some(version) => Ok(RequestLine { method, path: tokens[1], version }),
                },
            }
        }
    }
}

/// The request that a request line begins: no headers yet, no content,
/// no route parameters.
pub open spec fn request_of_line(line: RequestLine) -> HttpRequestView {
    HttpRequestView {
        method: line.method,
        path: line.path,
        http_version: line.version,
        headers: Map::empty(),
        content: None,
        route_params: Map::empty(),
    }
}

/// Reads a request line.
pub fn parse_request_line(line: &str) -> (parsed: Result<HttpRequest, ProtocolError>)
    ensures
        match parsed {
            Ok(request) => request_line(line@) is Ok && request@ == request_of_line(
                request_line(line@)->Ok_0,
            ),
            Err(error) => request_line(line@) == Err::<RequestLine, ProtocolError>(error),
        },
{
    let stripped = match strip_crlf(line) {
        Some(stripped) => stripped,
        None => {
            return Err(ProtocolError::MalformedRequestLine);
        },
    };
    let mut tokens = split(stripped.as_str(), ' ');
    if tokens.len() != 3 {
        return Err(ProtocolError::MalformedRequestLine);
    }
    let ghost texts = views(tokens@);
    proof {
        assert(texts[0] == tokens@[0]@);
        assert(texts[1] == tokens@[1]@);
        assert(texts[2] == tokens@[2]@);
    }
    let method = match HttpMethod::parse(tokens[0].as_str()) {
        Some(method) => method,
        None => {
            return Err(ProtocolError::UnknownMethod);
        },
    };
    let version = match HttpVersion::parse(tokens[2].as_str()) {
        Some(version) => version,
        None => {
            return Err(ProtocolError::UnsupportedVersion);
        },
    };
    let path = tokens.swap_remove(1);
    let mut request = HttpRequest::new(method, path);
    request.http_version = version;
    Ok(request)
}

/// Whether `": "` stands at place `i` of `text`.
pub open spec fn separator_at(text: Seq<char>, i: int) -> bool {
    0 <= i && i + 1 < text.len() && text[i] == ':' && text[i + 1] == ' '
}

/// Whether `": "` stands in `text` exactly once.
pub open spec fn has_one_separator(text: Seq<char>) -> bool {
    exists|i: int| separator_at(text, i) && forall|j: int| separator_at(text, j) ==> j == i
}

/// The place of `": "` in `text`.
pub open spec fn separator_place(text: Seq<char>) -> int {
    choose|i: int| separator_at(text, i)
}

/// What a header line says.
pub enum HeaderLineView {
    /// The empty line: the headers are over.
    End,
    /// A header with its key and its value.
    Field(Seq<char>, Seq<char>),
}

/// What a header line says, as the parser hands it on.
pub enum HeaderLine {
    End,
    Field(String, String),
}

impl View for HeaderLine {
    type V = HeaderLineView;

    open spec fn view(&self) -> HeaderLineView {
        match self {
            HeaderLine::End => HeaderLineView::End,
            HeaderLine::Field(key, value) => HeaderLineView::Field(key@, value@),
        }
    }
}

/// What the header line `line` says. A line that is only a line end ends
/// the headers. Any other line is a key, `": "`, a value and a line end,
/// with `": "` nowhere else.
pub open spec fn header_line(line: Seq<char>) -> Result<HeaderLineView, ProtocolError> {
    if !ends_with_crlf(line) {
        Err(ProtocolError::MalformedHeader)
    } else {
        let text = without_last_two(line);
        if text.len() == 0 {
            Ok(HeaderLineView::End)
        } else if has_one_separator(text) {
            let at = separator_place(text);
            Ok(HeaderLineView::Field(text.take(at), text.skip(at + 2)))
        } else {
            Err(ProtocolError::MalformedHeader)
        }
    }
}

/// Reads a header line.
pub fn parse_header_line(line: &str) -> (parsed: Result<HeaderLine, ProtocolError>)
    ensures
        match parsed {
            Ok(header) => header_line(line@) == Ok::<HeaderLineView, ProtocolError>(header@),
            Err(error) => header_line(line@) == Err::<HeaderLineView, ProtocolError>(error),
        },
{
    let stripped = match strip_crlf(line) {
        Some(stripped) => stripped,
        None => {
            return Err(ProtocolError::MalformedHeader);
        },
    };
    let text = stripped.as_str();
    let n = text.unicode_len();
    if n == 0 {
        return Ok(HeaderLine::End);
    }
    let mut first: Option<usize> = None;
    let mut more = false;
    let mut after_colon = false;
    let mut i: usize = 0;
    for c in it: text.chars()
        invariant
            it.seq() == text@,
            i == it.index(),
            n == text@.len(),
            after_colon == (i > 0 && text@[i - 1] == ':'),
            first is None ==> !more && forall|j: int| j + 1 < i ==> !separator_at(text@, j),
            first is Some ==> first->0 + 1 < i && separator_at(text@, first->0 as int),
            first is Some && !more ==> forall|j: int|
                j + 1 < i && separator_at(text@, j) ==> j == first->0,
            more ==> first is Some && exists|j: int| separator_at(text@, j) && j != first->0,
    {
        proof {
            assert(c == text@[i as int]);
        }
        if after_colon && c == ' ' {
            assert(separator_at(text@, i - 1));
            match first {
                None => {
                    first = Some(i - 1);
                },
                Some(_) => {
                    more = true;
                },
            }
        }
        after_colon = c == ':';
        i = i + 1;
    }
    match first {
        Some(at) => {
            if more {
                proof {
                    if has_one_separator(text@) {
                        let only = choose|i: int|
                            separator_at(text@, i) && forall|j: int| separator_at(text@, j) ==> j == i;
                        let other = choose|j: int| separator_at(text@, j) && j != at;
                        assert(other == only);
                        assert(at == only);
                    }
                }
                Err(ProtocolError::MalformedHeader)
            } else {
                proof {
                    assert(forall|j: int| separator_at(text@, j) ==> j == at);
                    assert(has_one_separator(text@));
                    assert(separator_place(text@) == at);
                }
                let key = text.substring_char(0, at);
                let value = text.substring_char(at + 2, n);
                proof {
                    assert(key@ =~= text@.take(at as int));
                    assert(value@ =~= text@.skip(at + 2));
                }
                Ok(HeaderLine::Field(key.to_owned(), value.to_owned()))
            }
        },
        None => {
            proof {
                assert(forall|j: int| !separator_at(text@, j));
            }
            Err(ProtocolError::MalformedHeader)
        },
    }
}

/// The body length that the value of a `Content-Length` header announces.
pub open spec fn announced_length(value: Seq<char>) -> Option<usize> {
    match unsigned_value(value) {
        Some(n) => if n <= usize::MAX {
            Some(n as usize)
        } else {
            None
        },
        None => None,
    }
}

/// A request while its head is read: the request so far, and the body
/// length that a `Content-Length` header has announced.
pub struct RequestParser {
    request: HttpRequest,
    content_length: Option<usize>,
}

/// What the parser holds, as plain values.
pub struct RequestParserView {
    pub request: HttpRequestView,
    pub content_length: Option<usize>,
}

impl View for RequestParser {
    type V = RequestParserView;

    closed spec fn view(&self) -> RequestParserView {
        RequestParserView { request: self.request@, content_length: self.content_length }
    }
}

impl RequestParserView {
    /// The parser after the header `key` with the value `value`: the header
    /// is added to the request, and a `Content-Length` sets the body length.
    /// `None` where the value of a `Content-Length` is no length.
    pub open spec fn with_header(self, key: Seq<char>, value: Seq<char>) -> Option<RequestParserView> {
        let request = HttpRequestView { headers: self.request.headers.insert(key, value), ..self.request };
        if key == content_length_name() {
            match announced_length(value) {
                Some(length) => Some(RequestParserView { request, content_length: Some(length) }),
                None => None,
            }
        } else {
            Some(RequestParserView { request, content_length: self.content_length })
        }
    }

    /// What the header line `line` makes of the parser: the parser that
    /// expects more lines, `None` where the headers are over, or the error
    /// that ends the connection.
    pub open spec fn after_line(self, line: Seq<char>) -> Result<Option<RequestParserView>, ProtocolError> {
        match header_line(line) {
            Err(error) => Err(error),
            Ok(HeaderLineView::End) => Ok(None),
            Ok(HeaderLineView::Field(key, value)) => match self.with_header(key, value) {
                Some(next) => Ok(Some(next)),
                None => Err(ProtocolError::InvalidContentLength),
            },
        }
    }
}

impl RequestParser {
    /// Begins a request with its request line.
    pub fn begin(line: &str) -> (parsed: Result<RequestParser, ProtocolError>)
        ensures
            match parsed {
                Ok(parser) => request_line(line@) is Ok && parser@ == (RequestParserView {
                    request: request_of_line(request_line(line@)->Ok_0),
                    content_length: None,
                }),
                Err(error) => request_line(line@) == Err::<RequestLine, ProtocolError>(error),
            },
    {
        match parse_request_line(line) {
            Ok(request) => Ok(RequestParser { request, content_length: None }),
            Err(error) => Err(error),
        }
    }

    /// Takes one header line. `Ok(true)`: the header was added and more
    /// lines are expected. `Ok(false)`: the line ended the headers. On an
    /// error the parser is as it was.
    pub fn header(&mut self, line: &str) -> (outcome: Result<bool, ProtocolError>)
        ensures
            match old(self)@.after_line(line@) {
                Ok(Some(next)) => outcome == Ok::<bool, ProtocolError>(true) && final(self)@ == next,
                Ok(None) => outcome == Ok::<bool, ProtocolError>(false) && final(self)@ == old(self)@,
                Err(error) => outcome == Err::<bool, ProtocolError>(error) && final(self)@ == old(self)@,
            },
    {
        match parse_header_line(line) {
            Err(error) => Err(error),
            Ok(HeaderLine::End) => Ok(false),
            Ok(HeaderLine::Field(key, value)) => {
                if same_text(key.as_str(), "Content-Length") {
                    match parse_unsigned(value.as_str()) {
                        Some(length) => {
                            self.content_length = Some(length);
                        },
                        None => {
                            return Err(ProtocolError::InvalidContentLength);
                        },
                    }
                }
                self.request.headers.insert(key, value);
                Ok(true)
            },
        }
    }

    /// The body length that the headers have announced, if they have.
    pub fn body_length(&self) -> (length: Option<usize>)
        ensures
            length == self@.content_length,
    {
        self.content_length
    }

    /// The request with the content that was read after its head: as many
    /// bytes as the headers have announced, and none where they have
    /// announced none.
    pub fn finish(self, content: Option<Vec<u8>>) -> (request: HttpRequest)
        requires
            match self@.content_length {
                Some(length) => content is Some && content->0@.len() == length,
                None => content is None,
            },
        ensures
            request@ == (HttpRequestView {
                content: match content {
                    Some(bytes) => Some(bytes@),
                    None => None,
                },
                ..self@.request
            }),
    {
        let mut request = self.request;
        request.content = content;
        request
    }
}

/// A carriage return and a line feed.
pub open spec fn crlf() -> Seq<u8> {
    seq![13u8, 10u8]
}

/// A colon and a space.
pub open spec fn colon_space() -> Seq<u8> {
    seq![58u8, 32u8]
}

/// The decimal digits of `n` as bytes.
pub open spec fn decimal_bytes(n: nat) -> Seq<u8>
    decreases n,
{
    if n < 10 {
        seq![(48 + n) as u8]
    } else {
        decimal_bytes(n / 10).push((48 + n % 10) as u8)
    }
}

/// The status line: version, status number and reason phrase.
pub open spec fn status_line(version: HttpVersion, status: StatusCode) -> Seq<u8> {
    encode_utf8(version.spec_name()) + seq![32u8] + decimal_bytes(status.spec_code() as nat) + seq![
        32u8,
    ] + encode_utf8(status.spec_reason()) + crlf()
}

/// One header line.
pub open spec fn header_bytes(key: Seq<char>, value: Seq<char>) -> Seq<u8> {
    encode_utf8(key) + colon_space() + encode_utf8(value) + crlf()
}

/// The header lines of the entries, in their order.
pub open spec fn headers_bytes(entries: Seq<(Seq<char>, Seq<char>)>) -> Seq<u8>
    decreases entries.len(),
{
    if entries.len() == 0 {
        Seq::empty()
    } else {
        headers_bytes(entries.drop_last()) + header_bytes(entries.last().0, entries.last().1)
    }
}

/// The `Content-Length` line for a body of `length` bytes.
pub open spec fn content_length_line(length: nat) -> Seq<u8> {
    encode_utf8(content_length_name()) + colon_space() + decimal_bytes(length) + crlf()
}

/// The bytes of a response: the status line, the headers in their order,
/// the `Content-Length` line where there is content, an empty line, and
/// the content.
pub open spec fn response_bytes(
    version: HttpVersion,
    status: StatusCode,
    headers: Seq<(Seq<char>, Seq<char>)>,
    content: Option<Seq<u8>>,
) -> Seq<u8> {
    status_line(version, status) + headers_bytes(headers) + match content {
        Some(body) => content_length_line(body.len()) + crlf() + body,
        None => crlf(),
    }
}

/// Appends the decimal digits of `n`.
fn push_decimal(out: &mut Vec<u8>, n: usize)
    ensures
        final(out)@ == old(out)@ + decimal_bytes(n as nat),
    decreases n,
{
    if n >= 10 {
        push_decimal(out, n / 10);
    }
    let digit: u8 = (48 + n % 10) as u8;
    out.push(digit);
    proof {
        if n >= 10 {
            assert(final(out)@ =~= old(out)@ + decimal_bytes(n as nat));
        } else {
            assert(final(out)@ =~= old(out)@ + decimal_bytes(n as nat));
        }
    }
}

/// Appends the UTF-8 bytes of `text`.
fn push_text(out: &mut Vec<u8>, text: &str)
    ensures
        final(out)@ == old(out)@ + encode_utf8(text@),
{
    out.extend_from_slice(text.as_bytes());
}

/// Appends a carriage return and a line feed.
fn push_crlf(out: &mut Vec<u8>)
    ensures
        final(out)@ == old(out)@ + crlf(),
{
    out.push(13u8);
    out.push(10u8);
    assert(final(out)@ =~= old(out)@ + crlf());
}

/// Appends a colon and a space.
fn push_colon_space(out: &mut Vec<u8>)
    ensures
        final(out)@ == old(out)@ + colon_space(),
{
    out.push(58u8);
    out.push(32u8);
    assert(final(out)@ =~= old(out)@ + colon_space());
}

/// The bytes of `response` as they go over the wire, under the version
/// `version`.
pub fn write_response(version: HttpVersion, response: &HttpResponse) -> (bytes: Vec<u8>)
    ensures
        bytes@ == response_bytes(
            version,
            response.status_code,
            response.headers.entries(),
            response@.content,
        ),
{
    let mut out: Vec<u8> = Vec::new();
    push_text(&mut out, version.to_string());
    out.push(32u8);
    push_decimal(&mut out, response.status_code.to_code() as usize);
    out.push(32u8);
    push_text(&mut out, response.status_code.to_string());
    push_crlf(&mut out);
    assert(out@ =~= status_line(version, response.status_code));
    let ghost entries = response.headers.entries();
    let count = response.headers.len();
    let mut i: usize = 0;
    assert(entries.take(0) =~= Seq::<(Seq<char>, Seq<char>)>::empty());
    assert(out@ =~= status_line(version, response.status_code) + headers_bytes(entries.take(0)));
    while i < count
        invariant
            i <= count,
            count == entries.len(),
            entries == response.headers.entries(),
            out@ == status_line(version, response.status_code) + headers_bytes(entries.take(i as int)),
        decreases count - i,
    {
        let ghost before = out@;
        push_text(&mut out, response.headers.key_at(i).as_str());
        push_colon_space(&mut out);
        push_text(&mut out, response.headers.value_at(i).as_str());
        push_crlf(&mut out);
        proof {
            let seen = entries.take(i + 1);
            assert(seen.drop_last() =~= entries.take(i as int));
            assert(seen.last() == entries[i as int]);
            assert(out@ =~= before + header_bytes(entries[i as int].0, entries[i as int].1));
            assert(out@ =~= status_line(version, response.status_code) + headers_bytes(seen));
        }
        i = i + 1;
    }
    assert(entries.take(i as int) =~= entries);
    let ghost head = out@;
    match &response.content {
        Some(body) => {
            push_text(&mut out, "Content-Length");
            push_colon_space(&mut out);
            push_decimal(&mut out, body.len());
            push_crlf(&mut out);
            push_crlf(&mut out);
            out.extend_from_slice(body.as_slice());
            assert(out@ =~= head + (content_length_line(body@.len()) + crlf() + body@));
        },
        None => {
            push_crlf(&mut out);
        },
    }
    out
}

} // verus!
