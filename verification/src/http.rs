//! HTTP types, routing and the protocol logic of the server.

use vstd::prelude::*;
use vstd::string::*;
use vstd::utf8::*;
use crate::http::string_map::StringMap;
use crate::http::text::same_text;

pub mod file_server;
pub mod http_router;
pub mod http_server;
pub mod route_path;
pub mod route_table;
pub mod string_map;
pub mod text;
pub mod wire;

verus! {

/// Why a part of the configuration is refused.
#[derive(Debug, PartialEq, Eq, Clone, Copy, Structural)]
pub enum ConfigError {
    /// A `*` stands before the end of a registered path.
    WildcardNotLast,
    /// A node on the way of a registered path has another child that is
    /// not literal than the one that the path takes there.
    ConflictingSegment,
    /// The header is `Content-Length`, which the server computes itself.
    ReservedHeader,
}

/// The request methods that the router keeps a route tree for.
#[derive(Debug, PartialEq, Eq, Hash, Clone, Copy, Structural)]
pub enum HttpMethod {
    GET,
    PUT,
    POST,
    DELETE,
    OPTION,
}

/// The method that a request line's first token names.
pub open spec fn method_named(name: Seq<char>) -> Option<HttpMethod> {
    if name == "GET"@ {
        Some(HttpMethod::GET)
    } else if name == "POST"@ {
        Some(HttpMethod::POST)
    } else if name == "PUT"@ {
        Some(HttpMethod::PUT)
    } else if name == "DELETE"@ {
        Some(HttpMethod::DELETE)
    } else if name == "OPTION"@ {
        Some(HttpMethod::OPTION)
    } else {
        None
    }
}

impl HttpMethod {
    /// The place of the method in declaration order.
    pub open spec fn spec_index(self) -> int {
        match self {
            HttpMethod::GET => 0,
            HttpMethod::PUT => 1,
            HttpMethod::POST => 2,
            HttpMethod::DELETE => 3,
            HttpMethod::OPTION => 4,
        }
    }

    /// The place of the method in declaration order.
    pub fn index(self) -> (i: usize)
        ensures
            i == self.spec_index(),
            i < 5,
    {
        match self {
            HttpMethod::GET => 0,
            HttpMethod::PUT => 1,
            HttpMethod::POST => 2,
            HttpMethod::DELETE => 3,
            HttpMethod::OPTION => 4,
        }
    }

    /// Every method once, in declaration order.
    pub fn all() -> (methods: Vec<HttpMethod>)
        ensures
            methods@ == seq![
                HttpMethod::GET,
                HttpMethod::PUT,
                HttpMethod::POST,
                HttpMethod::DELETE,
                HttpMethod::OPTION,
            ],
            forall|m: HttpMethod| #[trigger] methods@[m.spec_index()] == m,
    {
        let mut methods: Vec<HttpMethod> = Vec::new();
        methods.push(HttpMethod::GET);
        methods.push(HttpMethod::PUT);
        methods.push(HttpMethod::POST);
        methods.push(HttpMethod::DELETE);
        methods.push(HttpMethod::OPTION);
        assert(methods@ =~= seq![
            HttpMethod::GET,
            HttpMethod::PUT,
            HttpMethod::POST,
            HttpMethod::DELETE,
            HttpMethod::OPTION,
        ]);
        methods
    }

    /// The method named `value`, if it is one of the five.
    pub fn parse(value: &str) -> (method: Option<HttpMethod>)
        ensures
            method == method_named(value@),
    {
        if same_text(value, "GET") {
            Some(HttpMethod::GET)
        } else if same_text(value, "POST") {
            Some(HttpMethod::POST)
        } else if same_text(value, "PUT") {
            Some(HttpMethod::PUT)
        } else if same_text(value, "DELETE") {
            Some(HttpMethod::DELETE)
        } else if same_text(value, "OPTION") {
            Some(HttpMethod::OPTION)
        } else {
            None
        }
    }

    /// The method named `value`, which must be one of the five names.
    pub fn from_method_string(value: &str) -> (method: HttpMethod)
        requires
            method_named(value@) is Some,
        ensures
            method_named(value@) == Some(method),
    {
        HttpMethod::parse(value).unwrap()
    }
}

/// The content types that a response can announce.
#[derive(Debug, PartialEq, Eq, Clone, Copy, Structural)]
pub enum HttpContentType {
    TEXTPLAIN,
}

impl HttpContentType {
    /// The value of the `Content-Type` header for this type.
    pub open spec fn spec_header_value(self) -> Seq<char> {
        match self {
            HttpContentType::TEXTPLAIN => "text/plain; charset=utf-8"@,
        }
    }

    /// The value of the `Content-Type` header for this type.
    pub fn to_string_with_encoding(&self) -> (value: &'static str)
        ensures
            value@ == self.spec_header_value(),
    {
        match self {
            HttpContentType::TEXTPLAIN => "text/plain; charset=utf-8",
        }
    }
}

/// The protocol versions that the server speaks.
#[derive(Debug, PartialEq, Eq, Clone, Copy, Structural)]
pub enum HttpVersion {
    _1_1,
}

/// The version that a request line's third token names.
pub open spec fn version_named(name: Seq<char>) -> Option<HttpVersion> {
    if name == "HTTP/1.1"@ {
        Some(HttpVersion::_1_1)
    } else {
        None
    }
}

impl HttpVersion {
    /// The version as it stands on the wire.
    pub open spec fn spec_name(self) -> Seq<char> {
        match self {
            HttpVersion::_1_1 => "HTTP/1.1"@,
        }
    }

    /// The version named `val`, if the server speaks it.
    pub fn parse(val: &str) -> (version: Option<HttpVersion>)
        ensures
            version == version_named(val@),
    {
        if same_text(val, "HTTP/1.1") {
            Some(HttpVersion::_1_1)
        } else {
            None
        }
    }

    /// The version named `val`, which must be `HTTP/1.1`.
    pub fn from_str(val: &str) -> (version: HttpVersion)
        requires
            version_named(val@) is Some,
        ensures
            version_named(val@) == Some(version),
    {
        HttpVersion::_1_1
    }

    /// The version as it stands on the wire.
    pub fn to_string(&self) -> (name: &'static str)
        ensures
            name@ == self.spec_name(),
            version_named(name@) == Some(*self),
    {
        match self {
            HttpVersion::_1_1 => "HTTP/1.1",
        }
    }
}

/// The status of a response.
#[derive(Debug, PartialEq, Eq, Clone, Copy, Structural)]
pub enum StatusCode {
    _404,
    _200,
}

impl StatusCode {
    /// The reason phrase of the status line.
    pub open spec fn spec_reason(self) -> Seq<char> {
        match self {
            StatusCode::_404 => "Not Found"@,
            StatusCode::_200 => "OK"@,
        }
    }

    /// The number of the status line.
    pub open spec fn spec_code(self) -> u16 {
        match self {
            StatusCode::_404 => 404,
            StatusCode::_200 => 200,
        }
    }

    /// The reason phrase of the status line.
    pub fn to_string(&self) -> (reason: &'static str)
        ensures
            reason@ == self.spec_reason(),
    {
        match self {
            StatusCode::_404 => "Not Found",
            StatusCode::_200 => "OK",
        }
    }

    /// The number of the status line.
    pub fn to_code(&self) -> (code: u16)
        ensures
            code == self.spec_code(),
    {
        match self {
            StatusCode::_404 => 404,
            StatusCode::_200 => 200,
        }
    }
}

/// The name of the header that the server computes itself.
pub open spec fn content_length_name() -> Seq<char> {
    "Content-Length"@
}

/// The name of the header that announces the content type.
pub open spec fn content_type_name() -> Seq<char> {
    "Content-Type"@
}

/// `Content-Type` is not the reserved `Content-Length`.
pub proof fn lemma_content_type_is_not_reserved()
    ensures
        content_type_name() != content_length_name(),
{
    reveal_strlit("Content-Type");
    reveal_strlit("Content-Length");
    assert(content_type_name().len() == 12);
    assert(content_length_name().len() == 14);
}

/// `String::from_utf8` of std: the text that `bytes` encode, and `None`
/// exactly where they are not valid UTF-8.
#[verifier::external_body]
fn text_of_bytes(bytes: Vec<u8>) -> (text: Option<String>)
    ensures
        text is Some == valid_utf8(bytes@),
        text is Some ==> text->0@ == decode_utf8(bytes@),
{
    String::from_utf8(bytes).ok()
}

/// What a response holds, as plain values.
pub struct HttpResponseView {
    pub status_code: StatusCode,
    pub content_type: Option<HttpContentType>,
    pub content: Option<Seq<u8>>,
    pub headers: Map<Seq<char>, Seq<char>>,
}

/// A response as a handler builds it.
pub struct HttpResponse {
    pub status_code: StatusCode,
    pub content_type: Option<HttpContentType>,
    pub content: Option<Vec<u8>>,
    pub headers: StringMap,
}

impl View for HttpResponse {
    type V = HttpResponseView;

    open spec fn view(&self) -> HttpResponseView {
        HttpResponseView {
            status_code: self.status_code,
            content_type: self.content_type,
            content: match self.content {
                Some(bytes) => Some(bytes@),
                None => None,
            },
            headers: self.headers@,
        }
    }
}

impl HttpResponseView {
    /// The response that `new` builds: 200, no content, no headers.
    pub open spec fn empty() -> HttpResponseView {
        HttpResponseView {
            status_code: StatusCode::_200,
            content_type: None,
            content: None,
            headers: Map::empty(),
        }
    }

    /// This response with content of the given type, announced in the
    /// `Content-Type` header.
    pub open spec fn with_content(self, content: Seq<u8>, content_type: HttpContentType) -> HttpResponseView {
        HttpResponseView {
            status_code: self.status_code,
            content_type: Some(content_type),
            content: Some(content),
            headers: self.headers.insert(content_type_name(), content_type.spec_header_value()),
        }
    }
}

impl Default for HttpResponse {
    fn default() -> (response: HttpResponse)
        ensures
            response@ == HttpResponseView::empty(),
            response.headers.entries().len() == 0,
    {
        HttpResponse::new()
    }
}

impl HttpResponse {
    /// A response with status 200, no content and no headers.
    pub fn new() -> (response: HttpResponse)
        ensures
            response@ == HttpResponseView::empty(),
            response.headers.entries().len() == 0,
    {
        HttpResponse {
            status_code: StatusCode::_200,
            content_type: None,
            content: None,
            headers: StringMap::new(),
        }
    }

    /// Sets the content to the UTF-8 bytes of `content`, as plain text.
    pub fn with_string_content(self, content: &str) -> (response: HttpResponse)
        ensures
            response@ == self@.with_content(encode_utf8(content@), HttpContentType::TEXTPLAIN),
            response.headers.entries() == string_map::entries_with(
                self.headers.entries(),
                content_type_name(),
                HttpContentType::TEXTPLAIN.spec_header_value(),
            ),
    {
        self.with_byte_content(content.as_bytes_vec(), HttpContentType::TEXTPLAIN)
    }

    /// Sets the content to `content`, of the type `content_type`.
    pub fn with_byte_content(self, content: Vec<u8>, content_type: HttpContentType) -> (response:
        HttpResponse)
        ensures
            response@ == self@.with_content(content@, content_type),
            response.headers.entries() == string_map::entries_with(
                self.headers.entries(),
                content_type_name(),
                content_type.spec_header_value(),
            ),
    {
        let mut response = self;
        response.content_type = Some(content_type);
        response.content = Some(content);
        proof {
            lemma_content_type_is_not_reserved();
        }
        response.with_header(
            String::from_str("Content-Type"),
            String::from_str(content_type.to_string_with_encoding()),
        )
    }

    /// Sets the status to 200.
    pub fn ok(self) -> (response: HttpResponse)
        ensures
            response@ == (HttpResponseView { status_code: StatusCode::_200, ..self@ }),
            response.headers == self.headers,
    {
        let mut response = self;
        response.status_code = StatusCode::_200;
        response
    }

    /// Sets the status to 404.
    pub fn not_found(self) -> (response: HttpResponse)
        ensures
            response@ == (HttpResponseView { status_code: StatusCode::_404, ..self@ }),
            response.headers == self.headers,
    {
        let mut response = self;
        response.status_code = StatusCode::_404;
        response
    }

    /// The content as text. There must be content, and it must be valid
    /// UTF-8.
    pub fn content_as_string(self) -> (text: String)
        requires
            self@.content is Some,
            valid_utf8(self@.content->0),
        ensures
            text@ == decode_utf8(self@.content->0),
    {
        text_of_bytes(self.content.unwrap()).unwrap()
    }

    /// The content as text, where there is content and it is valid UTF-8.
    pub fn content_text(self) -> (text: Option<String>)
        ensures
            text is Some == (self@.content is Some && valid_utf8(self@.content->0)),
            text is Some ==> text->0@ == decode_utf8(self@.content->0),
    {
        match self.content {
            Some(bytes) => text_of_bytes(bytes),
            None => None,
        }
    }

    /// Sets the header `header_key` to `header_val`. The key must not be
    /// `Content-Length`, which the server computes from the content.
    pub fn with_header(self, header_key: String, header_val: String) -> (response: HttpResponse)
        requires
            header_key@ != content_length_name(),
        ensures
            response@ == (HttpResponseView {
                headers: self@.headers.insert(header_key@, header_val@),
                ..self@
            }),
            response.headers.entries() == string_map::entries_with(
                self.headers.entries(),
                header_key@,
                header_val@,
            ),
    {
        let mut response = self;
        response.headers.insert(header_key, header_val);
        response
    }

    /// Sets the header `header_key` to `header_val`, unless the key is the
    /// reserved `Content-Length`, which is refused.
    pub fn try_with_header(self, header_key: String, header_val: String) -> (outcome: Result<
        HttpResponse,
        ConfigError,
    >)
        ensures
            outcome is Err == (header_key@ == content_length_name()),
            outcome is Err ==> outcome->Err_0 == ConfigError::ReservedHeader,
            outcome is Ok ==> outcome->Ok_0@ == (HttpResponseView {
                headers: self@.headers.insert(header_key@, header_val@),
                ..self@
            }),
            outcome is Ok ==> outcome->Ok_0.headers.entries() == string_map::entries_with(
                self.headers.entries(),
                header_key@,
                header_val@,
            ),
    {
        if same_text(header_key.as_str(), "Content-Length") {
            Err(ConfigError::ReservedHeader)
        } else {
            Ok(self.with_header(header_key, header_val))
        }
    }
}

/// What a request holds, as plain values.
pub struct HttpRequestView {
    pub method: HttpMethod,
    pub path: Seq<char>,
    pub http_version: HttpVersion,
    pub headers: Map<Seq<char>, Seq<char>>,
    pub content: Option<Seq<u8>>,
    pub route_params: Map<Seq<char>, Seq<char>>,
}

/// A request as it is read from a connection. The router adds the route
/// parameters before it hands the request to a handler.
pub struct HttpRequest {
    pub method: HttpMethod,
    pub path: String,
    pub http_version: HttpVersion,
    pub headers: StringMap,
    pub content: Option<Vec<u8>>,
    pub route_params: StringMap,
}

impl View for HttpRequest {
    type V = HttpRequestView;

    open spec fn view(&self) -> HttpRequestView {
        HttpRequestView {
            method: self.method,
            path: self.path@,
            http_version: self.http_version,
            headers: self.headers@,
            content: match self.content {
                Some(bytes) => Some(bytes@),
                None => None,
            },
            route_params: self.route_params@,
        }
    }
}

impl HttpRequestView {
    /// This request with the route parameters `params` added; a name that
    /// is bound already gets the new value.
    pub open spec fn with_route_params(self, params: Map<Seq<char>, Seq<char>>) -> HttpRequestView {
        HttpRequestView { route_params: self.route_params.union_prefer_right(params), ..self }
    }
}

impl HttpRequest {
    /// A request for `path` with no headers, no content and no route
    /// parameters.
    pub fn new(method: HttpMethod, path: String) -> (request: HttpRequest)
        ensures
            request@ == (HttpRequestView {
                method,
                path: path@,
                http_version: HttpVersion::_1_1,
                headers: Map::empty(),
                content: None,
                route_params: Map::empty(),
            }),
            request.headers.entries().len() == 0,
            request.route_params.entries().len() == 0,
    {
        HttpRequest {
            method,
            path,
            http_version: HttpVersion::_1_1,
            headers: StringMap::new(),
            content: None,
            route_params: StringMap::new(),
        }
    }
}

} // verus!
