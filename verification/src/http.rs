//! Portable HTTP requests and responses, as a controller hands them to its
//! host and gets them back.

use vstd::prelude::*;
use vstd::string::{StrSliceExecFns, StringExecFns, StringSliceAdditionalSpecFns};
use vstd::utf8::encode_utf8;

verus! {

/// HTTP methods.
#[derive(Debug, Clone, Copy, PartialEq, Eq)]
pub enum HttpMethod {
    Get,
    Post,
    Put,
    Delete,
    Patch,
    Head,
}

/// The name of a method, in upper case.
pub open spec fn method_name(m: HttpMethod) -> Seq<char> {
    match m {
        HttpMethod::Get => "GET"@,
        HttpMethod::Post => "POST"@,
        HttpMethod::Put => "PUT"@,
        HttpMethod::Delete => "DELETE"@,
        HttpMethod::Patch => "PATCH"@,
        HttpMethod::Head => "HEAD"@,
    }
}

/// The name of a method, in lower case, as the host expects it.
pub open spec fn method_host_name(m: HttpMethod) -> Seq<char> {
    match m {
        HttpMethod::Get => "get"@,
        HttpMethod::Post => "post"@,
        HttpMethod::Put => "put"@,
        HttpMethod::Delete => "delete"@,
        HttpMethod::Patch => "patch"@,
        HttpMethod::Head => "head"@,
    }
}

/// A text with its ASCII capitals in lower case; other characters unchanged.
pub open spec fn ascii_lowercase(s: Seq<char>) -> Seq<char> {
    s.map_values(|c: char| if 'A' <= c <= 'Z' { ((c as int) + 32) as char } else { c })
}

/// The name the host is handed for a method is the method's own name in
/// lower case.
pub proof fn lemma_host_name_is_lowercase(m: HttpMethod)
    ensures
        method_host_name(m) == ascii_lowercase(method_name(m)),
{
    reveal_strlit("GET");
    reveal_strlit("POST");
    reveal_strlit("PUT");
    reveal_strlit("DELETE");
    reveal_strlit("PATCH");
    reveal_strlit("HEAD");
    reveal_strlit("get");
    reveal_strlit("post");
    reveal_strlit("put");
    reveal_strlit("delete");
    reveal_strlit("patch");
    reveal_strlit("head");
    assert(method_host_name(m) =~= ascii_lowercase(method_name(m)));
}

impl HttpMethod {
    /// The name of the method, in upper case (`GET`, `POST`, ...).
    pub fn as_str(&self) -> (s: &'static str)
        ensures
            s@ == method_name(*self),
    {
        match self {
            HttpMethod::Get => "GET",
            HttpMethod::Post => "POST",
            HttpMethod::Put => "PUT",
            HttpMethod::Delete => "DELETE",
            HttpMethod::Patch => "PATCH",
            HttpMethod::Head => "HEAD",
        }
    }

    /// The name of the method, in upper case, as a string.
    pub fn to_string(&self) -> (s: String)
        ensures
            s@ == method_name(*self),
    {
        self.as_str().to_owned()
    }

    /// The name of the method in lower case, as the host takes it.
    pub fn host_name(&self) -> (s: &'static str)
        ensures
            s@ == method_host_name(*self),
            s@ == ascii_lowercase(method_name(*self)),
    {
        proof {
            lemma_host_name_is_lowercase(*self);
        }
        match self {
            HttpMethod::Get => "get",
            HttpMethod::Post => "post",
            HttpMethod::Put => "put",
            HttpMethod::Delete => "delete",
            HttpMethod::Patch => "patch",
            HttpMethod::Head => "head",
        }
    }
}

/// The JSON values of `serde_json`.
#[verifier::external_type_specification]
#[verifier::external_body]
pub struct ExJsonValue(serde_json::Value);

/// The error type of `serde_json`.
#[verifier::external_type_specification]
#[verifier::external_body]
pub struct ExJsonError(serde_json::Error);

/// The text that `serde_json::to_string` writes for a JSON value: a function
/// of the value alone.
pub uninterp spec fn json_text(value: serde_json::Value) -> Seq<char>;

/// Calls `serde_json::to_string` on a JSON value. It succeeds: its source
/// writes into a `Vec`, which takes every write, and the `Serialize` of a
/// `Value` raises no error of its own (its map keys are strings, and
/// non-finite floats are written as `null`). The text is `json_text` of the
/// value.
#[verifier::external_body]
pub(crate) fn json_to_string(data: &serde_json::Value) -> (r: Result<String, serde_json::Error>)
    ensures
        r is Ok,
        r matches Ok(s) ==> s@ == json_text(*data),
{
    serde_json::to_string(data)
}

/// Whether `serde_json::from_slice` reads the bytes as one JSON value.
pub uninterp spec fn json_parses(bytes: Seq<u8>) -> bool;

/// The JSON value that `serde_json::from_slice` reads from bytes that hold one.
pub uninterp spec fn json_of(bytes: Seq<u8>) -> serde_json::Value;

/// Calls `serde_json::from_slice` for a JSON value: it succeeds exactly when
/// the bytes are one JSON value, and the value it reads is `json_of` the
/// bytes (both functions of the bytes alone).
#[verifier::external_body]
pub(crate) fn json_from_slice(bytes: &[u8]) -> (r: Result<serde_json::Value, serde_json::Error>)
    ensures
        r is Ok <==> json_parses(bytes@),
        r matches Ok(v) ==> v == json_of(bytes@),
{
    serde_json::from_slice(bytes)
}

/// What `serde_json::Value::get` finds under `name` in a value: the member
/// of that name of an object, nothing for anything else.
pub uninterp spec fn json_member(value: serde_json::Value, name: Seq<char>) -> Option<serde_json::Value>;

/// Calls `serde_json::Value::get` with a member name and copies what it finds.
#[verifier::external_body]
pub(crate) fn json_get(value: &serde_json::Value, name: &str) -> (r: Option<serde_json::Value>)
    ensures
        r == json_member(*value, name@),
{
    value.get(name).cloned()
}

/// What `serde_json::Value::as_str` gives: the text of a string value.
pub uninterp spec fn json_string(value: serde_json::Value) -> Option<Seq<char>>;

/// Calls `serde_json::Value::as_str` and copies the text.
#[verifier::external_body]
pub(crate) fn json_as_str(value: &serde_json::Value) -> (r: Option<String>)
    ensures
        match r {
            Some(s) => json_string(*value) == Some(s@),
            None => json_string(*value) is None,
        },
{
    value.as_str().map(String::from)
}

/// What `serde_json::Value::as_array` gives: the elements of an array value.
pub uninterp spec fn json_array(value: serde_json::Value) -> Option<Seq<serde_json::Value>>;

/// Calls `serde_json::Value::as_array` and copies the elements.
#[verifier::external_body]
pub(crate) fn json_as_array(value: &serde_json::Value) -> (r: Option<Vec<serde_json::Value>>)
    ensures
        match r {
            Some(v) => json_array(*value) == Some(v@),
            None => json_array(*value) is None,
        },
{
    value.as_array().cloned()
}

/// A portable HTTP request.
#[derive(Debug)]
pub struct HttpRequest {
    pub url: String,
    pub method: HttpMethod,
    pub headers: Vec<(String, String)>,
    pub body: Option<Vec<u8>>,
    pub timeout_secs: Option<u64>,
}

/// The timeout, in seconds, of a new request.
pub const DEFAULT_TIMEOUT_SECS: u64 = 30;

/// The views of a list of headers.
pub open spec fn headers_view(hs: Seq<(String, String)>) -> Seq<(Seq<char>, Seq<char>)> {
    hs.map_values(|h: (String, String)| (h.0@, h.1@))
}

impl HttpRequest {
    /// A request with `method` to `url`, without headers or body, with the
    /// default timeout.
    pub(crate) fn with_method(url: &str, method: HttpMethod) -> (r: Self)
        ensures
            r.url@ == url@,
            r.method == method,
            r.headers@.len() == 0,
            r.body is None,
            r.timeout_secs == Some(DEFAULT_TIMEOUT_SECS),
    {
        HttpRequest {
            url: url.to_owned(),
            method,
            headers: Vec::new(),
            body: None,
            timeout_secs: Some(DEFAULT_TIMEOUT_SECS),
        }
    }

    /// A GET request to `url`, with a 30 s timeout.
    pub fn get(url: &str) -> (r: Self)
        ensures
            r.url@ == url@,
            r.method == HttpMethod::Get,
            r.headers@.len() == 0,
            r.body is None,
            r.timeout_secs == Some(30u64),
    {
        Self::with_method(url, HttpMethod::Get)
    }

    /// A POST request to `url`, with a 30 s timeout.
    pub fn post(url: &str) -> (r: Self)
        ensures
            r.url@ == url@,
            r.method == HttpMethod::Post,
            r.headers@.len() == 0,
            r.body is None,
            r.timeout_secs == Some(30u64),
    {
        Self::with_method(url, HttpMethod::Post)
    }

    /// Appends the header `key: value`.
    pub fn header(self, key: &str, value: &str) -> (r: Self)
        ensures
            headers_view(r.headers@) == headers_view(self.headers@).push((key@, value@)),
            r.url == self.url,
            r.method == self.method,
            r.body == self.body,
            r.timeout_secs == self.timeout_secs,
    {
        let mut r = self;
        let ghost before = r.headers@;
        r.headers.push((key.to_owned(), value.to_owned()));
        assert(headers_view(r.headers@) =~= headers_view(before).push((key@, value@)));
        r
    }

    /// Sets the body.
    pub fn body(self, body: Vec<u8>) -> (r: Self)
        ensures
            r.body == Some(body),
            r.url == self.url,
            r.method == self.method,
            r.headers == self.headers,
            r.timeout_secs == self.timeout_secs,
    {
        HttpRequest { body: Some(body), ..self }
    }

    /// Sets a JSON body, the text of `data`, and appends the header
    /// `Content-Type: application/json`. Writing a JSON value never fails, so
    /// this succeeds.
    pub fn json_value(self, data: &serde_json::Value) -> (r: Result<Self, serde_json::Error>)
        ensures
            r is Ok,
            r matches Ok(req) ==> {
                &&& req.body matches Some(b) && b@ == encode_utf8(json_text(*data))
                &&& headers_view(req.headers@) == headers_view(self.headers@).push(
                    ("Content-Type"@, "application/json"@),
                )
                &&& req.url == self.url
                &&& req.method == self.method
                &&& req.timeout_secs == self.timeout_secs
            },
    {
        let text = match json_to_string(data) {
            Ok(t) => t,
            Err(e) => return Err(e),
        };
        let mut r = self;
        r.body = Some(text.as_str().as_bytes_vec());
        let ghost before = r.headers@;
        r.headers.push((String::from_str("Content-Type"), String::from_str("application/json")));
        assert(headers_view(r.headers@) =~= headers_view(before).push(("Content-Type"@, "application/json"@)));
        Ok(r)
    }

    /// Sets the timeout, in seconds.
    pub fn timeout(self, seconds: u64) -> (r: Self)
        ensures
            r.timeout_secs == Some(seconds),
            r.url == self.url,
            r.method == self.method,
            r.headers == self.headers,
            r.body == self.body,
    {
        HttpRequest { timeout_secs: Some(seconds), ..self }
    }
}

/// A portable HTTP response.
#[derive(Debug)]
pub struct HttpResponse {
    pub status: u16,
    pub headers: Vec<(String, String)>,
    pub body: Vec<u8>,
}

/// An ASCII letter in lower case; other bytes unchanged.
pub open spec fn ascii_lower(b: u8) -> u8 {
    if 65 <= b <= 90 {
        (b + 32) as u8
    } else {
        b
    }
}

/// The two byte strings are equal but for the case of ASCII letters.
pub open spec fn eq_ignoring_ascii_case(a: Seq<u8>, b: Seq<u8>) -> bool {
    &&& a.len() == b.len()
    &&& forall|i: int| 0 <= i < a.len() ==> ascii_lower(#[trigger] a[i]) == ascii_lower(b[i])
}

/// The position of the first header named `name`, case aside.
pub open spec fn first_header(hs: Seq<(String, String)>, name: Seq<u8>) -> Option<int>
    decreases hs.len(),
{
    if hs.len() == 0 {
        None
    } else if eq_ignoring_ascii_case(encode_utf8(hs[0].0@), name) {
        Some(0)
    } else {
        match first_header(hs.drop_first(), name) {
            Some(i) => Some(i + 1),
            None => None,
        }
    }
}

/// Lowers an ASCII letter.
fn lower(b: u8) -> (r: u8)
    ensures
        r == ascii_lower(b),
{
    if 65 <= b && b <= 90 {
        b + 32
    } else {
        b
    }
}

/// Compares two strings, ignoring the case of ASCII letters.
pub fn eq_ignore_ascii_case(a: &str, b: &str) -> (r: bool)
    ensures
        r == eq_ignoring_ascii_case(a.spec_bytes(), b.spec_bytes()),
{
    let x = a.as_bytes();
    let y = b.as_bytes();
    if x.len() != y.len() {
        return false;
    }
    let mut i: usize = 0;
    while i < x.len()
        invariant
            x@ == a.spec_bytes(),
            y@ == b.spec_bytes(),
            x@.len() == y@.len(),
            i <= x@.len(),
            forall|j: int| 0 <= j < i ==> ascii_lower(#[trigger] x@[j]) == ascii_lower(y@[j]),
        decreases x@.len() - i,
    {
        if lower(x[i]) != lower(y[i]) {
            return false;
        }
        i = i + 1;
    }
    true
}

/// The error of `core::str::from_utf8`.
#[verifier::external_type_specification]
#[verifier::external_body]
pub struct ExUtf8Error(core::str::Utf8Error);

/// Calls `core::str::from_utf8`, which accepts exactly the valid UTF-8 byte
/// strings and then returns them as a string slice.
#[verifier::external_body]
pub(crate) fn str_from_utf8(v: &[u8]) -> (r: Result<&str, core::str::Utf8Error>)
    ensures
        r is Ok <==> vstd::utf8::valid_utf8(v@),
        r matches Ok(s) ==> s.spec_bytes() == v@,
{
    core::str::from_utf8(v)
}

impl HttpResponse {
    /// Whether the status is a success (`2xx`).
    pub fn is_success(&self) -> (r: bool)
        ensures
            r == (200 <= self.status < 300),
    {
        self.status >= 200 && self.status < 300
    }

    /// The body as text, when it is valid UTF-8.
    pub fn text(&self) -> (r: Result<String, core::str::Utf8Error>)
        ensures
            r is Ok <==> vstd::utf8::valid_utf8(self.body@),
            r matches Ok(s) ==> encode_utf8(s@) == self.body@,
    {
        match str_from_utf8(self.body.as_slice()) {
            Ok(s) => Ok(s.to_owned()),
            Err(e) => Err(e),
        }
    }

    /// The body parsed as JSON.
    pub fn json_value(&self) -> (r: Result<serde_json::Value, serde_json::Error>)
        ensures
            r is Ok <==> json_parses(self.body@),
            r matches Ok(v) ==> v == json_of(self.body@),
    {
        json_from_slice(self.body.as_slice())
    }

    /// The value of the first header named `name`, ignoring the case of ASCII
    /// letters.
    pub fn header(&self, name: &str) -> (r: Option<&str>)
        ensures
            match first_header(self.headers@, name.spec_bytes()) {
                Some(i) => r matches Some(v) && v@ == self.headers@[i].1@,
                None => r is None,
            },
    {
        let mut i: usize = 0;
        while i < self.headers.len()
            invariant
                i <= self.headers@.len(),
                forall|j: int|
                    0 <= j < i ==> !eq_ignoring_ascii_case(
                        encode_utf8(#[trigger] self.headers@[j].0@),
                        name.spec_bytes(),
                    ),
            decreases self.headers@.len() - i,
        {
            if eq_ignore_ascii_case(self.headers[i].0.as_str(), name) {
                proof {
                    lemma_first_header_is(self.headers@, name.spec_bytes(), i as int);
                }
                return Some(self.headers[i].1.as_str());
            }
            i = i + 1;
        }
        proof {
            lemma_first_header_none(self.headers@, name.spec_bytes());
        }
        None
    }
}

proof fn lemma_first_header_is(hs: Seq<(String, String)>, name: Seq<u8>, i: int)
    requires
        0 <= i < hs.len(),
        eq_ignoring_ascii_case(encode_utf8(hs[i].0@), name),
        forall|j: int| 0 <= j < i ==> !eq_ignoring_ascii_case(encode_utf8(#[trigger] hs[j].0@), name),
    ensures
        first_header(hs, name) == Some(i),
    decreases i,
{
    if i > 0 {
        let rest = hs.drop_first();
        assert(!eq_ignoring_ascii_case(encode_utf8(hs[0].0@), name));
        assert forall|j: int| 0 <= j < i - 1 implies !eq_ignoring_ascii_case(
            encode_utf8(#[trigger] rest[j].0@),
            name,
        ) by {
            assert(rest[j] == hs[j + 1]);
        }
        assert(rest[i - 1] == hs[i]);
        lemma_first_header_is(rest, name, i - 1);
    }
}

proof fn lemma_first_header_none(hs: Seq<(String, String)>, name: Seq<u8>)
    requires
        forall|j: int|
            0 <= j < hs.len() ==> !eq_ignoring_ascii_case(encode_utf8(#[trigger] hs[j].0@), name),
    ensures
        first_header(hs, name) is None,
    decreases hs.len(),
{
    if hs.len() > 0 {
        let rest = hs.drop_first();
        assert(!eq_ignoring_ascii_case(encode_utf8(hs[0].0@), name));
        assert forall|j: int| 0 <= j < rest.len() implies !eq_ignoring_ascii_case(
            encode_utf8(#[trigger] rest[j].0@),
            name,
        ) by {
            assert(rest[j] == hs[j + 1]);
        }
        lemma_first_header_none(rest, name);
    }
}

/// HTTP errors.
#[derive(Debug)]
pub enum HttpError {
    /// Network error
    Network(String),
    /// Timeout error
    Timeout,
    /// Serialization error
    Serialization(String),
    /// Unsupported environment
    UnsupportedEnvironment,
    /// Invalid URL
    InvalidUrl,
    /// Invalid response
    InvalidResponse,
}

/// The message of an error.
pub open spec fn http_error_message(e: HttpError) -> Seq<char> {
    match e {
        HttpError::Network(m) => "Network error: "@ + m@,
        HttpError::Timeout => "Request timeout"@,
        HttpError::Serialization(m) => "Serialization error: "@ + m@,
        HttpError::UnsupportedEnvironment => "Unsupported environment"@,
        HttpError::InvalidUrl => "Invalid URL"@,
        HttpError::InvalidResponse => "Invalid response"@,
    }
}

impl HttpError {
    /// The message of the error.
    pub fn to_string(&self) -> (s: String)
        ensures
            s@ == http_error_message(*self),
    {
        match self {
            HttpError::Network(m) => String::from_str("Network error: ").concat(m.as_str()),
            HttpError::Timeout => String::from_str("Request timeout"),
            HttpError::Serialization(m) => String::from_str("Serialization error: ").concat(m.as_str()),
            HttpError::UnsupportedEnvironment => String::from_str("Unsupported environment"),
            HttpError::InvalidUrl => String::from_str("Invalid URL"),
            HttpError::InvalidResponse => String::from_str("Invalid response"),
        }
    }
}

/// Executes HTTP requests through the host of a controller.
pub struct HttpClient;

/// The body of the host's reply to a request.
pub enum ReplyBody {
    /// A JSON array: each element's value when it is an unsigned integer.
    Array(Vec<Option<u64>>),
    /// A JSON string.
    Text(String),
    /// Anything else.
    Other,
}

/// The host's reply to a request, as read from its JSON: the status when it
/// is an unsigned integer, each header with its value when that is a string,
/// and the body.
pub struct HostReply {
    pub status: Option<u64>,
    pub headers: Vec<(String, Option<String>)>,
    pub body: ReplyBody,
}

/// The byte of an array element: its value truncated to a byte, `0` when it
/// is not an unsigned integer.
pub open spec fn reply_byte(v: Option<u64>) -> u8 {
    match v {
        Some(n) => n as u8,
        None => 0,
    }
}

/// The value of a reply header: its string, or the empty string.
pub open spec fn reply_header_value(v: Option<String>) -> Seq<char> {
    match v {
        Some(s) => s@,
        None => Seq::empty(),
    }
}

/// The body bytes of a reply.
pub open spec fn reply_body(b: ReplyBody) -> Seq<u8> {
    match b {
        ReplyBody::Array(vs) => vs@.map_values(|v: Option<u64>| reply_byte(v)),
        ReplyBody::Text(s) => encode_utf8(s@),
        ReplyBody::Other => Seq::empty(),
    }
}

impl HttpClient {
    /// Turns the host's reply into a response; a reply without an unsigned
    /// integer status is invalid.
    pub fn response_from_reply(reply: HostReply) -> (r: Result<HttpResponse, HttpError>)
        ensures
            reply.status is None ==> r matches Err(HttpError::InvalidResponse),
            reply.status matches Some(st) ==> r matches Ok(resp) && resp.status == st as u16
                && headers_view(resp.headers@) == reply.headers@.map_values(
                |h: (String, Option<String>)| (h.0@, reply_header_value(h.1)),
            ) && resp.body@ == reply_body(reply.body),
    {
        let status = match reply.status {
            Some(st) => st as u16,
            None => return Err(HttpError::InvalidResponse),
        };
        let mut headers: Vec<(String, String)> = Vec::new();
        let mut i: usize = 0;
        let ghost want = reply.headers@.map_values(
            |h: (String, Option<String>)| (h.0@, reply_header_value(h.1)),
        );
        while i < reply.headers.len()
            invariant
                i <= reply.headers@.len(),
                headers@.len() == i,
                want == reply.headers@.map_values(
                    |h: (String, Option<String>)| (h.0@, reply_header_value(h.1)),
                ),
                forall|j: int| 0 <= j < i ==> #[trigger] headers_view(headers@)[j] == want[j],
            decreases reply.headers@.len() - i,
        {
            let key = reply.headers[i].0.clone();
            let value = match &reply.headers[i].1 {
                Some(v) => v.clone(),
                None => String::new(),
            };
            let ghost prev = headers@;
            headers.push((key, value));
            proof {
                assert forall|j: int| 0 <= j <= i implies #[trigger] headers_view(headers@)[j] == want[j] by {
                    if j < i {
                        assert(headers@[j] == prev[j]);
                        assert(headers_view(prev)[j] == want[j]);
                    }
                }
            }
            i = i + 1;
        }
        assert(headers_view(headers@) =~= want);
        let body = match &reply.body {
            ReplyBody::Array(vs) => {
                let mut out: Vec<u8> = Vec::new();
                let mut k: usize = 0;
                while k < vs.len()
                    invariant
                        k <= vs@.len(),
                        out@ == vs@.subrange(0, k as int).map_values(|v: Option<u64>| reply_byte(v)),
                    decreases vs@.len() - k,
                {
                    let b: u8 = match vs[k] {
                        Some(n) => n as u8,
                        None => 0,
                    };
                    out.push(b);
                    k = k + 1;
                    assert(out@ =~= vs@.subrange(0, k as int).map_values(|v: Option<u64>| reply_byte(v)));
                }
                assert(vs@.subrange(0, vs@.len() as int) =~= vs@);
                out
            },
            ReplyBody::Text(t) => t.as_str().as_bytes_vec(),
            ReplyBody::Other => Vec::new(),
        };
        Ok(HttpResponse { status, headers, body })
    }
}


/// A request as the host's HTTP function takes it: the URL, the method in
/// lower case, one value per header name and the body bytes.
pub struct HostRequest {
    pub url: String,
    pub method: String,
    pub headers: Vec<(String, String)>,
    pub body: Option<Vec<u8>>,
}

/// The value of the last header named `name`, if any.
pub open spec fn last_header_value(hs: Seq<(Seq<char>, Seq<char>)>, name: Seq<char>) -> Option<Seq<char>>
    decreases hs.len(),
{
    if hs.len() == 0 {
        None
    } else if hs.last().0 == name {
        Some(hs.last().1)
    } else {
        last_header_value(hs.drop_last(), name)
    }
}

/// `out` holds one header per name of `hs`, with the value of the last header
/// of that name in `hs`, as an object keyed by header names does.
pub open spec fn merged_headers(out: Seq<(Seq<char>, Seq<char>)>, hs: Seq<(Seq<char>, Seq<char>)>) -> bool {
    &&& forall|i: int, j: int| 0 <= i < j < out.len() ==> #[trigger] out[i].0 != #[trigger] out[j].0
    &&& forall|i: int| 0 <= i < out.len() ==> last_header_value(hs, #[trigger] out[i].0) == Some(out[i].1)
    &&& forall|name: Seq<char>|
        #[trigger] last_header_value(hs, name) is Some ==> exists|i: int| 0 <= i < out.len() && #[trigger] out[i].0 == name
}

/// The position of the header named exactly `name`, if any.
fn find_header(headers: &Vec<(String, String)>, name: &String) -> (r: Option<usize>)
    ensures
        r is None ==> forall|m: int| 0 <= m < headers@.len() ==> #[trigger] headers@[m].0@ != name@,
        r matches Some(j) ==> j < headers@.len() && headers@[j as int].0@ == name@,
{
    let mut j: usize = 0;
    while j < headers.len()
        invariant
            j <= headers@.len(),
            forall|m: int| 0 <= m < j ==> #[trigger] headers@[m].0@ != name@,
        decreases headers@.len() - j,
    {
        if headers[j].0 == *name {
            return Some(j);
        }
        j = j + 1;
    }
    None
}

impl HttpClient {
    /// The request that the host's HTTP function is handed for `request`: its
    /// URL, its method in lower case, its headers with the last value of each
    /// name, and its body.
    pub fn host_request(request: HttpRequest) -> (r: HostRequest)
        ensures
            r.url == request.url,
            r.method@ == method_host_name(request.method),
            r.method@ == ascii_lowercase(method_name(request.method)),
            merged_headers(headers_view(r.headers@), headers_view(request.headers@)),
            r.body == request.body,
    {
        let ghost hs = headers_view(request.headers@);
        let mut headers: Vec<(String, String)> = Vec::new();
        let mut i: usize = 0;
        while i < request.headers.len()
            invariant
                i <= request.headers@.len(),
                hs == headers_view(request.headers@),
                merged_headers(headers_view(headers@), hs.subrange(0, i as int)),
            decreases request.headers@.len() - i,
        {
            let name = request.headers[i].0.clone();
            let value = request.headers[i].1.clone();
            let ghost before = headers_view(headers@);
            let ghost prefix = hs.subrange(0, i as int);
            let ghost next = hs.subrange(0, i + 1);
            proof {
                assert(next.drop_last() =~= prefix);
                assert(next.last() == (name@, value@));
                assert forall|n: Seq<char>| #[trigger] last_header_value(next, n) == (if n == name@ {
                    Some(value@)
                } else {
                    last_header_value(prefix, n)
                }) by {}
            }
            match find_header(&headers, &name) {
                Some(j) => {
                    headers.set(j, (name, value));
                    proof {
                        let after = headers_view(headers@);
                        assert(after =~= before.update(j as int, (next.last().0, next.last().1)));
                        assert forall|k: int| 0 <= k < after.len() implies last_header_value(next, #[trigger] after[k].0)
                            == Some(after[k].1) by {
                            if k != j {
                                if k < j {
                                    assert(before[k].0 != before[j as int].0);
                                } else {
                                    assert(before[j as int].0 != before[k].0);
                                }
                            }
                        }
                        assert forall|n: Seq<char>| #[trigger] last_header_value(next, n) is Some implies exists|k: int|
                            0 <= k < after.len() && #[trigger] after[k].0 == n by {
                            if n != next.last().0 {
                                let k = choose|k: int| 0 <= k < before.len() && #[trigger] before[k].0 == n;
                                assert(after[k].0 == n);
                            } else {
                                assert(after[j as int].0 == n);
                            }
                        }
                        assert forall|a: int, b: int| 0 <= a < b < after.len() implies #[trigger] after[a].0 != #[trigger] after[b].0 by {
                            assert(before[a].0 != before[b].0);
                        }
                    }
                },
                None => {
                    headers.push((name, value));
                    proof {
                        let after = headers_view(headers@);
                        assert(after =~= before.push((next.last().0, next.last().1)));
                        assert forall|k: int| 0 <= k < after.len() implies last_header_value(next, #[trigger] after[k].0)
                            == Some(after[k].1) by {
                            if k < before.len() {
                                assert(headers@[k].0@ != name@);
                            }
                        }
                        assert forall|n: Seq<char>| #[trigger] last_header_value(next, n) is Some implies exists|k: int|
                            0 <= k < after.len() && #[trigger] after[k].0 == n by {
                            if n != next.last().0 {
                                let k = choose|k: int| 0 <= k < before.len() && #[trigger] before[k].0 == n;
                                assert(after[k].0 == n);
                            } else {
                                assert(after[before.len() as int].0 == n);
                            }
                        }
                        assert forall|a: int, b: int| 0 <= a < b < after.len() implies #[trigger] after[a].0 != #[trigger] after[b].0 by {
                            if b < before.len() {
                                assert(before[a].0 != before[b].0);
                            } else {
                                assert(headers@[a].0@ != next.last().0);
                            }
                        }
                    }
                },
            }
            i = i + 1;
        }
        assert(hs.subrange(0, request.headers@.len() as int) =~= hs);
        let method = String::from_str(request.method.host_name());
        HostRequest { url: request.url, method, headers, body: request.body }
    }
}

} // verus!
