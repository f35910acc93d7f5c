//! The commands of the portable HTTP client controller: which command its JSON
//! arguments ask for, the HTTP request or JSON-RPC call that each command
//! makes, and the data it answers with once the reply is in.
//!
//! The controller's host reads the arguments, executes the requests and writes
//! the answer; each of those steps hands plain values to the functions here.

use vstd::prelude::*;
use vstd::string::{StrSliceExecFns, StringExecFns};
use vstd::utf8::encode_utf8;

use crate::http::{
    headers_view, http_error_message, method_name, HttpError, HttpMethod, HttpRequest, HttpResponse,
};

verus! {

/// The commands of the client.
#[derive(Debug, Clone, Copy, PartialEq, Eq, Structural)]
pub enum ClientCommand {
    /// Ethereum `eth_getBlockByNumber`.
    GetBlock,
    /// Ethereum `eth_getBalance`.
    GetBalance,
    /// Ethereum `eth_getTransactionByHash`.
    GetTransaction,
    /// Ethereum `eth_call`.
    EthCall,
    /// Ethereum `eth_chainId`, to test a node.
    TestConnection,
    /// A generic GET request.
    HttpGet,
    /// A generic POST request.
    HttpPost,
    /// A REST call with any method.
    RestApi,
    /// The description of the commands.
    Help,
}

/// The command of each name.
pub open spec fn command_named(name: Seq<char>) -> Option<ClientCommand> {
    if name == "get_block"@ {
        Some(ClientCommand::GetBlock)
    } else if name == "get_balance"@ {
        Some(ClientCommand::GetBalance)
    } else if name == "get_transaction"@ {
        Some(ClientCommand::GetTransaction)
    } else if name == "eth_call"@ {
        Some(ClientCommand::EthCall)
    } else if name == "test_connection"@ {
        Some(ClientCommand::TestConnection)
    } else if name == "http_get"@ {
        Some(ClientCommand::HttpGet)
    } else if name == "http_post"@ {
        Some(ClientCommand::HttpPost)
    } else if name == "rest_api"@ {
        Some(ClientCommand::RestApi)
    } else if name == "help"@ {
        Some(ClientCommand::Help)
    } else {
        None
    }
}

impl ClientCommand {
    /// The command of a name, if any.
    pub fn from_name(name: &str) -> (c: Option<ClientCommand>)
        ensures
            c == command_named(name@),
    {
        let n = String::from_str(name);
        if n == String::from_str("get_block") {
            Some(ClientCommand::GetBlock)
        } else if n == String::from_str("get_balance") {
            Some(ClientCommand::GetBalance)
        } else if n == String::from_str("get_transaction") {
            Some(ClientCommand::GetTransaction)
        } else if n == String::from_str("eth_call") {
            Some(ClientCommand::EthCall)
        } else if n == String::from_str("test_connection") {
            Some(ClientCommand::TestConnection)
        } else if n == String::from_str("http_get") {
            Some(ClientCommand::HttpGet)
        } else if n == String::from_str("http_post") {
            Some(ClientCommand::HttpPost)
        } else if n == String::from_str("rest_api") {
            Some(ClientCommand::RestApi)
        } else if n == String::from_str("help") {
            Some(ClientCommand::Help)
        } else {
            None
        }
    }
}

/// A header value among the arguments.
#[derive(Debug)]
pub enum HeaderArg {
    /// A JSON string.
    Text(String),
    /// Another JSON value, with its debug rendering.
    Other(String),
}

/// What the commands read of their JSON arguments: each field's string when
/// it is a JSON string, the `headers` object's entries in its order, whether a
/// `body` field is there at all, and the `json` field's value.
#[derive(Debug)]
pub struct ClientArgs {
    pub command: Option<String>,
    pub url: Option<String>,
    pub method: Option<String>,
    pub headers: Option<Vec<(String, HeaderArg)>>,
    pub body: Option<String>,
    pub has_body: bool,
    pub json: Option<serde_json::Value>,
    pub node_url: Option<String>,
    pub block_number: Option<String>,
    pub address: Option<String>,
    pub tx_hash: Option<String>,
    pub to: Option<String>,
    pub data: Option<String>,
}

/// The error of a missing argument.
pub open spec fn missing(name: Seq<char>) -> Seq<char> {
    "Missing '"@ + name + "' parameter"@
}

/// The error of a missing argument.
fn missing_error(name: &str) -> (e: String)
    ensures
        e@ == missing(name@),
{
    String::from_str("Missing '").concat(name).concat("' parameter")
}

/// The command that the arguments ask for: `help` when none is named, an
/// error when the name is unknown.
pub open spec fn command_of(command: Option<String>) -> Result<ClientCommand, Seq<char>> {
    let name = match command {
        Some(s) => s@,
        None => "help"@,
    };
    match command_named(name) {
        Some(c) => Ok(c),
        None => Err("Unknown command: "@ + name),
    }
}

/// The command that the arguments ask for.
pub fn requested_command(args: &ClientArgs) -> (r: Result<ClientCommand, String>)
    ensures
        match command_of(args.command) {
            Ok(c) => r == Ok::<ClientCommand, String>(c),
            Err(m) => r matches Err(e) && e@ == m,
        },
{
    let name: &str = match &args.command {
        Some(s) => s.as_str(),
        None => "help",
    };
    match ClientCommand::from_name(name) {
        Some(c) => Ok(c),
        None => Err(String::from_str("Unknown command: ").concat(name)),
    }
}

/// The characters of a decimal digit.
pub open spec fn digit(d: nat) -> Seq<char> {
    if d == 0 {
        "0"@
    } else if d == 1 {
        "1"@
    } else if d == 2 {
        "2"@
    } else if d == 3 {
        "3"@
    } else if d == 4 {
        "4"@
    } else if d == 5 {
        "5"@
    } else if d == 6 {
        "6"@
    } else if d == 7 {
        "7"@
    } else if d == 8 {
        "8"@
    } else {
        "9"@
    }
}

/// A number written in decimal, without leading zeros.
pub open spec fn decimal(n: nat) -> Seq<char>
    decreases n,
{
    if n < 10 {
        digit(n)
    } else {
        decimal(n / 10) + digit(n % 10)
    }
}

/// An integer written in decimal, with a minus sign when it is negative.
pub open spec fn signed_decimal(n: int) -> Seq<char> {
    if n < 0 {
        "-"@ + decimal((-n) as nat)
    } else {
        decimal(n as nat)
    }
}

fn digit_str(d: u64) -> (s: &'static str)
    requires
        d < 10,
    ensures
        s@ == digit(d as nat),
{
    if d == 0 {
        "0"
    } else if d == 1 {
        "1"
    } else if d == 2 {
        "2"
    } else if d == 3 {
        "3"
    } else if d == 4 {
        "4"
    } else if d == 5 {
        "5"
    } else if d == 6 {
        "6"
    } else if d == 7 {
        "7"
    } else if d == 8 {
        "8"
    } else {
        "9"
    }
}

/// Writes a number in decimal.
pub fn decimal_string(n: u64) -> (s: String)
    ensures
        s@ == decimal(n as nat),
    decreases n,
{
    if n < 10 {
        String::from_str(digit_str(n))
    } else {
        let high = decimal_string(n / 10);
        high.concat(digit_str(n % 10))
    }
}

/// Writes an integer in decimal, with a minus sign when it is negative.
pub fn signed_decimal_string(n: i64) -> (s: String)
    ensures
        s@ == signed_decimal(n as int),
{
    if n < 0 {
        let magnitude: u64 = if n == i64::MIN {
            9223372036854775808u64
        } else {
            (-n) as u64
        };
        String::from_str("-").concat(decimal_string(magnitude).as_str())
    } else {
        decimal_string(n as u64)
    }
}

/// The error of the first header whose value is not a string, if any.
pub open spec fn header_error(hs: Seq<(String, HeaderArg)>) -> Option<Seq<char>>
    decreases hs.len(),
{
    if hs.len() == 0 {
        None
    } else {
        match hs[0].1 {
            HeaderArg::Other(shown) => Some(
                "Header value for key '"@ + hs[0].0@ + "' must be a string, got: "@ + shown@,
            ),
            HeaderArg::Text(_) => header_error(hs.drop_first()),
        }
    }
}

/// The headers as name and value, when every value is a string.
pub open spec fn header_pairs(hs: Seq<(String, HeaderArg)>) -> Seq<(Seq<char>, Seq<char>)> {
    hs.map_values(
        |h: (String, HeaderArg)|
            (
                h.0@,
                match h.1 {
                    HeaderArg::Text(v) => v@,
                    HeaderArg::Other(_) => Seq::empty(),
                },
            ),
    )
}

/// The error of the `headers` argument, if any.
pub open spec fn headers_error(hs: Option<Vec<(String, HeaderArg)>>) -> Option<Seq<char>> {
    match hs {
        Some(v) => header_error(v@),
        None => None,
    }
}

/// The headers that the `headers` argument adds.
pub open spec fn headers_added(hs: Option<Vec<(String, HeaderArg)>>) -> Seq<(Seq<char>, Seq<char>)> {
    match hs {
        Some(v) => header_pairs(v@),
        None => Seq::empty(),
    }
}

proof fn lemma_header_error_step(hs: Seq<(String, HeaderArg)>, i: int)
    requires
        0 <= i < hs.len(),
        header_error(hs.subrange(0, i)) is None,
        hs[i].1 is Text,
    ensures
        header_error(hs.subrange(0, i + 1)) is None,
    decreases i,
{
    if i > 0 {
        let a = hs.subrange(0, i);
        let b = hs.subrange(0, i + 1);
        assert(a[0] == hs[0]);
        assert(b[0] == hs[0]);
        assert(a.drop_first() =~= hs.drop_first().subrange(0, i - 1));
        assert(b.drop_first() =~= hs.drop_first().subrange(0, i));
        assert(hs.drop_first()[i - 1] == hs[i]);
        lemma_header_error_step(hs.drop_first(), i - 1);
    } else {
        let b = hs.subrange(0, 1);
        assert(b[0] == hs[0]);
        assert(b.drop_first() =~= Seq::<(String, HeaderArg)>::empty());
        assert(header_error(b.drop_first()) is None);
    }
}

proof fn lemma_header_error_found(hs: Seq<(String, HeaderArg)>, i: int)
    requires
        0 <= i < hs.len(),
        header_error(hs.subrange(0, i)) is None,
        hs[i].1 is Other,
    ensures
        header_error(hs) == Some(
            "Header value for key '"@ + hs[i].0@ + "' must be a string, got: "@ + hs[i].1->Other_0@,
        ),
    decreases i,
{
    if i > 0 {
        let a = hs.subrange(0, i);
        assert(a[0] == hs[0]);
        assert(a.drop_first() =~= hs.drop_first().subrange(0, i - 1));
        assert(hs.drop_first()[i - 1] == hs[i]);
        lemma_header_error_found(hs.drop_first(), i - 1);
    }
}

/// Appends the `headers` argument to a request: every header in order, or the
/// error of the first one whose value is not a string.
fn add_headers(request: HttpRequest, headers: &Option<Vec<(String, HeaderArg)>>) -> (r: Result<
    HttpRequest,
    String,
>)
    ensures
        match headers_error(*headers) {
            Some(m) => r matches Err(e) && e@ == m,
            None => r matches Ok(req) && headers_view(req.headers@) == headers_view(request.headers@)
                + headers_added(*headers) && req.url == request.url && req.method == request.method
                && req.body == request.body && req.timeout_secs == request.timeout_secs,
        },
{
    let hs = match headers {
        Some(hs) => hs,
        None => {
            assert(headers_view(request.headers@) + Seq::<(Seq<char>, Seq<char>)>::empty()
                =~= headers_view(request.headers@));
            return Ok(request);
        },
    };
    let mut req = request;
    let mut i: usize = 0;
    while i < hs.len()
        invariant
            headers_error(*headers) == header_error(hs@),
            headers_added(*headers) == header_pairs(hs@),
            i <= hs@.len(),
            header_error(hs@.subrange(0, i as int)) is None,
            headers_view(req.headers@) == headers_view(request.headers@) + header_pairs(
                hs@.subrange(0, i as int),
            ),
            req.url == request.url,
            req.method == request.method,
            req.body == request.body,
            req.timeout_secs == request.timeout_secs,
        decreases hs@.len() - i,
    {
        match &hs[i].1 {
            HeaderArg::Text(v) => {
                proof {
                    lemma_header_error_step(hs@, i as int);
                    assert(header_pairs(hs@.subrange(0, i as int + 1)) =~= header_pairs(
                        hs@.subrange(0, i as int),
                    ).push((hs@[i as int].0@, v@)));
                }
                req = req.header(hs[i].0.as_str(), v.as_str());
                proof {
                    assert(headers_view(request.headers@) + header_pairs(
                        hs@.subrange(0, i as int),
                    ).push((hs@[i as int].0@, v@)) =~= (headers_view(request.headers@)
                        + header_pairs(hs@.subrange(0, i as int))).push((hs@[i as int].0@, v@)));
                }
            },
            HeaderArg::Other(shown) => {
                proof {
                    assert(hs@[i as int].1 == HeaderArg::Other(*shown));
                    lemma_header_error_found(hs@, i as int);
                }
                let e = String::from_str("Header value for key '").concat(hs[i].0.as_str()).concat(
                    "' must be a string, got: ",
                ).concat(shown.as_str());
                return Err(e);
            },
        }
        i = i + 1;
    }
    assert(hs@.subrange(0, hs@.len() as int) =~= hs@);
    Ok(req)
}

/// What `str::to_uppercase` returns for a string: its Unicode upper case.
pub uninterp spec fn uppercase(s: Seq<char>) -> Seq<char>;

/// Calls `str::to_uppercase`; its result is named by `uppercase`.
#[verifier::external_body]
fn to_uppercase(s: &str) -> (r: String)
    ensures
        r@ == uppercase(s@),
{
    s.to_uppercase()
}

/// Calls the `Display` of a `serde_json` error; nothing is stated of the text.
#[verifier::external_body]
pub(crate) fn json_error_text(e: &serde_json::Error) -> String {
    format!("{}", e)
}

/// The request timeout, in seconds, of the requests built here.
pub open spec fn default_timeout() -> Option<u64> {
    Some(30u64)
}

/// `req` goes to `url` with `method`, the given headers and body, and the
/// default timeout.
pub open spec fn is_request(
    req: HttpRequest,
    method: HttpMethod,
    url: Seq<char>,
    headers: Seq<(Seq<char>, Seq<char>)>,
    body: Option<Seq<u8>>,
) -> bool {
    &&& req.url@ == url
    &&& req.method == method
    &&& headers_view(req.headers@) == headers
    &&& match body {
        Some(b) => req.body matches Some(v) && v@ == b,
        None => req.body is None,
    }
    &&& req.timeout_secs == default_timeout()
}

/// The error of a JSON body that could not be written.
pub open spec fn is_json_body_error(e: Seq<char>) -> bool {
    starts_with(e, "Failed to serialize JSON body: "@)
}

/// The request with a body, when the arguments give one: the `body` string,
/// else the `json` value written as JSON with a JSON content type, else none.
pub open spec fn body_request(
    r: Result<HttpRequest, String>,
    method: HttpMethod,
    url: Seq<char>,
    headers: Seq<(Seq<char>, Seq<char>)>,
    body: Option<String>,
    json: Option<serde_json::Value>,
) -> bool {
    match body {
        Some(b) => r matches Ok(req) && is_request(req, method, url, headers, Some(encode_utf8(b@))),
        None => match json {
            None => r matches Ok(req) && is_request(req, method, url, headers, None),
            Some(j) => match r {
                Ok(req) => {
                    &&& req.url@ == url
                    &&& req.method == method
                    &&& headers_view(req.headers@) == headers.push(
                        ("Content-Type"@, "application/json"@),
                    )
                    &&& req.body matches Some(b) && b@ == encode_utf8(crate::http::json_text(j))
                    &&& req.timeout_secs == default_timeout()
                },
                Err(e) => is_json_body_error(e@),
            },
        },
    }
}

/// Sets the body that the arguments give, if any.
fn add_body(request: HttpRequest, body: &Option<String>, json: &Option<serde_json::Value>) -> (r:
    Result<HttpRequest, String>)
    requires
        request.timeout_secs == default_timeout(),
        request.body is None,
    ensures
        body_request(
            r,
            request.method,
            request.url@,
            headers_view(request.headers@),
            *body,
            *json,
        ),
{
    match body {
        Some(b) => Ok(request.body(b.as_str().as_bytes_vec())),
        None => match json {
            None => Ok(request),
            Some(v) => match request.json_value(v) {
                Ok(req) => Ok(req),
                Err(e) => {
                    let text = json_error_text(&e);
                    let m = String::from_str("Failed to serialize JSON body: ").concat(text.as_str());
                    proof {
                        let p = "Failed to serialize JSON body: "@;
                        assert(m@.subrange(0, p.len() as int) =~= p);
                    }
                    Err(m)
                },
            },
        },
    }
}

/// The GET request of `http_get`.
pub open spec fn get_request_spec(args: ClientArgs, r: Result<HttpRequest, String>) -> bool {
    match args.url {
        None => r matches Err(e) && e@ == missing("url"@),
        Some(url) => match headers_error(args.headers) {
            Some(m) => r matches Err(e) && e@ == m,
            None => r matches Ok(req) && is_request(
                req,
                HttpMethod::Get,
                url@,
                headers_added(args.headers),
                None,
            ),
        },
    }
}

/// The POST request of `http_post`.
pub open spec fn post_request_spec(args: ClientArgs, r: Result<HttpRequest, String>) -> bool {
    match args.url {
        None => r matches Err(e) && e@ == missing("url"@),
        Some(url) => match headers_error(args.headers) {
            Some(m) => r matches Err(e) && e@ == m,
            None => body_request(
                r,
                HttpMethod::Post,
                url@,
                headers_added(args.headers),
                args.body,
                args.json,
            ),
        },
    }
}

/// The method of an upper-case name that a REST call accepts.
pub open spec fn rest_method_named(upper: Seq<char>) -> Option<HttpMethod> {
    if upper == "GET"@ {
        Some(HttpMethod::Get)
    } else if upper == "POST"@ {
        Some(HttpMethod::Post)
    } else if upper == "PUT"@ {
        Some(HttpMethod::Put)
    } else if upper == "DELETE"@ {
        Some(HttpMethod::Delete)
    } else if upper == "PATCH"@ {
        Some(HttpMethod::Patch)
    } else if upper == "HEAD"@ {
        Some(HttpMethod::Head)
    } else {
        None
    }
}

/// A REST call names its method exactly: the method chosen for a name is the
/// method of that name, and every method is chosen for its own name.
pub proof fn lemma_rest_method_names(upper: Seq<char>)
    ensures
        rest_method_named(upper) matches Some(m) ==> method_name(m) == upper,
        forall|m: HttpMethod| method_name(m) == upper ==> rest_method_named(upper) == Some(m),
{
    reveal_strlit("GET");
    reveal_strlit("POST");
    reveal_strlit("PUT");
    reveal_strlit("DELETE");
    reveal_strlit("PATCH");
    reveal_strlit("HEAD");
    assert forall|m: HttpMethod| method_name(m) == upper implies rest_method_named(upper) == Some(m) by {
        assert("GET"@[0] != "POST"@[0] && "GET"@[0] != "PUT"@[0] && "GET"@[0] != "DELETE"@[0]);
        assert("GET"@[0] != "PATCH"@[0] && "GET"@[0] != "HEAD"@[0]);
        assert("POST"@[1] != "PUT"@[1] && "POST"@[0] != "DELETE"@[0] && "POST"@[1] != "PATCH"@[1]);
        assert("POST"@[0] != "HEAD"@[0] && "PUT"@[0] != "DELETE"@[0] && "PUT"@[1] != "PATCH"@[1]);
        assert("PUT"@[0] != "HEAD"@[0] && "DELETE"@[0] != "PATCH"@[0] && "DELETE"@[0] != "HEAD"@[0]);
        assert("PATCH"@[0] != "HEAD"@[0]);
    }
}

/// The methods whose requests carry a body.
pub open spec fn takes_body(m: HttpMethod) -> bool {
    m == HttpMethod::Post || m == HttpMethod::Put || m == HttpMethod::Patch
}

/// The method name of a REST call: the `method` argument, `GET` by default.
pub open spec fn rest_method_arg(args: ClientArgs) -> Seq<char> {
    match args.method {
        Some(m) => m@,
        None => "GET"@,
    }
}

/// The request of `rest_api`.
pub open spec fn rest_request_spec(args: ClientArgs, r: Result<HttpRequest, String>) -> bool {
    let name = rest_method_arg(args);
    let upper = uppercase(name);
    match args.url {
        None => r matches Err(e) && e@ == missing("url"@),
        Some(url) => match rest_method_named(upper) {
            None => r matches Err(e) && e@ == "Unsupported HTTP method: "@ + name
                + ". Supported methods: GET, POST, PUT, DELETE, PATCH, HEAD"@,
            Some(m) => match headers_error(args.headers) {
                Some(msg) => r matches Err(e) && e@ == msg,
                None => if takes_body(m) {
                    body_request(r, m, url@, headers_added(args.headers), args.body, args.json)
                } else if args.has_body || args.json is Some {
                    r matches Err(e) && e@ == upper + " method does not support request body"@
                } else {
                    r matches Ok(req) && is_request(req, m, url@, headers_added(args.headers), None)
                },
            },
        },
    }
}

/// The method that a REST call takes for an upper-case method name.
pub fn rest_method(upper: &str) -> (m: Option<HttpMethod>)
    ensures
        m == rest_method_named(upper@),
        m matches Some(x) ==> method_name(x) == upper@,
        forall|x: HttpMethod| method_name(x) == upper@ ==> m == Some(x),
{
    proof {
        lemma_rest_method_names(upper@);
    }
    let u = String::from_str(upper);
    if u == String::from_str("GET") {
        Some(HttpMethod::Get)
    } else if u == String::from_str("POST") {
        Some(HttpMethod::Post)
    } else if u == String::from_str("PUT") {
        Some(HttpMethod::Put)
    } else if u == String::from_str("DELETE") {
        Some(HttpMethod::Delete)
    } else if u == String::from_str("PATCH") {
        Some(HttpMethod::Patch)
    } else if u == String::from_str("HEAD") {
        Some(HttpMethod::Head)
    } else {
        None
    }
}

/// The GET request of `http_get`.
fn http_get_request(args: &ClientArgs) -> (r: Result<HttpRequest, String>)
    ensures
        get_request_spec(*args, r),
{
    let url = match &args.url {
        Some(u) => u,
        None => return Err(missing_error("url")),
    };
    let request = HttpRequest::get(url.as_str());
    assert(headers_view(request.headers@) =~= Seq::<(Seq<char>, Seq<char>)>::empty());
    let r = add_headers(request, &args.headers);
    proof {
        if r is Ok {
            assert(Seq::<(Seq<char>, Seq<char>)>::empty() + headers_added(args.headers)
                =~= headers_added(args.headers));
        }
    }
    r
}

/// The POST request of `http_post`.
fn http_post_request(args: &ClientArgs) -> (r: Result<HttpRequest, String>)
    ensures
        post_request_spec(*args, r),
{
    let url = match &args.url {
        Some(u) => u,
        None => return Err(missing_error("url")),
    };
    let request = HttpRequest::post(url.as_str());
    assert(headers_view(request.headers@) =~= Seq::<(Seq<char>, Seq<char>)>::empty());
    let request = match add_headers(request, &args.headers) {
        Ok(req) => req,
        Err(e) => return Err(e),
    };
    assert(Seq::<(Seq<char>, Seq<char>)>::empty() + headers_added(args.headers) =~= headers_added(
        args.headers,
    ));
    add_body(request, &args.body, &args.json)
}

/// The request of `rest_api`.
fn rest_api_request(args: &ClientArgs) -> (r: Result<HttpRequest, String>)
    ensures
        rest_request_spec(*args, r),
{
    let url = match &args.url {
        Some(u) => u,
        None => return Err(missing_error("url")),
    };
    let name: &str = match &args.method {
        Some(m) => m.as_str(),
        None => "GET",
    };
    let upper = to_uppercase(name);
    let method = match rest_method(upper.as_str()) {
        Some(m) => m,
        None => {
            return Err(
                String::from_str("Unsupported HTTP method: ").concat(name).concat(
                    ". Supported methods: GET, POST, PUT, DELETE, PATCH, HEAD",
                ),
            )
        },
    };
    let request = HttpRequest::with_method(url.as_str(), method);
    assert(headers_view(request.headers@) =~= Seq::<(Seq<char>, Seq<char>)>::empty());
    let request = match add_headers(request, &args.headers) {
        Ok(req) => req,
        Err(e) => return Err(e),
    };
    assert(Seq::<(Seq<char>, Seq<char>)>::empty() + headers_added(args.headers) =~= headers_added(
        args.headers,
    ));
    match method {
        HttpMethod::Post | HttpMethod::Put | HttpMethod::Patch => add_body(
            request,
            &args.body,
            &args.json,
        ),
        _ => {
            if args.has_body || args.json.is_some() {
                Err(upper.concat(" method does not support request body"))
            } else {
                Ok(request)
            }
        },
    }
}

/// The data that a command answers with.
#[derive(Debug)]
pub enum Reply {
    /// The response of `http_get` or `http_post`: status, headers and text.
    Http { status: u16, headers: Vec<(String, String)>, body: String },
    /// The JSON body of a REST call.
    Json(serde_json::Value),
    /// The text body of a REST call whose body is not JSON.
    Text(String),
    /// The result of a node call, as the node gave it (none stands for
    /// `null`).
    RpcResult(Option<serde_json::Value>),
    /// The balance of an account at a block.
    Balance { address: String, balance: Option<serde_json::Value>, block: String },
    /// The result of a contract call at a block.
    Call { to: String, data: String, result: Option<serde_json::Value>, block: String },
    /// The chain of a node that answered.
    Connection { node_url: String, chain_id: Option<serde_json::Value>, connection_status: String },
    /// The description of the commands.
    Help(Help),
}

/// The invalid UTF-8 error of a response body.
pub open spec fn invalid_utf8() -> Seq<char> {
    "Response body contains invalid UTF-8"@
}

/// The answer of `http_get` and `http_post` to the outcome of their request.
pub open spec fn http_reply_spec(outcome: Result<HttpResponse, HttpError>, r: Result<Reply, String>) -> bool {
    match outcome {
        Err(e) => r matches Err(m) && m@ == "HTTP request failed: "@ + http_error_message(e),
        Ok(resp) => if vstd::utf8::valid_utf8(resp.body@) {
            r matches Ok(Reply::Http { status, headers, body }) && status == resp.status && headers
                == resp.headers && encode_utf8(body@) == resp.body@
        } else {
            r matches Err(m) && m@ == invalid_utf8()
        },
    }
}

/// The answer of `rest_api` to the outcome of its request.
pub open spec fn rest_reply_spec(outcome: Result<HttpResponse, HttpError>, r: Result<Reply, String>) -> bool {
    match outcome {
        Err(e) => r matches Err(m) && m@ == "REST API call failed: "@ + http_error_message(e),
        Ok(resp) => if !(200 <= resp.status < 300) {
            r matches Err(m) && m@ == "API call failed with status: "@ + decimal(resp.status as nat)
        } else if crate::http::json_parses(resp.body@) {
            r == Ok::<Reply, String>(Reply::Json(crate::http::json_of(resp.body@)))
        } else if vstd::utf8::valid_utf8(resp.body@) {
            r matches Ok(Reply::Text(t)) && encode_utf8(t@) == resp.body@
        } else {
            r matches Err(m) && m@ == invalid_utf8()
        },
    }
}

/// The answer of `http_get` and `http_post` to the outcome of their request:
/// the status, headers and text of the response.
pub fn http_reply(outcome: Result<HttpResponse, HttpError>) -> (r: Result<Reply, String>)
    ensures
        http_reply_spec(outcome, r),
{
    match outcome {
        Err(e) => Err(String::from_str("HTTP request failed: ").concat(e.to_string().as_str())),
        Ok(resp) => match resp.text() {
            Ok(body) => Ok(Reply::Http { status: resp.status, headers: resp.headers, body }),
            Err(_) => Err(String::from_str("Response body contains invalid UTF-8")),
        },
    }
}

/// The answer of `rest_api` to the outcome of its request: the body as JSON,
/// else as text, when the status is a success.
pub fn rest_api_reply(outcome: Result<HttpResponse, HttpError>) -> (r: Result<Reply, String>)
    ensures
        rest_reply_spec(outcome, r),
{
    match outcome {
        Err(e) => Err(String::from_str("REST API call failed: ").concat(e.to_string().as_str())),
        Ok(resp) => {
            if !resp.is_success() {
                return Err(
                    String::from_str("API call failed with status: ").concat(
                        decimal_string(resp.status as u64).as_str(),
                    ),
                );
            }
            let parsed = resp.json_value();
            rest_api_body(resp, parsed)
        },
    }
}

/// The answer of `rest_api` to a successful response, given what reading its
/// body as JSON gave: that JSON, else the body as text.
pub fn rest_api_body(resp: HttpResponse, parsed: Result<serde_json::Value, serde_json::Error>) -> (r:
    Result<Reply, String>)
    ensures
        match parsed {
            Ok(v) => r == Ok::<Reply, String>(Reply::Json(v)),
            Err(_) => if vstd::utf8::valid_utf8(resp.body@) {
                r matches Ok(Reply::Text(t)) && encode_utf8(t@) == resp.body@
            } else {
                r matches Err(m) && m@ == invalid_utf8()
            },
        },
{
    match parsed {
        Ok(v) => Ok(Reply::Json(v)),
        Err(_) => match resp.text() {
            Ok(t) => Ok(Reply::Text(t)),
            Err(_) => Err(String::from_str("Response body contains invalid UTF-8")),
        },
    }
}

/// The answer of a command that sent an HTTP request, to its outcome.
pub fn after_send(command: ClientCommand, outcome: Result<HttpResponse, HttpError>) -> (r: Result<
    Reply,
    String,
>)
    ensures
        command == ClientCommand::RestApi ==> rest_reply_spec(outcome, r),
        command != ClientCommand::RestApi ==> http_reply_spec(outcome, r),
{
    match command {
        ClientCommand::RestApi => rest_api_reply(outcome),
        _ => http_reply(outcome),
    }
}

/// A parameter of a JSON-RPC call.
#[derive(Debug)]
pub enum RpcParam {
    /// A JSON string.
    Text(String),
    /// A JSON boolean.
    Flag(bool),
    /// The object `{"to": .., "data": ..}` of a contract call.
    CallObject { to: String, data: String },
}

/// A JSON-RPC request.
#[derive(Debug)]
pub struct JsonRpcRequest {
    pub jsonrpc: String,
    pub method: String,
    pub params: Vec<RpcParam>,
    pub id: u64,
}

/// A JSON-RPC error.
#[derive(Debug)]
pub struct JsonRpcError {
    pub code: i64,
    pub message: String,
    pub data: Option<serde_json::Value>,
}

/// A JSON-RPC response.
#[derive(Debug)]
pub struct JsonRpcResponse {
    pub jsonrpc: String,
    pub result: Option<serde_json::Value>,
    pub error: Option<JsonRpcError>,
    pub id: u64,
}

/// What a node is asked.
#[derive(Debug)]
pub enum RpcQuery {
    /// A block, by number or `latest`.
    Block { block: String },
    /// The balance of an address at a block.
    Balance { address: String, block: String },
    /// A transaction, by hash.
    Transaction { tx_hash: String },
    /// A contract call at a block.
    Call { to: String, data: String, block: String },
    /// The chain id.
    ChainId,
}

/// A question to the node at `node_url`.
#[derive(Debug)]
pub struct RpcCall {
    pub node_url: String,
    pub query: RpcQuery,
}

/// The block argument: `latest` by default.
pub open spec fn block_arg(args: ClientArgs) -> Seq<char> {
    match args.block_number {
        Some(b) => b@,
        None => "latest"@,
    }
}

/// The node call of an Ethereum command.
pub open spec fn rpc_call_spec(c: ClientCommand, args: ClientArgs, r: Result<RpcCall, String>) -> bool {
    match args.node_url {
        None => r matches Err(e) && e@ == missing("node_url"@),
        Some(node) => match c {
            ClientCommand::GetBlock => match r {
                Ok(call) => call.node_url@ == node@ && match call.query {
                    RpcQuery::Block { block } => block@ == block_arg(args),
                    _ => false,
                },
                Err(_) => false,
            },
            ClientCommand::GetBalance => match args.address {
                None => r matches Err(e) && e@ == missing("address"@),
                Some(a) => match r {
                    Ok(call) => call.node_url@ == node@ && match call.query {
                        RpcQuery::Balance { address, block } => address@ == a@ && block@
                            == block_arg(args),
                        _ => false,
                    },
                    Err(_) => false,
                },
            },
            ClientCommand::GetTransaction => match args.tx_hash {
                None => r matches Err(e) && e@ == missing("tx_hash"@),
                Some(h) => match r {
                    Ok(call) => call.node_url@ == node@ && match call.query {
                        RpcQuery::Transaction { tx_hash } => tx_hash@ == h@,
                        _ => false,
                    },
                    Err(_) => false,
                },
            },
            ClientCommand::EthCall => match (args.to, args.data) {
                (None, _) => r matches Err(e) && e@ == missing("to"@),
                (Some(_), None) => r matches Err(e) && e@ == missing("data"@),
                (Some(t), Some(d)) => match r {
                    Ok(call) => call.node_url@ == node@ && match call.query {
                        RpcQuery::Call { to, data, block } => to@ == t@ && data@ == d@ && block@
                            == block_arg(args),
                        _ => false,
                    },
                    Err(_) => false,
                },
            },
            _ => r matches Ok(call) && call.node_url@ == node@ && call.query is ChainId,
        },
    }
}

fn arg_or(a: &Option<String>, default: &str) -> (s: String)
    ensures
        s@ == match a {
            Some(v) => v@,
            None => default@,
        },
{
    match a {
        Some(v) => v.clone(),
        None => String::from_str(default),
    }
}

/// The node call of an Ethereum command (`get_block`, `get_balance`,
/// `get_transaction`, `eth_call`; any other asks for the chain id).
fn rpc_call(c: ClientCommand, args: &ClientArgs) -> (r: Result<RpcCall, String>)
    ensures
        rpc_call_spec(c, *args, r),
{
    let node_url = match &args.node_url {
        Some(n) => n.clone(),
        None => return Err(missing_error("node_url")),
    };
    let query = match c {
        ClientCommand::GetBlock => RpcQuery::Block { block: arg_or(&args.block_number, "latest") },
        ClientCommand::GetBalance => {
            let address = match &args.address {
                Some(a) => a.clone(),
                None => return Err(missing_error("address")),
            };
            RpcQuery::Balance { address, block: arg_or(&args.block_number, "latest") }
        },
        ClientCommand::GetTransaction => match &args.tx_hash {
            Some(h) => RpcQuery::Transaction { tx_hash: h.clone() },
            None => return Err(missing_error("tx_hash")),
        },
        ClientCommand::EthCall => {
            let to = match &args.to {
                Some(t) => t.clone(),
                None => return Err(missing_error("to")),
            };
            let data = match &args.data {
                Some(d) => d.clone(),
                None => return Err(missing_error("data")),
            };
            RpcQuery::Call { to, data, block: arg_or(&args.block_number, "latest") }
        },
        _ => RpcQuery::ChainId,
    };
    Ok(RpcCall { node_url, query })
}

/// The JSON-RPC method of a query.
pub open spec fn rpc_method(q: RpcQuery) -> Seq<char> {
    match q {
        RpcQuery::Block { .. } => "eth_getBlockByNumber"@,
        RpcQuery::Balance { .. } => "eth_getBalance"@,
        RpcQuery::Transaction { .. } => "eth_getTransactionByHash"@,
        RpcQuery::Call { .. } => "eth_call"@,
        RpcQuery::ChainId => "eth_chainId"@,
    }
}

/// The text of a string parameter.
pub open spec fn text_param(p: RpcParam) -> Option<Seq<char>> {
    match p {
        RpcParam::Text(t) => Some(t@),
        _ => None,
    }
}

/// The parameters of a query.
pub open spec fn rpc_params_match(q: RpcQuery, ps: Seq<RpcParam>) -> bool {
    match q {
        RpcQuery::Block { block } => {
            &&& ps.len() == 2
            &&& text_param(ps[0]) == Some(block@)
            &&& ps[1] == RpcParam::Flag(false)
        },
        RpcQuery::Balance { address, block } => {
            &&& ps.len() == 2
            &&& text_param(ps[0]) == Some(address@)
            &&& text_param(ps[1]) == Some(block@)
        },
        RpcQuery::Transaction { tx_hash } => {
            &&& ps.len() == 1
            &&& text_param(ps[0]) == Some(tx_hash@)
        },
        RpcQuery::Call { to, data, block } => {
            &&& ps.len() == 2
            &&& match ps[0] {
                RpcParam::CallObject { to: t, data: d } => t@ == to@ && d@ == data@,
                _ => false,
            }
            &&& text_param(ps[1]) == Some(block@)
        },
        RpcQuery::ChainId => ps.len() == 0,
    }
}

/// The Ethereum JSON-RPC order of parameters: what a query is about (the
/// address, the transaction hash or the call object) comes first and the
/// block it is asked at comes last; `eth_getBlockByNumber` takes the block
/// first and `false` (transaction hashes only) after it.
pub proof fn lemma_rpc_params_order(q: RpcQuery, ps: Seq<RpcParam>)
    requires
        rpc_params_match(q, ps),
    ensures
        q matches RpcQuery::Block { block } ==> ps.len() == 2
            && (ps[0] matches RpcParam::Text(b) && b@ == block@)
            && ps[1] == RpcParam::Flag(false),
        q matches RpcQuery::Balance { address, block } ==> ps.len() == 2
            && (ps[0] matches RpcParam::Text(a) && a@ == address@)
            && (ps[1] matches RpcParam::Text(b) && b@ == block@),
        q matches RpcQuery::Transaction { tx_hash } ==> ps.len() == 1
            && (ps[0] matches RpcParam::Text(h) && h@ == tx_hash@),
        q matches RpcQuery::Call { to, data, block } ==> ps.len() == 2
            && (ps[0] matches RpcParam::CallObject { to: t, data: d } && t@ == to@ && d@ == data@)
            && (ps[1] matches RpcParam::Text(b) && b@ == block@),
        q is ChainId ==> ps.len() == 0,
{
}

impl RpcCall {
    /// The JSON-RPC request of the call: version `2.0`, id `1`.
    pub fn request(&self) -> (r: JsonRpcRequest)
        ensures
            r.jsonrpc@ == "2.0"@,
            r.id == 1,
            r.method@ == rpc_method(self.query),
            rpc_params_match(self.query, r.params@),
            self.query matches RpcQuery::Block { block } ==> r.params@.len() == 2
                && (r.params@[0] matches RpcParam::Text(b) && b@ == block@)
                && r.params@[1] == RpcParam::Flag(false),
            self.query matches RpcQuery::Balance { address, block } ==> r.params@.len() == 2
                && (r.params@[0] matches RpcParam::Text(a) && a@ == address@)
                && (r.params@[1] matches RpcParam::Text(b) && b@ == block@),
            self.query matches RpcQuery::Transaction { tx_hash } ==> r.params@.len() == 1
                && (r.params@[0] matches RpcParam::Text(h) && h@ == tx_hash@),
            self.query matches RpcQuery::Call { to, data, block } ==> r.params@.len() == 2
                && (r.params@[0] matches RpcParam::CallObject { to: t, data: d } && t@ == to@
                && d@ == data@) && (r.params@[1] matches RpcParam::Text(b) && b@ == block@),
            self.query is ChainId ==> r.params@.len() == 0,
    {
        let (method, params) = match &self.query {
            RpcQuery::Block { block } => {
                let params = vec![RpcParam::Text(block.clone()), RpcParam::Flag(false)];
                (String::from_str("eth_getBlockByNumber"), params)
            },
            RpcQuery::Balance { address, block } => {
                let params = vec![RpcParam::Text(address.clone()), RpcParam::Text(block.clone())];
                (String::from_str("eth_getBalance"), params)
            },
            RpcQuery::Transaction { tx_hash } => {
                let params = vec![RpcParam::Text(tx_hash.clone())];
                (String::from_str("eth_getTransactionByHash"), params)
            },
            RpcQuery::Call { to, data, block } => {
                let params = vec![
                    RpcParam::CallObject { to: to.clone(), data: data.clone() },
                    RpcParam::Text(block.clone()),
                ];
                (String::from_str("eth_call"), params)
            },
            RpcQuery::ChainId => (String::from_str("eth_chainId"), Vec::new()),
        };
        JsonRpcRequest { jsonrpc: String::from_str("2.0"), method, params, id: 1 }
    }
}

/// Whether a text starts with a prefix.
pub open spec fn starts_with(s: Seq<char>, p: Seq<char>) -> bool {
    s.len() >= p.len() && s.subrange(0, p.len() as int) == p
}

/// The JSON value of a node's answer to a call: the body of a successful
/// response, when it is JSON.
pub fn rpc_http_reply(outcome: Result<HttpResponse, HttpError>) -> (r: Result<
    serde_json::Value,
    String,
>)
    ensures
        match outcome {
            Err(e) => r matches Err(m) && m@ == "HTTP request failed: "@ + http_error_message(e),
            Ok(resp) => if !(200 <= resp.status < 300) {
                r matches Err(m) && m@ == "HTTP error: "@ + decimal(resp.status as nat)
            } else if crate::http::json_parses(resp.body@) {
                r == Ok::<serde_json::Value, String>(crate::http::json_of(resp.body@))
            } else {
                r matches Err(m) && starts_with(m@, "Failed to parse JSON response: "@)
            },
        },
{
    match outcome {
        Err(e) => Err(String::from_str("HTTP request failed: ").concat(e.to_string().as_str())),
        Ok(resp) => {
            if !resp.is_success() {
                return Err(
                    String::from_str("HTTP error: ").concat(
                        decimal_string(resp.status as u64).as_str(),
                    ),
                );
            }
            match resp.json_value() {
                Ok(v) => Ok(v),
                Err(e) => {
                    let text = json_error_text(&e);
                    let m = String::from_str("Failed to parse JSON response: ").concat(text.as_str());
                    proof {
                        let p = "Failed to parse JSON response: "@;
                        assert(m@.subrange(0, p.len() as int) =~= p);
                    }
                    Err(m)
                },
            }
        },
    }
}

/// The answer of an Ethereum command to the node's response.
pub open spec fn rpc_reply_spec(call: RpcCall, response: JsonRpcResponse, r: Result<Reply, String>) -> bool {
    match response.error {
        Some(e) => r matches Err(m) && m@ == "RPC Error: "@ + signed_decimal(e.code as int) + " - "@
            + e.message@,
        None => match call.query {
            RpcQuery::Block { .. } => r == Ok::<Reply, String>(Reply::RpcResult(response.result)),
            RpcQuery::Transaction { .. } => r == Ok::<Reply, String>(
                Reply::RpcResult(response.result),
            ),
            RpcQuery::Balance { address, block } => r == Ok::<Reply, String>(
                Reply::Balance { address, balance: response.result, block },
            ),
            RpcQuery::Call { to, data, block } => r == Ok::<Reply, String>(
                Reply::Call { to, data, result: response.result, block },
            ),
            RpcQuery::ChainId => r matches Ok(Reply::Connection { node_url, chain_id, connection_status })
                && node_url == call.node_url && chain_id == response.result && connection_status@
                == "connected"@,
        },
    }
}

/// The answer of an Ethereum command to the node's response: the node's error,
/// or its result with what the command echoes.
pub fn rpc_reply(call: RpcCall, response: JsonRpcResponse) -> (r: Result<Reply, String>)
    ensures
        rpc_reply_spec(call, response, r),
{
    if let Some(e) = &response.error {
        return Err(
            String::from_str("RPC Error: ").concat(signed_decimal_string(e.code).as_str()).concat(
                " - ",
            ).concat(e.message.as_str()),
        );
    }
    let result = response.result;
    match call.query {
        RpcQuery::Block { .. } => Ok(Reply::RpcResult(result)),
        RpcQuery::Transaction { .. } => Ok(Reply::RpcResult(result)),
        RpcQuery::Balance { address, block } => Ok(Reply::Balance { address, balance: result, block }),
        RpcQuery::Call { to, data, block } => Ok(Reply::Call { to, data, result, block }),
        RpcQuery::ChainId => Ok(
            Reply::Connection {
                node_url: call.node_url,
                chain_id: result,
                connection_status: String::from_str("connected"),
            },
        ),
    }
}

/// The description of one command.
#[derive(Debug)]
pub struct CommandHelp {
    pub name: String,
    pub description: String,
    /// Each parameter with its description.
    pub parameters: Vec<(String, String)>,
}

/// The description of the client and its commands.
#[derive(Debug)]
pub struct Help {
    pub description: String,
    /// The generic HTTP commands.
    pub commands: Vec<CommandHelp>,
    /// The Ethereum examples.
    pub examples: Vec<CommandHelp>,
}

/// A command's description as text: name, description, parameters.
pub open spec fn entry_view(c: CommandHelp) -> (Seq<char>, Seq<char>, Seq<(Seq<char>, Seq<char>)>) {
    (c.name@, c.description@, headers_view(c.parameters@))
}

/// The description of the client as text.
pub open spec fn help_view(h: Help) -> (
    Seq<char>,
    Seq<(Seq<char>, Seq<char>, Seq<(Seq<char>, Seq<char>)>)>,
    Seq<(Seq<char>, Seq<char>, Seq<(Seq<char>, Seq<char>)>)>,
) {
    (
        h.description@,
        h.commands@.map_values(|c: CommandHelp| entry_view(c)),
        h.examples@.map_values(|c: CommandHelp| entry_view(c)),
    )
}

/// The generic commands as text.
pub open spec fn generic_help() -> Seq<(Seq<char>, Seq<char>, Seq<(Seq<char>, Seq<char>)>)> {
    seq![
        ("http_get"@, "Make a generic HTTP GET request"@, seq![
            ("url"@, "Target URL"@),
            ("headers"@, "Optional headers object"@),
        ]),
        ("http_post"@, "Make a generic HTTP POST request"@, seq![
            ("url"@, "Target URL"@),
            ("headers"@, "Optional headers object"@),
            ("body"@, "Request body (string)"@),
            ("json"@, "Request body (JSON object)"@),
        ]),
        ("rest_api"@, "Call a REST API with flexible parameters"@, seq![
            ("url"@, "API endpoint URL"@),
            ("method"@, "HTTP method (GET, POST, PUT, DELETE, PATCH, HEAD) - defaults to GET"@),
            ("headers"@, "Optional headers object"@),
            ("body"@, "Request body (string) - only for POST, PUT, PATCH"@),
            ("json"@, "Request body (JSON object) - only for POST, PUT, PATCH"@),
        ]),
    ]
}

/// The Ethereum examples as text.
pub open spec fn example_help() -> Seq<(Seq<char>, Seq<char>, Seq<(Seq<char>, Seq<char>)>)> {
    seq![
        ("get_block"@, "Get blockchain block information (Ethereum)"@, seq![
            ("node_url"@, "Blockchain node URL"@),
            ("block_number"@, "Block number or 'latest' (optional)"@),
        ]),
        ("get_balance"@, "Get account balance (Ethereum)"@, seq![
            ("node_url"@, "Blockchain node URL"@),
            ("address"@, "Ethereum address"@),
            ("block_number"@, "Block number or 'latest' (optional)"@),
        ]),
        ("get_transaction"@, "Get transaction information (Ethereum)"@, seq![
            ("node_url"@, "Blockchain node URL"@),
            ("tx_hash"@, "Transaction hash"@),
        ]),
        ("eth_call"@, "Call smart contract function (Ethereum)"@, seq![
            ("node_url"@, "Blockchain node URL"@),
            ("to"@, "Contract address"@),
            ("data"@, "Encoded function call data"@),
            ("block_number"@, "Block number or 'latest' (optional)"@),
        ]),
        ("test_connection"@, "Test connection to blockchain node (Ethereum)"@, seq![
            ("node_url"@, "Blockchain node URL"@),
        ]),
    ]
}

/// The description of the client as text.
pub open spec fn help_text() -> (
    Seq<char>,
    Seq<(Seq<char>, Seq<char>, Seq<(Seq<char>, Seq<char>)>)>,
    Seq<(Seq<char>, Seq<char>, Seq<(Seq<char>, Seq<char>)>)>,
) {
    (
        "Portable HTTP Client for WASM - works in both browser and Valence environments"@,
        generic_help(),
        example_help(),
    )
}

fn param(ps: &mut Vec<(String, String)>, name: &str, description: &str)
    ensures
        headers_view(final(ps)@) == headers_view(old(ps)@).push((name@, description@)),
{
    let ghost before = ps@;
    ps.push((String::from_str(name), String::from_str(description)));
    assert(headers_view(ps@) =~= headers_view(before).push((name@, description@)));
}

fn command_help(name: &str, description: &str, parameters: Vec<(String, String)>) -> (c: CommandHelp)
    ensures
        c.name@ == name@,
        c.description@ == description@,
        c.parameters == parameters,
{
    CommandHelp {
        name: String::from_str(name),
        description: String::from_str(description),
        parameters,
    }
}

fn generic_commands() -> (v: Vec<CommandHelp>)
    ensures
        v@.map_values(|c: CommandHelp| entry_view(c)) == generic_help(),
{
    let mut v: Vec<CommandHelp> = Vec::new();
    let mut ps: Vec<(String, String)> = Vec::new();
    param(&mut ps, "url", "Target URL");
    param(&mut ps, "headers", "Optional headers object");
    assert(headers_view(ps@) =~= generic_help()[0].2);
    v.push(command_help("http_get", "Make a generic HTTP GET request", ps));
    let mut ps: Vec<(String, String)> = Vec::new();
    param(&mut ps, "url", "Target URL");
    param(&mut ps, "headers", "Optional headers object");
    param(&mut ps, "body", "Request body (string)");
    param(&mut ps, "json", "Request body (JSON object)");
    assert(headers_view(ps@) =~= generic_help()[1].2);
    v.push(command_help("http_post", "Make a generic HTTP POST request", ps));
    let mut ps: Vec<(String, String)> = Vec::new();
    param(&mut ps, "url", "API endpoint URL");
    param(&mut ps, "method", "HTTP method (GET, POST, PUT, DELETE, PATCH, HEAD) - defaults to GET");
    param(&mut ps, "headers", "Optional headers object");
    param(&mut ps, "body", "Request body (string) - only for POST, PUT, PATCH");
    param(&mut ps, "json", "Request body (JSON object) - only for POST, PUT, PATCH");
    assert(headers_view(ps@) =~= generic_help()[2].2);
    v.push(command_help("rest_api", "Call a REST API with flexible parameters", ps));
    assert(v@.map_values(|c: CommandHelp| entry_view(c)) =~= generic_help());
    v
}

fn example_commands() -> (v: Vec<CommandHelp>)
    ensures
        v@.map_values(|c: CommandHelp| entry_view(c)) == example_help(),
{
    let mut v: Vec<CommandHelp> = Vec::new();
    let mut ps: Vec<(String, String)> = Vec::new();
    param(&mut ps, "node_url", "Blockchain node URL");
    param(&mut ps, "block_number", "Block number or 'latest' (optional)");
    assert(headers_view(ps@) =~= example_help()[0].2);
    v.push(command_help("get_block", "Get blockchain block information (Ethereum)", ps));
    let mut ps: Vec<(String, String)> = Vec::new();
    param(&mut ps, "node_url", "Blockchain node URL");
    param(&mut ps, "address", "Ethereum address");
    param(&mut ps, "block_number", "Block number or 'latest' (optional)");
    assert(headers_view(ps@) =~= example_help()[1].2);
    v.push(command_help("get_balance", "Get account balance (Ethereum)", ps));
    let mut ps: Vec<(String, String)> = Vec::new();
    param(&mut ps, "node_url", "Blockchain node URL");
    param(&mut ps, "tx_hash", "Transaction hash");
    assert(headers_view(ps@) =~= example_help()[2].2);
    v.push(command_help("get_transaction", "Get transaction information (Ethereum)", ps));
    let mut ps: Vec<(String, String)> = Vec::new();
    param(&mut ps, "node_url", "Blockchain node URL");
    param(&mut ps, "to", "Contract address");
    param(&mut ps, "data", "Encoded function call data");
    param(&mut ps, "block_number", "Block number or 'latest' (optional)");
    assert(headers_view(ps@) =~= example_help()[3].2);
    v.push(command_help("eth_call", "Call smart contract function (Ethereum)", ps));
    let mut ps: Vec<(String, String)> = Vec::new();
    param(&mut ps, "node_url", "Blockchain node URL");
    assert(headers_view(ps@) =~= example_help()[4].2);
    v.push(command_help("test_connection", "Test connection to blockchain node (Ethereum)", ps));
    assert(v@.map_values(|c: CommandHelp| entry_view(c)) =~= example_help());
    v
}

/// The description of the client and its commands.
pub fn help() -> (h: Help)
    ensures
        help_view(h) == help_text(),
{
    Help {
        description: String::from_str(
            "Portable HTTP Client for WASM - works in both browser and Valence environments",
        ),
        commands: generic_commands(),
        examples: example_commands(),
    }
}

/// What the client does first with its arguments.
#[derive(Debug)]
pub enum Step {
    /// It answers at once.
    Finish(Result<Reply, String>),
    /// It sends an HTTP request for a command, then answers with `after_send`.
    Send(ClientCommand, HttpRequest),
    /// It asks a node, then answers with `rpc_http_reply` and `rpc_reply`.
    Ask(RpcCall),
}

/// The request that a step sends for command `c`, or the error it finishes
/// with.
pub open spec fn as_request(s: Step, c: ClientCommand) -> Option<Result<HttpRequest, String>> {
    match s {
        Step::Send(c2, req) => if c2 == c {
            Some(Ok(req))
        } else {
            None
        },
        Step::Finish(Err(e)) => Some(Err(e)),
        _ => None,
    }
}

/// The call that a step makes, or the error it finishes with.
pub open spec fn as_call(s: Step) -> Option<Result<RpcCall, String>> {
    match s {
        Step::Ask(call) => Some(Ok(call)),
        Step::Finish(Err(e)) => Some(Err(e)),
        _ => None,
    }
}

fn sending(c: ClientCommand, r: Result<HttpRequest, String>) -> (s: Step)
    ensures
        as_request(s, c) == Some(r),
{
    match r {
        Ok(req) => Step::Send(c, req),
        Err(e) => Step::Finish(Err(e)),
    }
}

/// What the client does first with its arguments: the command they name
/// (`help` by default) builds its request or node call, or answers at once.
pub fn first_step(args: &ClientArgs) -> (s: Step)
    ensures
        match command_of(args.command) {
            Err(m) => s matches Step::Finish(Err(e)) && e@ == m,
            Ok(ClientCommand::Help) => s matches Step::Finish(Ok(Reply::Help(h))) && help_view(h)
                == help_text(),
            Ok(ClientCommand::HttpGet) => as_request(s, ClientCommand::HttpGet) matches Some(r)
                && get_request_spec(*args, r),
            Ok(ClientCommand::HttpPost) => as_request(s, ClientCommand::HttpPost) matches Some(r)
                && post_request_spec(*args, r),
            Ok(ClientCommand::RestApi) => as_request(s, ClientCommand::RestApi) matches Some(r)
                && rest_request_spec(*args, r),
            Ok(c) => as_call(s) matches Some(r) && rpc_call_spec(c, *args, r),
        },
{
    let c = match requested_command(args) {
        Ok(c) => c,
        Err(e) => return Step::Finish(Err(e)),
    };
    match c {
        ClientCommand::Help => Step::Finish(Ok(Reply::Help(help()))),
        ClientCommand::HttpGet => sending(c, http_get_request(args)),
        ClientCommand::HttpPost => sending(c, http_post_request(args)),
        ClientCommand::RestApi => sending(c, rest_api_request(args)),
        _ => match rpc_call(c, args) {
            Ok(call) => Step::Ask(call),
            Err(e) => Step::Finish(Err(e)),
        },
    }
}

/// The names of the commands that the help describes, in its order.
pub open spec fn help_names() -> Seq<Seq<char>> {
    generic_help().map_values(|e: (Seq<char>, Seq<char>, Seq<(Seq<char>, Seq<char>)>)| e.0)
        + example_help().map_values(|e: (Seq<char>, Seq<char>, Seq<(Seq<char>, Seq<char>)>)| e.0)
}

/// The help describes every command but `help` itself, each once: its names
/// are read as the eight other commands.
pub proof fn lemma_help_names_every_command()
    ensures
        help_names().map_values(|n: Seq<char>| command_named(n)) == seq![
            Some(ClientCommand::HttpGet),
            Some(ClientCommand::HttpPost),
            Some(ClientCommand::RestApi),
            Some(ClientCommand::GetBlock),
            Some(ClientCommand::GetBalance),
            Some(ClientCommand::GetTransaction),
            Some(ClientCommand::EthCall),
            Some(ClientCommand::TestConnection),
        ],
{
    reveal_strlit("get_block");
    reveal_strlit("get_balance");
    reveal_strlit("get_transaction");
    reveal_strlit("eth_call");
    reveal_strlit("test_connection");
    reveal_strlit("http_get");
    reveal_strlit("http_post");
    reveal_strlit("rest_api");
    reveal_strlit("help");
    assert("get_block"@.len() == 9 && "get_block"@[0] == 'g');
    assert("get_balance"@.len() == 11 && "get_balance"@[0] == 'g');
    assert("get_transaction"@.len() == 15 && "get_transaction"@[0] == 'g');
    assert("eth_call"@.len() == 8 && "eth_call"@[0] == 'e');
    assert("test_connection"@.len() == 15 && "test_connection"@[0] == 't');
    assert("http_get"@.len() == 8 && "http_get"@[0] == 'h');
    assert("http_post"@.len() == 9 && "http_post"@[0] == 'h');
    assert("rest_api"@.len() == 8 && "rest_api"@[0] == 'r');
    let names = help_names();
    assert(names =~= seq![
        "http_get"@,
        "http_post"@,
        "rest_api"@,
        "get_block"@,
        "get_balance"@,
        "get_transaction"@,
        "eth_call"@,
        "test_connection"@,
    ]);
    assert(names.map_values(|n: Seq<char>| command_named(n)) =~= seq![
        Some(ClientCommand::HttpGet),
        Some(ClientCommand::HttpPost),
        Some(ClientCommand::RestApi),
        Some(ClientCommand::GetBlock),
        Some(ClientCommand::GetBalance),
        Some(ClientCommand::GetTransaction),
        Some(ClientCommand::EthCall),
        Some(ClientCommand::TestConnection),
    ]);
}

} // verus!
