use valence::http::{HttpError, HttpMethod, HttpResponse};
use valence::http_commands::{
    after_send, decimal_string, rest_api_body, first_step, help, requested_command, rest_method, rpc_http_reply,
    rpc_reply, signed_decimal_string, ClientArgs, ClientCommand, HeaderArg, JsonRpcError,
    JsonRpcResponse, Reply, RpcCall, RpcParam, RpcQuery, Step,
};

fn args(command: &str) -> ClientArgs {
    ClientArgs {
        command: Some(command.to_string()),
        url: None,
        method: None,
        headers: None,
        body: None,
        has_body: false,
        json: None,
        node_url: None,
        block_number: None,
        address: None,
        tx_hash: None,
        to: None,
        data: None,
    }
}

fn response(status: u16, body: &[u8]) -> HttpResponse {
    HttpResponse {
        status,
        headers: vec![("content-type".to_string(), "text/plain".to_string())],
        body: body.to_vec(),
    }
}

fn json_text(text: &str) -> serde_json::Value {
    serde_json::from_str(text).unwrap()
}

fn finished_error(step: Step) -> String {
    match step {
        Step::Finish(Err(e)) => e,
        other => panic!("expected an error, got {:?}", other),
    }
}

#[test]
fn command_names_are_read() {
    assert_eq!(ClientCommand::from_name("get_block"), Some(ClientCommand::GetBlock));
    assert_eq!(ClientCommand::from_name("rest_api"), Some(ClientCommand::RestApi));
    assert_eq!(ClientCommand::from_name("REST_API"), None);

    let mut a = args("x");
    a.command = None;
    assert_eq!(requested_command(&a).unwrap(), ClientCommand::Help);
    assert_eq!(requested_command(&args("nope")).unwrap_err(), "Unknown command: nope");
}

#[test]
fn numbers_are_written_in_decimal() {
    assert_eq!(decimal_string(0), "0");
    assert_eq!(decimal_string(7), "7");
    assert_eq!(decimal_string(404), "404");
    assert_eq!(decimal_string(u64::MAX), "18446744073709551615");
    assert_eq!(signed_decimal_string(-32601), "-32601");
    assert_eq!(signed_decimal_string(0), "0");
    assert_eq!(signed_decimal_string(i64::MIN), "-9223372036854775808");
    assert_eq!(signed_decimal_string(i64::MAX), "9223372036854775807");
}

#[test]
fn unknown_command_finishes_with_error() {
    assert_eq!(finished_error(first_step(&args("fly"))), "Unknown command: fly");
}

#[test]
fn help_lists_every_command() {
    let mut a = args("help");
    a.command = None;
    let h = match first_step(&a) {
        Step::Finish(Ok(Reply::Help(h))) => h,
        other => panic!("expected the help, got {:?}", other),
    };
    assert_eq!(
        h.description,
        "Portable HTTP Client for WASM - works in both browser and Valence environments"
    );
    let names: Vec<&str> = h.commands.iter().map(|c| c.name.as_str()).collect();
    assert_eq!(names, vec!["http_get", "http_post", "rest_api"]);
    let names: Vec<&str> = h.examples.iter().map(|c| c.name.as_str()).collect();
    assert_eq!(
        names,
        vec!["get_block", "get_balance", "get_transaction", "eth_call", "test_connection"]
    );
    for c in h.commands.iter().chain(h.examples.iter()) {
        assert!(ClientCommand::from_name(&c.name).is_some());
    }
    let eth = &help().examples[3];
    assert_eq!(eth.description, "Call smart contract function (Ethereum)");
    assert_eq!(eth.parameters[2], ("data".to_string(), "Encoded function call data".to_string()));
}

#[test]
fn http_get_needs_a_url() {
    assert_eq!(finished_error(first_step(&args("http_get"))), "Missing 'url' parameter");
}

#[test]
fn http_get_sends_headers_in_order() {
    let mut a = args("http_get");
    a.url = Some("http://example.com/x".to_string());
    a.headers = Some(vec![
        ("Accept".to_string(), HeaderArg::Text("text/plain".to_string())),
        ("X-Id".to_string(), HeaderArg::Text("7".to_string())),
    ]);
    match first_step(&a) {
        Step::Send(ClientCommand::HttpGet, req) => {
            assert_eq!(req.url, "http://example.com/x");
            assert_eq!(req.method, HttpMethod::Get);
            assert_eq!(
                req.headers,
                vec![
                    ("Accept".to_string(), "text/plain".to_string()),
                    ("X-Id".to_string(), "7".to_string())
                ]
            );
            assert_eq!(req.body, None);
            assert_eq!(req.timeout_secs, Some(30));
        }
        other => panic!("expected a GET, got {:?}", other),
    }
}

#[test]
fn header_that_is_not_a_string_is_refused() {
    let mut a = args("http_get");
    a.url = Some("http://example.com".to_string());
    a.headers = Some(vec![
        ("Accept".to_string(), HeaderArg::Text("text/plain".to_string())),
        ("X-Count".to_string(), HeaderArg::Other("Number(3)".to_string())),
        ("X-Other".to_string(), HeaderArg::Other("Bool(true)".to_string())),
    ]);
    assert_eq!(
        finished_error(first_step(&a)),
        "Header value for key 'X-Count' must be a string, got: Number(3)"
    );
}

#[test]
fn http_post_prefers_the_text_body() {
    let mut a = args("http_post");
    a.url = Some("http://example.com".to_string());
    a.body = Some("hello".to_string());
    a.has_body = true;
    a.json = Some(json_text(r#"{"a":1}"#));
    match first_step(&a) {
        Step::Send(ClientCommand::HttpPost, req) => {
            assert_eq!(req.method, HttpMethod::Post);
            assert_eq!(req.body, Some(b"hello".to_vec()));
            assert!(req.headers.is_empty());
        }
        other => panic!("expected a POST, got {:?}", other),
    }
}

#[test]
fn http_post_writes_the_json_body() {
    let mut a = args("http_post");
    a.url = Some("http://example.com".to_string());
    a.json = Some(json_text(r#"{"a":1}"#));
    match first_step(&a) {
        Step::Send(ClientCommand::HttpPost, req) => {
            assert_eq!(req.body, Some(br#"{"a":1}"#.to_vec()));
            assert_eq!(
                req.headers,
                vec![("Content-Type".to_string(), "application/json".to_string())]
            );
        }
        other => panic!("expected a POST, got {:?}", other),
    }
}

#[test]
fn rest_api_reads_the_method_in_any_case() {
    assert_eq!(rest_method("DELETE"), Some(HttpMethod::Delete));
    assert_eq!(rest_method("delete"), None);
    let mut a = args("rest_api");
    a.url = Some("http://example.com".to_string());
    a.method = Some("delete".to_string());
    match first_step(&a) {
        Step::Send(ClientCommand::RestApi, req) => assert_eq!(req.method, HttpMethod::Delete),
        other => panic!("expected a DELETE, got {:?}", other),
    }
    a.method = None;
    match first_step(&a) {
        Step::Send(ClientCommand::RestApi, req) => assert_eq!(req.method, HttpMethod::Get),
        other => panic!("expected a GET, got {:?}", other),
    }
}

#[test]
fn rest_api_refuses_unknown_methods() {
    let mut a = args("rest_api");
    a.url = Some("http://example.com".to_string());
    a.method = Some("Fetch".to_string());
    assert_eq!(
        finished_error(first_step(&a)),
        "Unsupported HTTP method: Fetch. Supported methods: GET, POST, PUT, DELETE, PATCH, HEAD"
    );
}

#[test]
fn rest_api_refuses_a_body_without_a_body_method() {
    let mut a = args("rest_api");
    a.url = Some("http://example.com".to_string());
    a.method = Some("head".to_string());
    a.has_body = true;
    assert_eq!(finished_error(first_step(&a)), "HEAD method does not support request body");
    a.has_body = false;
    a.json = Some(serde_json::Value::Null);
    a.method = Some("get".to_string());
    assert_eq!(finished_error(first_step(&a)), "GET method does not support request body");
}

#[test]
fn rest_api_puts_a_body() {
    let mut a = args("rest_api");
    a.url = Some("http://example.com".to_string());
    a.method = Some("put".to_string());
    a.body = Some("data".to_string());
    a.has_body = true;
    match first_step(&a) {
        Step::Send(ClientCommand::RestApi, req) => {
            assert_eq!(req.method, HttpMethod::Put);
            assert_eq!(req.body, Some(b"data".to_vec()));
        }
        other => panic!("expected a PUT, got {:?}", other),
    }
}

#[test]
fn http_reply_gives_status_headers_and_text() {
    match after_send(ClientCommand::HttpGet, Ok(response(201, b"done"))) {
        Ok(Reply::Http {
            status,
            headers,
            body,
        }) => {
            assert_eq!(status, 201);
            assert_eq!(headers.len(), 1);
            assert_eq!(body, "done");
        }
        other => panic!("unexpected {:?}", other),
    }
    assert_eq!(
        after_send(ClientCommand::HttpPost, Ok(response(200, &[0xff, 0xfe]))).unwrap_err(),
        "Response body contains invalid UTF-8"
    );
    assert_eq!(
        after_send(ClientCommand::HttpGet, Err(HttpError::Timeout)).unwrap_err(),
        "HTTP request failed: Request timeout"
    );
}

#[test]
fn rest_api_reply_reads_json_then_text() {
    match after_send(ClientCommand::RestApi, Ok(response(200, br#"{"ok":true}"#))) {
        Ok(Reply::Json(v)) => assert_eq!(v, json_text(r#"{"ok":true}"#)),
        other => panic!("unexpected {:?}", other),
    }
    match after_send(ClientCommand::RestApi, Ok(response(200, b"plain words"))) {
        Ok(Reply::Text(t)) => assert_eq!(t, "plain words"),
        other => panic!("unexpected {:?}", other),
    }
    assert_eq!(
        after_send(ClientCommand::RestApi, Ok(response(404, b"{}"))).unwrap_err(),
        "API call failed with status: 404"
    );
    assert_eq!(
        after_send(ClientCommand::RestApi, Err(HttpError::Network("down".to_string()))).unwrap_err(),
        "REST API call failed: Network error: down"
    );
}

#[test]
fn node_calls_need_their_arguments() {
    assert_eq!(finished_error(first_step(&args("get_block"))), "Missing 'node_url' parameter");
    let mut a = args("get_balance");
    a.node_url = Some("http://node".to_string());
    assert_eq!(finished_error(first_step(&a)), "Missing 'address' parameter");
    let mut a = args("eth_call");
    a.node_url = Some("http://node".to_string());
    a.data = Some("0x".to_string());
    assert_eq!(finished_error(first_step(&a)), "Missing 'to' parameter");
    a.to = Some("0xabc".to_string());
    a.data = None;
    assert_eq!(finished_error(first_step(&a)), "Missing 'data' parameter");
}

#[test]
fn node_calls_build_their_requests() {
    let mut a = args("get_block");
    a.node_url = Some("http://node".to_string());
    let call = match first_step(&a) {
        Step::Ask(call) => call,
        other => panic!("expected a call, got {:?}", other),
    };
    assert_eq!(call.node_url, "http://node");
    let req = call.request();
    assert_eq!(req.jsonrpc, "2.0");
    assert_eq!(req.id, 1);
    assert_eq!(req.method, "eth_getBlockByNumber");
    assert!(matches!(&req.params[0], RpcParam::Text(b) if b == "latest"));
    assert!(matches!(req.params[1], RpcParam::Flag(false)));

    let mut a = args("eth_call");
    a.node_url = Some("http://node".to_string());
    a.to = Some("0xabc".to_string());
    a.data = Some("0x01".to_string());
    a.block_number = Some("0x10".to_string());
    let req = match first_step(&a) {
        Step::Ask(call) => call.request(),
        other => panic!("expected a call, got {:?}", other),
    };
    assert_eq!(req.method, "eth_call");
    assert!(matches!(&req.params[0], RpcParam::CallObject { to, data } if to == "0xabc" && data == "0x01"));
    assert!(matches!(&req.params[1], RpcParam::Text(b) if b == "0x10"));

    let mut a = args("test_connection");
    a.node_url = Some("http://node".to_string());
    let req = match first_step(&a) {
        Step::Ask(call) => call.request(),
        other => panic!("expected a call, got {:?}", other),
    };
    assert_eq!(req.method, "eth_chainId");
    assert!(req.params.is_empty());
}

#[test]
fn node_http_reply_checks_status_and_json() {
    assert_eq!(rpc_http_reply(Ok(response(500, b"{}"))).unwrap_err(), "HTTP error: 500");
    assert!(rpc_http_reply(Ok(response(200, b"not json")))
        .unwrap_err()
        .starts_with("Failed to parse JSON response: "));
    assert_eq!(
        rpc_http_reply(Ok(response(200, br#"{"jsonrpc":"2.0","id":1,"result":"0x1"}"#))).unwrap()["result"],
        serde_json::Value::String("0x1".to_string())
    );
    assert_eq!(
        rpc_http_reply(Err(HttpError::InvalidUrl)).unwrap_err(),
        "HTTP request failed: Invalid URL"
    );
}

#[test]
fn node_reply_gives_error_or_result() {
    let call = RpcCall {
        node_url: "http://node".to_string(),
        query: RpcQuery::ChainId,
    };
    let failed = JsonRpcResponse {
        jsonrpc: "2.0".to_string(),
        result: None,
        error: Some(JsonRpcError {
            code: -32601,
            message: "Method not found".to_string(),
            data: None,
        }),
        id: 1,
    };
    assert_eq!(rpc_reply(call, failed).unwrap_err(), "RPC Error: -32601 - Method not found");

    let call = RpcCall {
        node_url: "http://node".to_string(),
        query: RpcQuery::ChainId,
    };
    let ok = JsonRpcResponse {
        jsonrpc: "2.0".to_string(),
        result: Some(serde_json::Value::String("0x1".to_string())),
        error: None,
        id: 1,
    };
    match rpc_reply(call, ok) {
        Ok(Reply::Connection {
            node_url,
            chain_id,
            connection_status,
        }) => {
            assert_eq!(node_url, "http://node");
            assert_eq!(chain_id, Some(serde_json::Value::String("0x1".to_string())));
            assert_eq!(connection_status, "connected");
        }
        other => panic!("unexpected {:?}", other),
    }

    let call = RpcCall {
        node_url: "http://node".to_string(),
        query: RpcQuery::Balance {
            address: "0xabc".to_string(),
            block: "latest".to_string(),
        },
    };
    let ok = JsonRpcResponse {
        jsonrpc: "2.0".to_string(),
        result: None,
        error: None,
        id: 1,
    };
    match rpc_reply(call, ok) {
        Ok(Reply::Balance {
            address,
            balance,
            block,
        }) => {
            assert_eq!(address, "0xabc");
            assert_eq!(balance, None);
            assert_eq!(block, "latest");
        }
        other => panic!("unexpected {:?}", other),
    }
}

#[test]
fn rest_api_body_falls_back_to_text() {
    let parsed = serde_json::from_slice::<serde_json::Value>(b"[1, 2]");
    match rest_api_body(response(200, b"[1, 2]"), parsed) {
        Ok(Reply::Json(v)) => assert_eq!(v, json_text("[1,2]")),
        other => panic!("unexpected {:?}", other),
    }
    let failed = serde_json::from_slice::<serde_json::Value>(b"{");
    match rest_api_body(response(200, b"{"), failed) {
        Ok(Reply::Text(t)) => assert_eq!(t, "{"),
        other => panic!("unexpected {:?}", other),
    }
    let failed = serde_json::from_slice::<serde_json::Value>(&[0xff]);
    assert_eq!(
        rest_api_body(response(200, &[0xff]), failed).unwrap_err(),
        "Response body contains invalid UTF-8"
    );
}
