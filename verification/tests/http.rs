use valence::http::{
    eq_ignore_ascii_case, HostReply, HttpClient, HttpError, HttpMethod, HttpRequest, HttpResponse,
    ReplyBody,
};

fn response(status: u16, headers: &[(&str, &str)], body: &[u8]) -> HttpResponse {
    HttpResponse {
        status,
        headers: headers.iter().map(|(k, v)| (k.to_string(), v.to_string())).collect(),
        body: body.to_vec(),
    }
}

#[test]
fn requests_start_without_headers_and_with_a_timeout() {
    let r = HttpRequest::get("http://example.org");
    assert_eq!(r.url, "http://example.org");
    assert_eq!(r.method, HttpMethod::Get);
    assert!(r.headers.is_empty());
    assert!(r.body.is_none());
    assert_eq!(r.timeout_secs, Some(30));
    let r = HttpRequest::post("http://example.org/api");
    assert_eq!(r.method, HttpMethod::Post);
    assert_eq!(r.timeout_secs, Some(30));
}

#[test]
fn request_builders_set_their_part() {
    let r = HttpRequest::post("u")
        .header("Accept", "text/plain")
        .header("X-Id", "7")
        .body(b"payload".to_vec())
        .timeout(5);
    assert_eq!(
        r.headers,
        vec![("Accept".to_string(), "text/plain".to_string()), ("X-Id".to_string(), "7".to_string())]
    );
    assert_eq!(r.body, Some(b"payload".to_vec()));
    assert_eq!(r.timeout_secs, Some(5));
    assert_eq!(r.url, "u");
}

#[test]
fn success_is_the_2xx_range() {
    assert!(!response(199, &[], b"").is_success());
    assert!(response(200, &[], b"").is_success());
    assert!(response(299, &[], b"").is_success());
    assert!(!response(300, &[], b"").is_success());
    assert!(!response(404, &[], b"").is_success());
}

#[test]
fn text_requires_utf8() {
    assert_eq!(response(200, &[], "héllo".as_bytes()).text().unwrap(), "héllo");
    assert!(response(200, &[], &[0xff, 0xfe]).text().is_err());
    assert_eq!(response(200, &[], b"").text().unwrap(), "");
}

#[test]
fn header_lookup_ignores_ascii_case_and_takes_the_first() {
    let r = response(200, &[("Content-Type", "a"), ("content-type", "b"), ("X", "c")], b"");
    assert_eq!(r.header("CONTENT-TYPE"), Some("a"));
    assert_eq!(r.header("x"), Some("c"));
    assert_eq!(r.header("missing"), None);
    assert!(eq_ignore_ascii_case("ÄbC", "Äbc"));
    assert!(!eq_ignore_ascii_case("äbc", "Äbc"));
    assert!(!eq_ignore_ascii_case("ab", "abc"));
}

#[test]
fn methods_and_errors_have_names() {
    assert_eq!(HttpMethod::Get.as_str(), "GET");
    assert_eq!(HttpMethod::Delete.to_string(), "DELETE");
    assert_eq!(HttpMethod::Patch.host_name(), "patch");
    assert_eq!(HttpMethod::Head.host_name(), "head");
    assert_eq!(HttpError::Network("down".into()).to_string(), "Network error: down");
    assert_eq!(HttpError::Timeout.to_string(), "Request timeout");
    assert_eq!(HttpError::Serialization("x".into()).to_string(), "Serialization error: x");
    assert_eq!(HttpError::UnsupportedEnvironment.to_string(), "Unsupported environment");
    assert_eq!(HttpError::InvalidUrl.to_string(), "Invalid URL");
    assert_eq!(HttpError::InvalidResponse.to_string(), "Invalid response");
}

#[test]
fn host_reply_becomes_a_response() {
    let reply = HostReply {
        status: Some(201),
        headers: vec![("a".to_string(), Some("1".to_string())), ("b".to_string(), None)],
        body: ReplyBody::Array(vec![Some(104), Some(105), None, Some(300)]),
    };
    let r = HttpClient::response_from_reply(reply).unwrap();
    assert_eq!(r.status, 201);
    assert_eq!(r.headers, vec![("a".to_string(), "1".to_string()), ("b".to_string(), String::new())]);
    assert_eq!(r.body, vec![104, 105, 0, 44]);

    let reply = HostReply { status: Some(70000), headers: vec![], body: ReplyBody::Text("ok".into()) };
    let r = HttpClient::response_from_reply(reply).unwrap();
    assert_eq!(r.status, 70000u64 as u16);
    assert_eq!(r.body, b"ok".to_vec());

    let reply = HostReply { status: Some(200), headers: vec![], body: ReplyBody::Other };
    assert!(HttpClient::response_from_reply(reply).unwrap().body.is_empty());

    let reply = HostReply { status: None, headers: vec![], body: ReplyBody::Other };
    assert!(matches!(HttpClient::response_from_reply(reply), Err(HttpError::InvalidResponse)));
}

#[test]
fn json_bodies_are_written_and_read() {
    let data: serde_json::Value = serde_json::from_str("{\"a\":1}").unwrap();
    let r = HttpRequest::post("u").header("X", "y").json_value(&data).unwrap();
    assert_eq!(r.body, Some(b"{\"a\":1}".to_vec()));
    assert_eq!(
        r.headers,
        vec![
            ("X".to_string(), "y".to_string()),
            ("Content-Type".to_string(), "application/json".to_string())
        ]
    );
    let back = response(200, &[], b"{\"a\":1}").json_value().unwrap();
    assert_eq!(back, data);
    assert!(response(200, &[], b"not json").json_value().is_err());
}

#[test]
fn host_request_keeps_the_last_value_of_each_header() {
    let request = HttpRequest::post("https://example.com/api")
        .header("A", "1")
        .header("B", "2")
        .header("A", "3")
        .body(vec![1, 2, 3]);
    let host = valence::http::HttpClient::host_request(request);
    assert_eq!(host.url, "https://example.com/api");
    assert_eq!(host.method, "post");
    assert_eq!(
        host.headers,
        vec![("A".to_string(), "3".to_string()), ("B".to_string(), "2".to_string())]
    );
    assert_eq!(host.body, Some(vec![1, 2, 3]));
}
