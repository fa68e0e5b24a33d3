use rustmetrics::http::client::{decode_body, read_reply, ClientError, ReplyReader, ScrapeUrl};
use rustmetrics::http::server::{
    admission, parse_request, refusal, write_response, HeadReader, MAX_CONNECTIONS,
};
use rustmetrics::http::{
    percent_decode, status_reason, HttpError, Method, QueryParams, Request, Response,
};

fn parse(raw: &str) -> Result<Request, HttpError> {
    parse_request(raw.as_bytes())
}

#[test]
fn percent_decoding() {
    assert_eq!(percent_decode("a%20b+c").unwrap(), "a b c");
    assert_eq!(percent_decode("%E2%9C%93").unwrap(), "\u{2713}");
    assert!(percent_decode("%zz").is_err());
    assert!(percent_decode("%2").is_err());
}

#[test]
fn query_params_parse() {
    let q = QueryParams::parse("metric=up&label.job=api%20server&empty=&flag").unwrap();
    assert_eq!(q.get("metric"), Some("up"));
    assert_eq!(q.get("label.job"), Some("api server"));
    assert_eq!(q.get("empty"), Some(""));
    assert_eq!(q.get("flag"), Some(""));
    assert_eq!(q.get("missing"), None);
}

#[test]
fn parses_get_with_query() {
    let req =
        parse("GET /api/query?metric=up&label.job=a%20b HTTP/1.1\r\nHost: x\r\n\r\n").unwrap();
    assert_eq!(req.method, Method::Get);
    assert_eq!(req.path, "/api/query");
    assert_eq!(req.query.get("metric"), Some("up"));
    assert_eq!(req.query.get("label.job"), Some("a b"));
    assert!(req.body.is_empty());
}

#[test]
fn parses_post_with_body() {
    let req = parse("POST /api/push HTTP/1.1\r\nContent-Length: 5\r\n\r\nup 1\n").unwrap();
    assert_eq!(req.method, Method::Post);
    assert_eq!(req.body, b"up 1\n");
}

#[test]
fn post_without_length_is_411() {
    let e = parse("POST /api/push HTTP/1.1\r\n\r\n").unwrap_err();
    assert_eq!(e, HttpError::LengthRequired);
    assert_eq!(e.status(), 411);
}

#[test]
fn rejects_unsupported_method_and_bad_request_line() {
    assert_eq!(
        parse("DELETE / HTTP/1.1\r\n\r\n").unwrap_err().status(),
        405
    );
    assert!(matches!(
        parse("GARBAGE\r\n\r\n").unwrap_err(),
        HttpError::MalformedRequestLine(_)
    ));
}

#[test]
fn rejects_oversized_body_and_headers() {
    let e = parse("POST / HTTP/1.1\r\nContent-Length: 99999999\r\n\r\n").unwrap_err();
    assert!(matches!(e, HttpError::BodyTooLarge(_)));

    let mut raw = String::from("GET / HTTP/1.1\r\n");
    for i in 0..2000 {
        raw.push_str(&format!("X-Filler-{i}: aaaaaaaaaaaaaaaa\r\n"));
    }
    raw.push_str("\r\n");
    assert_eq!(parse(&raw).unwrap_err(), HttpError::HeadersTooLarge);
}

#[test]
fn rejects_bad_content_length() {
    assert!(matches!(
        parse("POST / HTTP/1.1\r\nContent-Length: abc\r\n\r\n").unwrap_err(),
        HttpError::InvalidContentLength(_)
    ));
}

#[test]
fn response_writing() {
    let mut buf = Vec::new();
    write_response(&mut buf, &Response::json(200, "{}".to_string()));
    let s = String::from_utf8(buf).unwrap();
    assert!(s.starts_with("HTTP/1.1 200 OK\r\n"));
    assert!(s.contains("Content-Length: 2\r\n"));
    assert!(s.ends_with("\r\n\r\n{}"));
}

#[test]
fn parses_urls() {
    let u = ScrapeUrl::parse("http://localhost:9100/metrics").unwrap();
    assert_eq!(u.host(), "localhost");
    assert_eq!(u.port(), 9100);
    assert_eq!(u.path(), "/metrics");
    assert_eq!(u.as_str(), "http://localhost:9100/metrics");

    let u = ScrapeUrl::parse("http://example.com").unwrap();
    assert_eq!(u.port(), 80);
    assert_eq!(u.path(), "/");
}

#[test]
fn rejects_bad_urls() {
    assert!(matches!(
        ScrapeUrl::parse("https://x/metrics"),
        Err(ClientError::UnsupportedScheme(_))
    ));
    assert!(matches!(
        ScrapeUrl::parse("http:///metrics"),
        Err(ClientError::MissingHost(_))
    ));
    assert!(matches!(
        ScrapeUrl::parse("http://host:notaport/"),
        Err(ClientError::InvalidPort(_))
    ));
}

#[test]
fn percent_decoding_edges() {
    assert_eq!(percent_decode("%+5").unwrap(), "\u{5}");
    assert_eq!(percent_decode("%4a%4A").unwrap(), "JJ");
    assert_eq!(
        percent_decode("%ff"),
        Err(HttpError::BadPercentEncoding("%ff".to_string()))
    );
    assert!(percent_decode("%5+").is_err());
    assert!(percent_decode("%-5").is_err());
    assert_eq!(percent_decode("plain é/✓").unwrap(), "plain é/✓");
}

#[test]
fn query_params_keep_order_and_repeats() {
    let q = QueryParams::parse("&b=1&&a=%3D=2&b=3&").unwrap();
    let listed: Vec<(&str, &str)> = q.iter().map(|(k, v)| (k.as_str(), v.as_str())).collect();
    assert_eq!(listed, vec![("b", "1"), ("a", "==2"), ("b", "3")]);
    assert_eq!(q.get("b"), Some("1"));
    assert_eq!(q.clone(), q);
    assert_eq!(
        QueryParams::parse("ok=1&%zz=%yy"),
        Err(HttpError::BadPercentEncoding("%zz".to_string()))
    );
    assert_eq!(QueryParams::parse("").unwrap(), QueryParams::default());
}

#[test]
fn request_errors() {
    assert_eq!(
        parse("").unwrap_err().message(),
        "Request: io error: connection closed mid-request"
    );
    assert_eq!(
        parse("GET / HTTP/1.1\r\nHost: x\r\n").unwrap_err(),
        HttpError::Io("connection closed mid-request".to_string())
    );
    assert_eq!(
        parse_request(b"GET /\xff HTTP/1.1\r\n\r\n").unwrap_err(),
        HttpError::Io("stream did not contain valid UTF-8".to_string())
    );
    assert_eq!(
        parse("POST / HTTP/1.1\r\nContent-Length: 5\r\n\r\nabc").unwrap_err(),
        HttpError::Io("failed to fill whole buffer".to_string())
    );
    assert_eq!(
        parse("GET / HTTP/1.1\r\nnocolon\r\n\r\n").unwrap_err(),
        HttpError::MalformedHeader("nocolon".to_string())
    );
    for line in ["GET /", "GET / HTTP/2", "GET / HTTP/1.1 x", "GET  / HTTP/1.1"] {
        assert_eq!(
            parse(&format!("{line}\r\n\r\n")).unwrap_err(),
            HttpError::MalformedRequestLine(line.to_string())
        );
    }
    assert_eq!(
        parse("GET /%zz HTTP/1.1\r\n\r\n").unwrap_err().message(),
        "QueryParams: bad percent-encoding in \"/%zz\""
    );
    assert_eq!(
        parse("POST / HTTP/1.1\r\ncontent-length : 4194305 \r\n\r\n").unwrap_err().message(),
        "Request: body of 4194305 bytes too large"
    );
}

#[test]
fn error_statuses_and_refusals() {
    assert_eq!(HttpError::HeadersTooLarge.status(), 413);
    assert_eq!(HttpError::BodyTooLarge(1).status(), 413);
    assert_eq!(HttpError::Io("x".to_string()).status(), 400);
    let r = refusal(&HttpError::UnsupportedMethod("PUT".to_string()));
    assert_eq!(r.status, 405);
    assert_eq!(r.body, b"Request: unsupported method \"PUT\"\n");
    assert!(admission(MAX_CONNECTIONS - 1).is_none());
    let busy = admission(MAX_CONNECTIONS).unwrap();
    assert_eq!(busy.status, 500);
    assert_eq!(busy.body, b"server busy\n");
}

#[test]
fn head_is_read_line_by_line() {
    let mut reader = HeadReader::new();
    assert_eq!(reader.line(b"POST /p?a=1 HTTP/1.0\r\n"), Ok(None));
    assert_eq!(reader.line(b"CONTENT-LENGTH: +3\r\n"), Ok(None));
    assert_eq!(reader.line(b"\r\n"), Ok(Some(3)));
    let req = reader.finish(b"abc".to_vec()).unwrap();
    assert_eq!(req.path, "/p");
    assert_eq!(req.query.get("a"), Some("1"));
    assert_eq!(req.body, b"abc");
    assert!(HeadReader::new().finish(vec![]).is_none());
}

#[test]
fn whole_response() {
    let mut buf = b"x".to_vec();
    write_response(&mut buf, &Response::no_content());
    assert_eq!(
        buf,
        b"xHTTP/1.1 204 No Content\r\nContent-Type: text/plain; charset=utf-8\r\nContent-Length: 0\r\nConnection: close\r\n\r\n"
    );
    assert_eq!(status_reason(418), "Unknown");
    let e = Response::json_error(400, "a\"b");
    assert_eq!(e.content_type, "application/json; charset=utf-8");
    assert_eq!(e.body, br#"{"error":"a\"b"}"#);
    assert_eq!(Response::html("<p>").content_type, "text/html; charset=utf-8");
}

#[test]
fn url_edges() {
    let u = ScrapeUrl::parse("http://[::1]:+8080").unwrap();
    assert_eq!((u.host(), u.port(), u.path()), ("[::1]", 8080, "/"));
    assert_eq!(
        u.request(),
        "GET / HTTP/1.1\r\nHost: [::1]\r\nAccept: text/plain\r\nConnection: close\r\n\r\n"
    );
    assert_eq!(
        ScrapeUrl::parse("http://h:65536/").unwrap_err().message(),
        "ScrapeUrl: invalid port \"65536\""
    );
    assert_eq!(
        ScrapeUrl::parse("http://:80/").unwrap_err().message(),
        "ScrapeUrl: missing host in \"http://:80/\""
    );
    assert_eq!(
        ScrapeUrl::parse("ftp://x/").unwrap_err().message(),
        "ScrapeUrl: unsupported scheme in \"ftp://x/\" (http:// only)"
    );
}

#[test]
fn replies() {
    assert_eq!(
        read_reply(b"HTTP/1.1 200 OK\r\nContent-Length: 4\r\n\r\nup 1\n").unwrap(),
        "up 1"
    );
    assert_eq!(read_reply(b"HTTP/1.0 200 OK\r\nX\r\n\r\nup 1\n").unwrap(), "up 1\n");
    assert_eq!(read_reply(b"HTTP/1.0 200 OK\r\n").unwrap(), "");
    assert_eq!(
        read_reply(b"HTTP/1.1 404 Not Found\r\n\r\n"),
        Err(ClientError::HttpStatus(404))
    );
    assert_eq!(
        read_reply(b"nonsense\r\n"),
        Err(ClientError::BadStatusLine("nonsense".to_string()))
    );
    assert_eq!(read_reply(b""), Err(ClientError::BadStatusLine("".to_string())));
    assert_eq!(
        read_reply(b"HTTP/1.1 200 OK\r\n\r\n\xff"),
        Err(ClientError::BodyNotUtf8)
    );
    assert_eq!(decode_body(vec![0xc3]), Err(ClientError::BodyNotUtf8));
    let mut reader = ReplyReader::new();
    assert_eq!(reader.line(b"HTTP/1.1 200 OK\r\n"), Ok(None));
    assert_eq!(reader.line(b"content-length: 9999999\r\n"), Ok(None));
    assert_eq!(reader.line(b""), Ok(Some(1048576)));
    assert_eq!(
        reader.line(b"\xff").unwrap_err().message(),
        "scrape: io error: stream did not contain valid UTF-8"
    );
}

#[test]
fn client_understands_server() {
    for (status, body) in [(404u16, "gone"), (500, ""), (204, "")] {
        let mut bytes = Vec::new();
        write_response(&mut bytes, &Response::text(status, body.to_string()));
        assert_eq!(read_reply(&bytes), Err(ClientError::HttpStatus(status)));
    }
    for response in [
        Response::text(200, "a\r\n\r\nb: é\n".to_string()),
        Response::json(200, "{}".to_string()),
        Response::html("<p>"),
    ] {
        let mut bytes = Vec::new();
        write_response(&mut bytes, &response);
        assert_eq!(read_reply(&bytes).unwrap().into_bytes(), response.body);
    }
    let mut long = Vec::new();
    write_response(&mut long, &Response::text(200, "x".repeat(1_048_577)));
    assert_eq!(read_reply(&long).unwrap().len(), 1_048_576);
}

#[test]
fn server_understands_client() {
    let url = ScrapeUrl::parse("http://host:1/a%20b/é?x=1&y=%2B").unwrap();
    let request = parse(&url.request()).unwrap();
    assert_eq!(request.method, Method::Get);
    assert_eq!(request.path, "/a b/é");
    assert_eq!(request.query.get("x"), Some("1"));
    assert_eq!(request.query.get("y"), Some("+"));
    assert!(request.body.is_empty());
    let url = ScrapeUrl::parse("http://host/a b").unwrap();
    assert!(matches!(
        parse(&url.request()),
        Err(HttpError::MalformedRequestLine(_))
    ));
}

#[test]
fn request_ends_with_its_body() {
    let whole = "POST /p HTTP/1.1\r\nContent-Length: 3\r\n\r\nabc";
    let req = parse(whole).unwrap();
    assert_eq!(req.body, b"abc");
    for tail in ["", "d", "\r\n", "GET / HTTP/1.1\r\n\r\n"] {
        assert_eq!(parse(&format!("{whole}{tail}")).unwrap(), req);
    }
    let whole = "GET /p HTTP/1.1\r\n\r\n";
    let req = parse(whole).unwrap();
    assert!(req.body.is_empty());
    assert_eq!(parse(&format!("{whole}rest")).unwrap(), req);
    // without its line feed the last line is not yet over
    assert!(parse("GET /p HTTP/1.1\r\n\r").is_ok());
    assert!(parse("GET /p HTTP/1.1\r\n\rrest").is_err());
}

#[test]
fn joined_queries() {
    let q = QueryParams::parse("a=1&b&&c=%20").unwrap();
    let listed: Vec<(&str, &str)> = q.iter().map(|(k, v)| (k.as_str(), v.as_str())).collect();
    let mut parts = Vec::new();
    for part in ["a=1&b", "", "c=%20"] {
        for (k, v) in QueryParams::parse(part).unwrap().iter() {
            parts.push((k.clone(), v.clone()));
        }
    }
    let parts: Vec<(&str, &str)> = parts.iter().map(|(k, v)| (k.as_str(), v.as_str())).collect();
    assert_eq!(listed, parts);
    assert_eq!(
        QueryParams::parse("%1&%2"),
        Err(HttpError::BadPercentEncoding("%1".to_string()))
    );
}
