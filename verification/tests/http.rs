use belka::exchange::{Exchange, Move, Start};
use belka::http::{
    head_lines, header_name, parse_request, split_host_port, status_reply, HeadError, HeadReader,
    HeadStep, Target, CONNECT_REPLY, MAX_HEAD_BYTES,
};

fn forward_head(target: Target) -> String {
    match target {
        Target::Forward { rewritten_head, .. } => String::from_utf8(rewritten_head).unwrap(),
        other => panic!("expected Forward, got {other:?}"),
    }
}

#[test]
fn parses_connect() {
    let t = parse_request(b"CONNECT example.com:443 HTTP/1.1\r\nHost: example.com:443\r\n\r\n")
        .unwrap();
    assert_eq!(
        t,
        Target::Connect {
            host: "example.com".into(),
            port: 443
        }
    );
}

#[test]
fn parses_connect_ipv6() {
    let t = parse_request(b"CONNECT [2001:db8::1]:8443 HTTP/1.1\r\n\r\n").unwrap();
    assert_eq!(
        t,
        Target::Connect {
            host: "2001:db8::1".into(),
            port: 8443
        }
    );
}

#[test]
fn connect_without_port_is_error() {
    // CONNECT must carry an explicit port; no default applies.
    assert!(parse_request(b"CONNECT example.com HTTP/1.1\r\n\r\n").is_err());
}

#[test]
fn parses_forward_default_port_and_rewrites_to_origin_form() {
    let t = parse_request(
        b"GET http://example.com/path?q=1 HTTP/1.1\r\nHost: example.com\r\nUser-Agent: x\r\n\r\n",
    )
    .unwrap();
    let (host, port) = match &t {
        Target::Forward { host, port, .. } => (host.clone(), *port),
        _ => panic!("expected Forward"),
    };
    assert_eq!(host, "example.com");
    assert_eq!(port, 80);
    let head = forward_head(t);
    // Origin-form request line — the absolute URI is gone.
    assert!(
        head.starts_with("GET /path?q=1 HTTP/1.1\r\n"),
        "head: {head:?}"
    );
    assert!(head.contains("Host: example.com\r\n"));
    assert!(head.contains("User-Agent: x\r\n"));
    assert!(head.ends_with("Connection: close\r\n\r\n"));
}

#[test]
fn forward_parses_explicit_port_and_empty_path() {
    let t = parse_request(
        b"GET http://example.com:8081 HTTP/1.1\r\nHost: example.com:8081\r\n\r\n",
    )
    .unwrap();
    let port = match &t {
        Target::Forward { port, .. } => *port,
        _ => panic!("expected Forward"),
    };
    assert_eq!(port, 8081);
    // No path in the URI → origin-form path defaults to "/".
    assert!(forward_head(t).starts_with("GET / HTTP/1.1\r\n"));
}

#[test]
fn forward_strips_proxy_headers_and_replaces_connection() {
    let t = parse_request(
        b"GET http://h/ HTTP/1.1\r\nHost: h\r\nProxy-Connection: keep-alive\r\n\
          Proxy-Authorization: Basic abc\r\nConnection: keep-alive\r\n\r\n",
    )
    .unwrap();
    let head = forward_head(t);
    assert!(
        !head.to_lowercase().contains("proxy-connection"),
        "{head:?}"
    );
    assert!(
        !head.to_lowercase().contains("proxy-authorization"),
        "{head:?}"
    );
    // The only Connection header is our forced close.
    assert_eq!(head.matches("Connection: close").count(), 1, "{head:?}");
    assert!(!head.contains("keep-alive"), "{head:?}");
}

#[test]
fn forward_synthesizes_host_when_absent() {
    // HTTP/1.0-style request with no Host header.
    let t = parse_request(b"GET http://example.org:8080/p HTTP/1.0\r\n\r\n").unwrap();
    let head = forward_head(t);
    assert!(head.contains("Host: example.org:8080\r\n"), "{head:?}");
}

#[test]
fn origin_form_to_proxy_is_error() {
    // A proxy can't act on an origin-form target — it has no host.
    assert!(parse_request(b"GET /path HTTP/1.1\r\nHost: example.com\r\n\r\n").is_err());
}

#[test]
fn malformed_request_line_is_error() {
    assert!(parse_request(b"GARBAGE\r\n\r\n").is_err());
    assert!(parse_request(b"GET\r\n\r\n").is_err());
}

#[test]
fn scheme_match_is_case_insensitive() {
    // RFC 3986 §3.1: the scheme is case-insensitive. `HTTP://` must parse.
    let t = parse_request(b"GET HTTP://example.com/ HTTP/1.1\r\nHost: example.com\r\n\r\n")
        .unwrap();
    match t {
        Target::Forward { host, port, .. } => {
            assert_eq!(host, "example.com");
            assert_eq!(port, 80);
        }
        _ => panic!("expected Forward"),
    }
}

#[test]
fn forward_preserves_non_utf8_path_bytes() {
    // A path with raw non-UTF-8 octets is legal (opaque per RFC 7230) and
    // must be forwarded verbatim, not rejected.
    let mut req = b"GET http://h/p".to_vec();
    req.extend_from_slice(&[0xff, 0xfe]); // non-UTF-8 in the path
    req.extend_from_slice(b" HTTP/1.1\r\nHost: h\r\n\r\n");
    let t = parse_request(&req).unwrap();
    match t {
        Target::Forward { rewritten_head, .. } => {
            assert!(
                rewritten_head.starts_with(b"GET /p\xff\xfe HTTP/1.1\r\n"),
                "head bytes: {rewritten_head:?}"
            );
        }
        _ => panic!("expected Forward"),
    }
}

#[test]
fn forward_preserves_non_utf8_header_value() {
    let mut req = b"GET http://h/ HTTP/1.1\r\nHost: h\r\nX-Weird: ".to_vec();
    req.extend_from_slice(&[0xff]); // non-UTF-8 header value
    req.extend_from_slice(b"\r\n\r\n");
    let t = parse_request(&req).unwrap();
    match t {
        Target::Forward { rewritten_head, .. } => {
            // The weird header survives byte-for-byte.
            assert!(
                rewritten_head.windows(11).any(|w| w == b"X-Weird: \xff\r"),
                "head bytes: {rewritten_head:?}"
            );
        }
        _ => panic!("expected Forward"),
    }
}

#[test]
fn connect_non_utf8_authority_is_error() {
    // The authority (host:port) is interpreted, so it must be valid text.
    assert!(parse_request(b"CONNECT \xff\xfe:443 HTTP/1.1\r\n\r\n").is_err());
}

#[test]
fn port_zero_is_rejected() {
    assert!(parse_request(b"CONNECT h:0 HTTP/1.1\r\n\r\n").is_err());
    assert!(parse_request(b"GET http://h:0/ HTTP/1.1\r\nHost: h\r\n\r\n").is_err());
}

#[test]
fn split_host_port_variants() {
    assert_eq!(split_host_port("h:80", None), Some(("h".into(), 80u16)));
    assert_eq!(split_host_port("h", Some(80)), Some(("h".into(), 80)));
    assert_eq!(split_host_port("h", None), None);
    assert_eq!(split_host_port("[::1]:5", None), Some(("::1".into(), 5)));
    assert_eq!(split_host_port("[::1]", Some(9)), Some(("::1".into(), 9)));
    assert_eq!(split_host_port("::1", None), None); // bare IPv6 must be bracketed
    assert_eq!(split_host_port("h:notaport", None), None);
    assert_eq!(split_host_port("h:0", None), None); // port 0 rejected
    assert_eq!(split_host_port("[::1]:0", None), None);
    assert_eq!(split_host_port("", Some(80)), None);
}

// ---------- Heads ----------

#[test]
fn read_head_splits_at_blank_line_and_keeps_body() {
    let mut reader = HeadReader::new();
    let step = reader.feed(b"GET http://x/ HTTP/1.1\r\nHost: x\r\n\r\nBODYBYTES");
    let len = match step {
        HeadStep::Complete(len) => len,
        other => panic!("expected a complete head, got {other:?}"),
    };
    let buf = reader.buf;
    assert!(buf[..len].ends_with(b"\r\n\r\n"));
    assert_eq!(&buf[len..], b"BODYBYTES");
}

#[test]
fn read_head_errors_on_premature_close() {
    let mut reader = HeadReader::new();
    assert_eq!(reader.feed(b"GET http://x/ HTTP/1.1\r\n"), HeadStep::More);
    assert_eq!(reader.feed(b""), HeadStep::Closed);
}

#[test]
fn blank_line_is_found_across_chunks() {
    let mut reader = HeadReader::new();
    assert_eq!(reader.feed(b"GET http://x/ HTTP/1.1\r\n\r"), HeadStep::More);
    assert_eq!(reader.feed(b"\nrest"), HeadStep::Complete(26));
    assert_eq!(&reader.buf[26..], b"rest");
}

#[test]
fn oversized_head_is_refused() {
    let mut reader = HeadReader::new();
    let chunk = vec![b'a'; MAX_HEAD_BYTES];
    assert_eq!(reader.feed(&chunk), HeadStep::More);
    assert_eq!(reader.feed(b"a"), HeadStep::TooLarge);
}

#[test]
fn head_lines_drop_their_line_ends() {
    let lines = head_lines(b"one\r\ntwo\n\r\n");
    assert_eq!(lines, vec![b"one" as &[u8], b"two", b"", b""]);
    assert_eq!(header_name(b"Host : x"), b"Host");
    assert_eq!(header_name(b"no colon"), b"no colon");
}

// ---------- Errors ----------

fn error_of(head: &[u8]) -> String {
    parse_request(head).err().unwrap().message()
}

#[test]
fn each_refusal_has_its_message() {
    assert!(matches!(
        parse_request(b"GARBAGE\r\n\r\n"),
        Err(HeadError::Malformed)
    ));
    assert!(matches!(
        parse_request(b" http://h/ HTTP/1.1\r\n\r\n"),
        Err(HeadError::EmptyMethod)
    ));
    assert!(matches!(
        parse_request(b"GET http://h/ SPDY/1\r\n\r\n"),
        Err(HeadError::Version)
    ));
    assert!(matches!(
        parse_request(b"CONNECT \xff:443 HTTP/1.1\r\n\r\n"),
        Err(HeadError::ConnectNotText)
    ));
    assert!(matches!(
        parse_request(b"CONNECT h HTTP/1.1\r\n\r\n"),
        Err(HeadError::BadConnect(t)) if t == "h"
    ));
    assert!(matches!(
        parse_request(b"GET /path HTTP/1.1\r\n\r\n"),
        Err(HeadError::NotAbsolute)
    ));
    assert!(matches!(
        parse_request(b"GET http://\xff/ HTTP/1.1\r\n\r\n"),
        Err(HeadError::AuthorityNotText)
    ));
    assert!(matches!(
        parse_request(b"GET http://h:0/ HTTP/1.1\r\n\r\n"),
        Err(HeadError::BadAuthority(t)) if t == "h:0"
    ));
}

#[test]
fn bad_targets_are_quoted() {
    assert!(error_of(b"CONNECT a\tb HTTP/1.1\r\n\r\n").contains("\"a\\tb\""));
    assert!(error_of(b"GET http://h:0/ HTTP/1.1\r\n\r\n").contains("\"h:0\""));
}

// ---------- Replies ----------

#[test]
fn status_reply_is_a_whole_response() {
    assert_eq!(
        status_reply(502, "Bad Gateway"),
        "HTTP/1.1 502 Bad Gateway\r\nConnection: close\r\nContent-Length: 0\r\n\r\n"
    );
}

#[test]
fn opening_sends_what_was_read_ahead() {
    let connect = parse_request(b"CONNECT h:443 HTTP/1.1\r\n\r\n").unwrap();
    let opening = connect.opening(b"early");
    assert_eq!(opening.to_client, CONNECT_REPLY.as_bytes().to_vec());
    assert_eq!(opening.to_target, b"early".to_vec());

    let forward = parse_request(b"POST http://h/ HTTP/1.1\r\nHost: h\r\n\r\n").unwrap();
    let opening = forward.opening(b"body");
    assert!(opening.to_client.is_empty());
    assert_eq!(
        opening.to_target,
        b"POST / HTTP/1.1\r\nHost: h\r\nConnection: close\r\n\r\nbody".to_vec()
    );
}

#[test]
fn forwarded_head_lines_are_the_clients() {
    let t = parse_request(
        b"GET http://h/x HTTP/1.1\r\nHost: h\r\nTE: trailers\r\nAccept: a\r\nAccept: b\r\n\r\n",
    )
    .unwrap();
    let head = forward_head(t);
    let lines = head_lines(head.as_bytes());
    assert_eq!(
        lines,
        vec![
            b"GET /x HTTP/1.1" as &[u8],
            b"Host: h",
            b"TE: trailers",
            b"Accept: a",
            b"Accept: b",
            b"Connection: close",
            b"",
            b"",
        ]
    );
}

// ---------- Whole connections ----------

#[test]
fn bad_requests_get_their_answer() {
    let mut exchange = Exchange::new();
    assert_eq!(exchange.feed(b"GET /path HTTP/1.1\r\n"), Move::Read);
    assert_eq!(
        exchange.feed(b"Host: h\r\n\r\n"),
        Move::Close {
            answer: status_reply(400, "Bad Request").into_bytes(),
            reason: "non-CONNECT request without absolute http:// URI".into(),
        }
    );
}

#[test]
fn early_ends_get_no_answer() {
    let mut exchange = Exchange::new();
    assert_eq!(exchange.feed(b"GET http"), Move::Read);
    assert_eq!(
        exchange.feed(b""),
        Move::Close {
            answer: vec![],
            reason: "client closed before completing request head".into(),
        }
    );
    let mut exchange = Exchange::new();
    let flood = vec![b'x'; MAX_HEAD_BYTES + 1];
    assert_eq!(
        exchange.feed(&flood),
        Move::Close {
            answer: vec![],
            reason: "HTTP request head exceeds 65536 bytes".into(),
        }
    );
}

#[test]
fn targets_are_tried_before_they_are_answered() {
    let mut exchange = Exchange::new();
    assert_eq!(
        exchange.feed(b"CONNECT h:443 HTTP/1.1\r\n\r\nhello"),
        Move::Dial { host: "h".into(), port: 443 }
    );
    match exchange.dialed(None) {
        Start::Bridge(opening) => {
            assert_eq!(opening.to_client, CONNECT_REPLY.as_bytes());
            assert_eq!(opening.to_target, b"hello");
        }
        Start::Close { reason, .. } => panic!("{reason}"),
    }
    match exchange.dialed(Some("unreachable")) {
        Start::Bridge(_) => panic!("expected an answer"),
        Start::Close { answer, reason } => {
            assert_eq!(answer, status_reply(502, "Bad Gateway").into_bytes());
            assert_eq!(reason, "open channel: unreachable");
        }
    }
}

#[test]
fn requests_may_come_in_pieces() {
    let whole = b"GET http://h/x HTTP/1.1\r\nHost: h\r\n\r\n";
    for cut in 1..whole.len() {
        let mut exchange = Exchange::new();
        assert_eq!(exchange.feed(&whole[..cut]), Move::Read);
        assert_eq!(
            exchange.feed(&whole[cut..]),
            Move::Dial { host: "h".into(), port: 80 }
        );
    }
}

#[test]
fn lines_after_connect_make_no_difference() {
    let bare = parse_request(b"CONNECT example.com:443 HTTP/1.1\r\n\r\n").unwrap();
    let full = parse_request(
        b"CONNECT example.com:443 HTTP/1.1\r\nHost: other\r\nProxy-Connection: x\r\n\r\n",
    );
    assert_eq!(full.unwrap(), bare);
}

#[test]
fn schemes_lead_no_connect_anywhere() {
    for scheme in ["http", "HTTP", "hTtP"] {
        let head = format!("CONNECT {scheme}://example.com:80 HTTP/1.1\r\n\r\n");
        assert!(parse_request(head.as_bytes()).is_err());
    }
}
