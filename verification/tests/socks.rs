use belka::socks::{
    dial_reply, reply, success_reply, Host, Phase, SocksError, REP_ADDR_TYPE_NOT_SUPPORTED,
    REP_COMMAND_NOT_SUPPORTED, REP_GENERAL_FAILURE, REP_HOST_UNREACHABLE,
};

/// Plays `input` as a client, and gives what was written to it, the phase at the
/// end, and whether the input was long enough.
fn play(input: &[u8]) -> (Vec<u8>, Phase, bool) {
    let mut phase = Phase::Greeting;
    let mut written = vec![];
    let mut at = 0;
    loop {
        if matches!(phase, Phase::Asked(..) | Phase::Failed(_)) {
            return (written, phase, true);
        }
        let n = phase.needed();
        if input.len() < at + n {
            return (written, phase, false);
        }
        written.extend(phase.feed(&input[at..at + n]));
        at += n;
    }
}

fn asked(input: &[u8]) -> (Host, u16) {
    match play(input).1 {
        Phase::Asked(host, port) => (host, port),
        other => panic!("expected a request, got {other:?}"),
    }
}

fn failure(input: &[u8]) -> (Vec<u8>, SocksError) {
    match play(input) {
        (written, Phase::Failed(error), _) => (written, error),
        other => panic!("expected an error, got {other:?}"),
    }
}

const GREETING: [u8; 3] = [0x05, 0x01, 0x00];

fn after_greeting(rest: &[u8]) -> Vec<u8> {
    let mut all = GREETING.to_vec();
    all.extend_from_slice(rest);
    all
}

#[test]
fn parses_ipv4_connect() {
    let request = after_greeting(&[0x05, 0x01, 0x00, 0x01, 1, 2, 3, 4, 0x01, 0xBB]);
    let (written, phase, _) = play(&request);
    assert_eq!(written, vec![0x05, 0x00]);
    assert_eq!(phase, Phase::Asked(Host::Name("1.2.3.4".into()), 443));
}

#[test]
fn parses_domain_connect() {
    let name = b"example.com";
    let mut request = after_greeting(&[0x05, 0x01, 0x00, 0x03, name.len() as u8]);
    request.extend_from_slice(name);
    request.extend_from_slice(&80u16.to_be_bytes());
    let (host, port) = asked(&request);
    assert_eq!(host, Host::Name("example.com".into()));
    assert_eq!(port, 80);
}

#[test]
fn parses_ipv6_connect() {
    let addr = [0x20, 0x01, 0x0d, 0xb8, 0, 0, 0, 0, 0, 0, 0, 0, 0, 0, 0, 1];
    let mut request = after_greeting(&[0x05, 0x01, 0x00, 0x04]);
    request.extend_from_slice(&addr);
    request.extend_from_slice(&8080u16.to_be_bytes());
    let (host, port) = asked(&request);
    assert_eq!(host, Host::V6(addr.to_vec()));
    assert_eq!(port, 8080);
}

#[test]
fn rejects_wrong_socks_version() {
    let (written, error) = failure(&[0x04, 0x01, 0x00]);
    assert!(written.is_empty());
    assert_eq!(error, SocksError::NotSocks5(4));
    let err = error.message();
    assert!(err.contains("not SOCKS5"), "got: {err}");
}

#[test]
fn rejects_no_acceptable_auth_method() {
    let (written, error) = failure(&[0x05, 0x01, 0x02]);
    assert_eq!(written, vec![0x05, 0xFF]);
    let err = error.message();
    assert!(err.contains("acceptable auth method"), "got: {err}");
}

#[test]
fn rejects_bind_command() {
    let (written, error) = failure(&after_greeting(&[0x05, 0x02, 0x00, 0x01, 0, 0, 0, 0, 0, 80]));
    assert_eq!(written.len(), 12);
    assert_eq!(written[2], 0x05);
    assert_eq!(written[3], REP_COMMAND_NOT_SUPPORTED);
    let err = error.message();
    assert!(err.contains("unsupported command"), "got: {err}");
}

#[test]
fn rejects_unknown_atyp() {
    let (written, error) = failure(&after_greeting(&[0x05, 0x01, 0x00, 0x09]));
    assert_eq!(written[3], REP_ADDR_TYPE_NOT_SUPPORTED);
    let err = error.message();
    assert!(err.contains("unsupported atyp"), "got: {err}");
}

#[test]
fn rejects_zero_length_domain() {
    let (written, error) = failure(&after_greeting(&[0x05, 0x01, 0x00, 0x03, 0x00]));
    assert_eq!(written[2], 0x05);
    assert_eq!(written[3], REP_GENERAL_FAILURE);
    let err = error.message();
    assert!(err.contains("empty hostname"), "got: {err}");
}

#[test]
fn rejects_non_utf8_domain() {
    let mut request = after_greeting(&[0x05, 0x01, 0x00, 0x03, 0x03, b'a', 0xFF, b'b']);
    request.extend_from_slice(&80u16.to_be_bytes());
    let (_, error) = failure(&request);
    let err = error.message();
    assert!(err.contains("hostname"), "got: {err}");
}

#[test]
fn truncated_request_is_an_error_not_a_panic() {
    let (_, phase, complete) = play(&after_greeting(&[0x05, 0x01, 0x00, 0x01]));
    assert!(!complete);
    assert_eq!(phase, Phase::V4);
    assert_eq!(phase.needed(), 6);
}

#[test]
fn rejects_wrong_request_version() {
    let (written, error) = failure(&after_greeting(&[0x04, 0x01, 0x00, 0x01]));
    assert_eq!(written, vec![0x05, 0x00]);
    assert_eq!(error, SocksError::BadVersion);
    assert_eq!(error.message(), "bad request version");
}

#[test]
fn rejects_port_zero() {
    let (written, error) = failure(&after_greeting(&[0x05, 0x01, 0x00, 0x01, 1, 2, 3, 4, 0, 0]));
    assert_eq!(error, SocksError::PortZero);
    assert_eq!(written[3], REP_GENERAL_FAILURE);
}

#[test]
fn a_method_may_stand_anywhere_in_the_list() {
    let mut request = vec![0x05, 0x03, 0x02, 0x01, 0x00];
    request.extend_from_slice(&[0x05, 0x01, 0x00, 0x01, 10, 0, 0, 255, 0x00, 0x16]);
    assert_eq!(asked(&request), (Host::Name("10.0.0.255".into()), 22));
}

#[test]
fn replies_are_ten_bytes() {
    assert_eq!(reply(REP_HOST_UNREACHABLE), vec![5, 4, 0, 1, 0, 0, 0, 0, 0, 0]);
    // An error is never answered with the code for success.
    assert_eq!(reply(0), vec![5, 1, 0, 1, 0, 0, 0, 0, 0, 0]);
    assert_eq!(success_reply(), vec![5, 0, 0, 1, 0, 0, 0, 0, 0, 0]);
    assert_eq!(dial_reply(true), success_reply());
    assert_eq!(dial_reply(false), reply(REP_HOST_UNREACHABLE));
}
