//! The HTTP proxy: request heads, where they lead, and what is sent on.

use crate::bytes::{
    alike, eq_ignore_ascii_case, extend, find_byte, find_subslice, stands, trim_ascii,
    trimmed_back, trimmed_front,
};
use crate::numbers::{all_digits, decimal, decimal_text, is_digit, parse_u16, parsed_number};
use crate::text::{
    after_last, chars_of, concat2, find_char, index_from, is_space, len_to, lemma_after_last,
    lemma_encode_concat, lemma_index_from, lemma_len_to, lemma_len_to_at, quoted, quoted_text, stands_at,
    string_from_utf8, string_of, take_after_last, trim, trim_end_by, trim_start_by, trimmed,
};
use vstd::prelude::*;
use vstd::slice::*;
use vstd::string::*;
use vstd::utf8::*;

verus! {

/// Seconds that a client has to send the request head.
pub const HANDSHAKE_SECONDS: u64 = 10;

/// Most bytes that are read while the end of a request head is looked for.
pub const MAX_HEAD_BYTES: usize = 65536;

/// The answer to `CONNECT` once the way is open.
pub const CONNECT_REPLY: &'static str = "HTTP/1.1 200 Connection Established\r\n\r\n";

// ---------- Lines and headers ----------

/// A line without the carriage return at its end.
pub open spec fn bare_line(s: Seq<u8>) -> Seq<u8> {
    if s.len() > 0 && s.last() == 13 {
        s.drop_last()
    } else {
        s
    }
}

/// The lines of a head: what stands between line breaks, without the carriage
/// returns in front of them.
pub open spec fn line_parts(s: Seq<u8>) -> Seq<Seq<u8>>
    decreases s.len(),
{
    let n = len_to(s, 10u8) as int;
    if n >= s.len() {
        seq![bare_line(s)]
    } else {
        seq![bare_line(s.take(n))] + line_parts(s.skip(n + 1))
    }
}

/// What byte slices hold.
pub open spec fn contents(v: Seq<&[u8]>) -> Seq<Seq<u8>> {
    Seq::new(v.len(), |i: int| v[i]@)
}

fn strip_cr(s: &[u8]) -> (out: &[u8])
    ensures
        out@ == bare_line(s@),
{
    if s.len() > 0 && s[s.len() - 1] == 13 {
        let out = slice_subrange(s, 0, s.len() - 1);
        assert(out@ =~= s@.drop_last());
        out
    } else {
        s
    }
}

/// Splits a head into its lines; a lone line feed ends a line as well.
pub fn head_lines<'a>(head: &'a [u8]) -> (out: Vec<&'a [u8]>)
    ensures
        contents(out@) == line_parts(head@),
{
    let mut out: Vec<&'a [u8]> = Vec::new();
    let mut rest: &'a [u8] = head;
    assert(contents(out@) + line_parts(rest@) =~= line_parts(head@));
    loop
        invariant_except_break
            contents(out@) + line_parts(rest@) == line_parts(head@),
        ensures
            contents(out@) == line_parts(head@),
        decreases rest.len(),
    {
        let ghost before = contents(out@);
        let n: usize = find_byte(rest, 10);
        let line = slice_subrange(rest, 0, n);
        assert(line@ =~= rest@.take(n as int));
        let line = strip_cr(line);
        out.push(line);
        assert(contents(out@) =~= before.push(line@));
        if n == rest.len() {
            assert(rest@.take(n as int) =~= rest@);
            assert(contents(out@) =~= before + seq![line@]);
            break ;
        }
        let next = slice_subrange(rest, n + 1, rest.len());
        assert(next@ =~= rest@.skip(n + 1));
        assert(contents(out@) + line_parts(next@) =~= before + (seq![line@] + line_parts(next@)));
        rest = next;
    }
    out
}

/// The name of a header: what stands in front of the first colon, without the
/// white space around it.
pub open spec fn name_of(line: Seq<u8>) -> Seq<u8> {
    trimmed_back(trimmed_front(line.take(len_to(line, 58u8) as int)))
}

/// The name of the header in a line; the whole line where there is no colon.
pub fn header_name(line: &[u8]) -> (out: &[u8])
    ensures
        out@ == name_of(line@),
{
    let end: usize = find_byte(line, 58);
    let name = slice_subrange(line, 0, end);
    assert(name@ =~= line@.take(end as int));
    trim_ascii(name)
}

/// Headers that concern the proxy alone.
pub open spec fn is_hop_header(line: Seq<u8>) -> bool {
    ||| alike(name_of(line), encode_utf8("proxy-connection"@))
    ||| alike(name_of(line), encode_utf8("proxy-authorization"@))
    ||| alike(name_of(line), encode_utf8("connection"@))
}

pub open spec fn is_host_header(line: Seq<u8>) -> bool {
    alike(name_of(line), encode_utf8("host"@))
}

/// The lines in front of the first empty one.
pub open spec fn headers(lines: Seq<Seq<u8>>) -> Seq<Seq<u8>>
    decreases lines.len(),
{
    if lines.len() == 0 || lines[0].len() == 0 {
        Seq::empty()
    } else {
        seq![lines[0]] + headers(lines.drop_first())
    }
}

/// The headers that are sent on.
pub open spec fn kept(headers: Seq<Seq<u8>>) -> Seq<Seq<u8>> {
    headers.filter(|line: Seq<u8>| !is_hop_header(line))
}

/// One of the headers names the host.
pub open spec fn names_host(headers: Seq<Seq<u8>>) -> bool {
    exists|i: int| 0 <= i < headers.len() && is_host_header(#[trigger] headers[i])
}

/// Lines, each with its line break.
pub open spec fn written(lines: Seq<Seq<u8>>) -> Seq<u8>
    decreases lines.len(),
{
    if lines.len() == 0 {
        Seq::empty()
    } else {
        written(lines.drop_last()) + lines.last() + seq![13u8, 10u8]
    }
}

// ---------- Host and port ----------

/// A port: a number from 1 to 65535.
pub open spec fn port_number(s: Seq<char>) -> Option<u16> {
    match parsed_number(s, u16::MAX as nat) {
        Some(n) => if n == 0 {
            None
        } else {
            Some(n as u16)
        },
        None => None,
    }
}

fn parse_port(s: &str) -> (res: Option<u16>)
    ensures
        res == port_number(s@),
{
    match parse_u16(s) {
        Some(p) => {
            if p == 0 {
                None
            } else {
                Some(p)
            }
        },
        None => None,
    }
}

pub open spec fn with_port(host: Seq<char>, port: Option<u16>) -> Option<(Seq<char>, u16)> {
    match port {
        Some(p) => Some((host, p)),
        None => None,
    }
}

/// The host and the port of an authority: `host`, `host:port`, `[v6]` or
/// `[v6]:port`. Without a port the default is taken, if there is one.
pub open spec fn host_port(s: Seq<char>, default_port: Option<u16>) -> Option<(Seq<char>, u16)> {
    let t = trimmed(s);
    if t.len() == 0 {
        None
    } else if t[0] == '[' {
        let rest = t.skip(1);
        let close = len_to(rest, ']') as int;
        let after = rest.skip(close + 1);
        if close == rest.len() || close == 0 {
            None
        } else if after.len() == 0 {
            with_port(rest.take(close), default_port)
        } else if after[0] == ':' {
            with_port(rest.take(close), port_number(after.skip(1)))
        } else {
            None
        }
    } else {
        let colon = len_to(t, ':') as int;
        if colon == t.len() {
            with_port(t, default_port)
        } else if colon == 0 || t.skip(colon + 1).contains(':') {
            None
        } else {
            with_port(t.take(colon), port_number(t.skip(colon + 1)))
        }
    }
}

/// Splits an authority into host and port. A port of zero is refused.
pub fn split_host_port(s: &str, default_port: Option<u16>) -> (res: Option<(String, u16)>)
    ensures
        match (res, host_port(s@, default_port)) {
            (Some((host, port)), Some((wanted, number))) => host@ == wanted && port == number,
            (None, None) => true,
            _ => false,
        },
{
    let t = trim(s);
    let chars = chars_of(t.as_str());
    if chars.len() == 0 {
        return None;
    }
    if chars[0] == '[' {
        let ghost rest = t@.skip(1);
        let close: usize = find_char(&chars, 1, ']');
        if close == chars.len() || close == 1 {
            return None;
        }
        let host = string_of(&chars[1..close]);
        assert(host@ =~= rest.take(close - 1));
        let ghost after = rest.skip(close as int);
        assert(after =~= t@.skip(close + 1));
        if close + 1 == chars.len() {
            return match default_port {
                Some(port) => Some((host, port)),
                None => None,
            };
        }
        assert(after[0] == chars@[close + 1]);
        if chars[close + 1] != ':' {
            return None;
        }
        let text = string_of(&chars[close + 2..chars.len()]);
        assert(text@ =~= after.skip(1));
        return match parse_port(text.as_str()) {
            Some(port) => Some((host, port)),
            None => None,
        };
    }
    assert(t@.skip(0) =~= t@);
    let colon: usize = find_char(&chars, 0, ':');
    if colon == chars.len() {
        return match default_port {
            Some(port) => Some((t, port)),
            None => None,
        };
    }
    let ghost after = t@.skip(colon + 1);
    let second: usize = find_char(&chars, colon + 1, ':');
    proof {
        lemma_len_to(after, ':');
        if second < chars.len() {
            assert(after[second - colon - 1] == ':');
        }
    }
    if colon == 0 || second < chars.len() {
        return None;
    }
    assert(!after.contains(':'));
    let host = string_of(&chars[0..colon]);
    assert(host@ =~= t@.take(colon as int));
    let text = string_of(&chars[colon + 1..chars.len()]);
    assert(text@ =~= after);
    match parse_port(text.as_str()) {
        Some(port) => Some((host, port)),
        None => None,
    }
}

// ---------- Requests ----------

/// What is wrong with a request, as text.
pub enum Refusal {
    Malformed,
    EmptyMethod,
    Version,
    ConnectNotText,
    BadConnect(Seq<char>),
    NotAbsolute,
    AuthorityNotText,
    BadAuthority(Seq<char>),
}

/// What is wrong with a request.
#[derive(Debug)]
pub enum HeadError {
    /// The request line does not have three parts.
    Malformed,
    EmptyMethod,
    Version,
    ConnectNotText,
    BadConnect(String),
    NotAbsolute,
    AuthorityNotText,
    BadAuthority(String),
}

impl View for HeadError {
    type V = Refusal;

    open spec fn view(&self) -> Refusal {
        match *self {
            HeadError::Malformed => Refusal::Malformed,
            HeadError::EmptyMethod => Refusal::EmptyMethod,
            HeadError::Version => Refusal::Version,
            HeadError::ConnectNotText => Refusal::ConnectNotText,
            HeadError::BadConnect(s) => Refusal::BadConnect(s@),
            HeadError::NotAbsolute => Refusal::NotAbsolute,
            HeadError::AuthorityNotText => Refusal::AuthorityNotText,
            HeadError::BadAuthority(s) => Refusal::BadAuthority(s@),
        }
    }
}

/// The message of a refusal.
pub open spec fn refusal_text(r: Refusal) -> Seq<char> {
    match r {
        Refusal::Malformed => "malformed request line"@,
        Refusal::EmptyMethod => "empty method"@,
        Refusal::Version => "unsupported HTTP version"@,
        Refusal::ConnectNotText => "CONNECT target not utf8"@,
        Refusal::BadConnect(s) => "bad CONNECT target "@ + quoted(s),
        Refusal::NotAbsolute => "non-CONNECT request without absolute http:// URI"@,
        Refusal::AuthorityNotText => "authority not utf8"@,
        Refusal::BadAuthority(s) => "bad authority "@ + quoted(s),
    }
}

impl HeadError {
    /// The message of the error.
    pub fn message(&self) -> (out: String)
        ensures
            out@ == refusal_text(self@),
    {
        match self {
            HeadError::Malformed => "malformed request line".to_owned(),
            HeadError::EmptyMethod => "empty method".to_owned(),
            HeadError::Version => "unsupported HTTP version".to_owned(),
            HeadError::ConnectNotText => "CONNECT target not utf8".to_owned(),
            HeadError::BadConnect(s) => {
                concat2("bad CONNECT target ", quoted_text(s.as_str()).as_str())
            },
            HeadError::NotAbsolute => "non-CONNECT request without absolute http:// URI".to_owned(),
            HeadError::AuthorityNotText => "authority not utf8".to_owned(),
            HeadError::BadAuthority(s) => {
                concat2("bad authority ", quoted_text(s.as_str()).as_str())
            },
        }
    }
}

/// Where a request leads, as text.
pub enum Aim {
    Connect(Seq<char>, u16),
    Forward(Seq<char>, u16, Seq<u8>),
}

/// Where a request leads.
#[derive(Debug, PartialEq, Eq)]
pub enum Target {
    /// `CONNECT host:port`: bytes are passed on as they are.
    Connect { host: String, port: u16 },
    /// Plain HTTP: the head that is sent to the origin server.
    Forward { host: String, port: u16, rewritten_head: Vec<u8> },
}

impl View for Target {
    type V = Aim;

    open spec fn view(&self) -> Aim {
        match *self {
            Target::Connect { host, port } => Aim::Connect(host@, port),
            Target::Forward { host, port, rewritten_head } => Aim::Forward(
                host@,
                port,
                rewritten_head@,
            ),
        }
    }
}

/// The request line and the headers that the origin server gets: the path in
/// place of the address, the headers that do not concern the proxy, the host where
/// none was named, and that the connection is closed afterwards.
pub open spec fn origin_head(
    method: Seq<u8>,
    path: Seq<u8>,
    authority: Seq<char>,
    headers: Seq<Seq<u8>>,
) -> Seq<u8> {
    method + encode_utf8(" "@) + path + encode_utf8(" HTTP/1.1\r\n"@) + written(kept(headers)) + (
    if names_host(headers) {
        Seq::empty()
    } else {
        encode_utf8("Host: "@) + encode_utf8(authority) + encode_utf8("\r\n"@)
    }) + encode_utf8("Connection: close\r\n\r\n"@)
}

pub open spec fn connect_request(target: Seq<u8>) -> Result<Aim, Refusal> {
    if !valid_utf8(target) {
        Err(Refusal::ConnectNotText)
    } else {
        match host_port(decode_utf8(target), None) {
            None => Err(Refusal::BadConnect(decode_utf8(target))),
            Some((host, port)) => Ok(Aim::Connect(host, port)),
        }
    }
}

/// The path of a target: what stands from the first slash on, or `/`.
pub open spec fn path_of(rest: Seq<u8>) -> Seq<u8> {
    let slash = len_to(rest, 47u8) as int;
    if slash < rest.len() {
        rest.skip(slash)
    } else {
        encode_utf8("/"@)
    }
}

pub open spec fn forward_request(method: Seq<u8>, target: Seq<u8>, lines: Seq<Seq<u8>>) -> Result<
    Aim,
    Refusal,
> {
    let rest = target.skip(7);
    let authority = rest.take(len_to(rest, 47u8) as int);
    if target.len() < 7 || !alike(target.take(7), encode_utf8("http://"@)) {
        Err(Refusal::NotAbsolute)
    } else if !valid_utf8(authority) {
        Err(Refusal::AuthorityNotText)
    } else {
        let name = after_last(decode_utf8(authority), '@');
        match host_port(name, Some(80)) {
            None => Err(Refusal::BadAuthority(name)),
            Some((host, port)) => Ok(
                Aim::Forward(host, port, origin_head(method, path_of(rest), name, headers(lines))),
            ),
        }
    }
}

/// Where the request with this head leads, or why it is refused.
pub open spec fn request(head: Seq<u8>) -> Result<Aim, Refusal> {
    let lines = line_parts(head);
    let first = lines[0];
    let a = len_to(first, 32u8) as int;
    let tail = first.skip(a + 1);
    let b = len_to(tail, 32u8) as int;
    if a >= first.len() || b >= tail.len() {
        Err(Refusal::Malformed)
    } else if a == 0 {
        Err(Refusal::EmptyMethod)
    } else if !stands_at(tail.skip(b + 1), encode_utf8("HTTP/"@), 0) {
        Err(Refusal::Version)
    } else if alike(first.take(a), encode_utf8("CONNECT"@)) {
        connect_request(tail.take(b))
    } else {
        forward_request(first.take(a), tail.take(b), lines.drop_first())
    }
}

pub open spec fn aims(res: Result<Target, HeadError>, wanted: Result<Aim, Refusal>) -> bool {
    match (res, wanted) {
        (Ok(t), Ok(a)) => t@ == a,
        (Err(e), Err(r)) => e@ == r,
        _ => false,
    }
}

/// The text of bytes that are valid UTF-8.
fn text_of(bytes: &[u8]) -> (res: Option<String>)
    ensures
        match res {
            Some(s) => valid_utf8(bytes@) && s@ == decode_utf8(bytes@),
            None => !valid_utf8(bytes@),
        },
{
    let res = string_from_utf8(slice_to_vec(bytes));
    proof {
        if res is Some {
            encode_utf8_valid_utf8(res->0@);
            encode_utf8_decode_utf8(res->0@);
        }
    }
    res
}

fn parse_connect(target: &[u8]) -> (res: Result<Target, HeadError>)
    ensures
        aims(res, connect_request(target@)),
{
    let text = match text_of(target) {
        Some(text) => text,
        None => {
            return Err(HeadError::ConnectNotText);
        },
    };
    match split_host_port(text.as_str(), None) {
        Some((host, port)) => Ok(Target::Connect { host, port }),
        None => Err(HeadError::BadConnect(text)),
    }
}

/// The lines behind the request line that are headers to be sent on.
struct Headers {
    block: Vec<u8>,
    have_host: bool,
}

pub proof fn lemma_kept_push(list: Seq<Seq<u8>>, line: Seq<u8>)
    ensures
        written(kept(list.push(line))) == if is_hop_header(line) {
            written(kept(list))
        } else {
            written(kept(list)) + line + seq![13u8, 10u8]
        },
        names_host(list.push(line)) == (names_host(list) || is_host_header(line)),
{
    let f = |line: Seq<u8>| !is_hop_header(line);
    reveal(Seq::filter);
    assert(list.push(line).drop_last() =~= list);
    if !is_hop_header(line) {
        assert(kept(list.push(line)) =~= kept(list).push(line));
        assert(kept(list).push(line).drop_last() =~= kept(list));
    }
    if names_host(list) {
        let i = choose|i: int| 0 <= i < list.len() && is_host_header(#[trigger] list[i]);
        assert(is_host_header(list.push(line)[i]));
    }
    if is_host_header(line) {
        assert(is_host_header(list.push(line)[list.len() as int]));
    }
    if names_host(list.push(line)) {
        let i = choose|i: int|
            0 <= i < list.push(line).len() && is_host_header(#[trigger] list.push(line)[i]);
        if i < list.len() {
            assert(is_host_header(list[i]));
        }
    }
}

fn forward_headers(lines: &Vec<&[u8]>) -> (out: Headers)
    requires
        lines.len() > 0,
    ensures
        out.block@ == written(kept(headers(contents(lines@).drop_first()))),
        out.have_host == names_host(headers(contents(lines@).drop_first())),
{
    let ghost all = contents(lines@).drop_first();
    let ghost mut done: Seq<Seq<u8>> = Seq::empty();
    let mut block: Vec<u8> = Vec::new();
    let mut have_host = false;
    let mut i: usize = 1;
    proof {
        reveal(Seq::filter);
        assert(kept(done) =~= Seq::empty());
        assert(all.skip(0) =~= all);
        assert(done + headers(all.skip(0)) =~= headers(all));
    }
    while i < lines.len()
        invariant
            1 <= i <= lines.len(),
            all == contents(lines@).drop_first(),
            headers(all) == done + headers(all.skip(i - 1)),
            block@ == written(kept(done)),
            have_host == names_host(done),
        decreases lines.len() - i,
    {
        let line = lines[i];
        let ghost rest = all.skip(i - 1);
        assert(rest[0] == line@);
        assert(rest.drop_first() =~= all.skip(i as int));
        if line.len() == 0 {
            assert(done + headers(rest) =~= done);
            return Headers { block, have_host };
        }
        proof {
            lemma_kept_push(done, line@);
            assert(done + (seq![line@] + headers(all.skip(i as int))) =~= done.push(line@)
                + headers(all.skip(i as int)));
            done = done.push(line@);
        }
        let name = header_name(line);
        let hop = eq_ignore_ascii_case(name, "proxy-connection".as_bytes())
            || eq_ignore_ascii_case(name, "proxy-authorization".as_bytes())
            || eq_ignore_ascii_case(name, "connection".as_bytes());
        if eq_ignore_ascii_case(name, "host".as_bytes()) {
            have_host = true;
        }
        if !hop {
            let ghost before = block@;
            extend(&mut block, line);
            block.push(13);
            block.push(10);
            assert(block@ =~= before + line@ + seq![13u8, 10u8]);
        }
        i = i + 1;
    }
    assert(all.skip(i - 1) =~= Seq::empty());
    assert(done + headers(all.skip(i - 1)) =~= done);
    Headers { block, have_host }
}

fn parse_forward(method: &[u8], target: &[u8], lines: &Vec<&[u8]>) -> (res: Result<
    Target,
    HeadError,
>)
    requires
        lines.len() > 0,
    ensures
        aims(res, forward_request(method@, target@, contents(lines@).drop_first())),
{
    if target.len() < 7 {
        return Err(HeadError::NotAbsolute);
    }
    let scheme = slice_subrange(target, 0, 7);
    assert(scheme@ =~= target@.take(7));
    if !eq_ignore_ascii_case(scheme, "http://".as_bytes()) {
        return Err(HeadError::NotAbsolute);
    }
    let rest = slice_subrange(target, 7, target.len());
    assert(rest@ =~= target@.skip(7));
    let slash: usize = find_byte(rest, 47);
    let authority = slice_subrange(rest, 0, slash);
    assert(authority@ =~= rest@.take(slash as int));
    let text = match text_of(authority) {
        Some(text) => text,
        None => {
            return Err(HeadError::AuthorityNotText);
        },
    };
    let name = take_after_last(text.as_str(), '@');
    let (host, port) = match split_host_port(name.as_str(), Some(80)) {
        Some(found) => found,
        None => {
            return Err(HeadError::BadAuthority(name));
        },
    };
    let mut out: Vec<u8> = slice_to_vec(method);
    extend(&mut out, " ".as_bytes());
    if slash < rest.len() {
        let path = slice_subrange(rest, slash, rest.len());
        assert(path@ =~= rest@.skip(slash as int));
        extend(&mut out, path);
    } else {
        extend(&mut out, "/".as_bytes());
    }
    extend(&mut out, " HTTP/1.1\r\n".as_bytes());
    let found = forward_headers(lines);
    extend(&mut out, found.block.as_slice());
    let ghost so_far = out@;
    if !found.have_host {
        extend(&mut out, "Host: ".as_bytes());
        extend(&mut out, name.as_str().as_bytes());
        extend(&mut out, "\r\n".as_bytes());
        assert(out@ =~= so_far + (encode_utf8("Host: "@) + encode_utf8(name@) + encode_utf8(
            "\r\n"@,
        )));
    } else {
        assert(out@ =~= so_far + Seq::<u8>::empty());
    }
    extend(&mut out, "Connection: close\r\n\r\n".as_bytes());
    Ok(Target::Forward { host, port, rewritten_head: out })
}

/// Reads a request head: everything up to and with the empty line.
pub fn parse_request(head: &[u8]) -> (res: Result<Target, HeadError>)
    ensures
        aims(res, request(head@)),
{
    let lines = head_lines(head);
    proof {
        reveal_with_fuel(line_parts, 1);
        assert(contents(lines@).len() > 0);
    }
    let first = lines[0];
    assert(contents(lines@)[0] == first@);
    let a: usize = find_byte(first, 32);
    if a == first.len() {
        return Err(HeadError::Malformed);
    }
    let method = slice_subrange(first, 0, a);
    assert(method@ =~= first@.take(a as int));
    let tail = slice_subrange(first, a + 1, first.len());
    assert(tail@ =~= first@.skip(a + 1));
    let b: usize = find_byte(tail, 32);
    if b == tail.len() {
        return Err(HeadError::Malformed);
    }
    let target = slice_subrange(tail, 0, b);
    assert(target@ =~= tail@.take(b as int));
    let version = slice_subrange(tail, b + 1, tail.len());
    assert(version@ =~= tail@.skip(b + 1));
    if method.len() == 0 {
        return Err(HeadError::EmptyMethod);
    }
    if !stands(version, "HTTP/".as_bytes(), 0) {
        return Err(HeadError::Version);
    }
    if eq_ignore_ascii_case(method, "CONNECT".as_bytes()) {
        return parse_connect(target);
    }
    parse_forward(method, target, &lines)
}

// ---------- Reading a head ----------

/// The end of a head.
pub open spec fn head_end() -> Seq<u8> {
    seq![13u8, 10u8, 13u8, 10u8]
}

/// What has been read of a request so far.
pub struct HeadReader {
    pub buf: Vec<u8>,
}

/// What comes of a read.
#[derive(Debug, PartialEq, Eq)]
pub enum HeadStep {
    /// The end of the head has not been seen.
    More,
    /// The head ends in front of this place.
    Complete(usize),
    /// The client closed the connection.
    Closed,
    /// The end did not come in time.
    TooLarge,
}

proof fn lemma_index_skip<T>(s: Seq<T>, pat: Seq<T>, i: int, k: int)
    requires
        0 <= i <= k,
        forall|j: int| i <= j < k ==> !stands_at(s, pat, j),
    ensures
        index_from(s, pat, i) == index_from(s, pat, k),
    decreases k - i,
{
    if i < k {
        assert(!stands_at(s, pat, i));
        if i + pat.len() <= s.len() {
            lemma_index_skip(s, pat, i + 1, k);
        }
    }
}

impl HeadReader {
    /// More is to be read: the end of the head is not there yet.
    pub open spec fn is_open(&self) -> bool {
        index_from(self.buf@, head_end(), 0) is None && self.buf.len() <= MAX_HEAD_BYTES
    }

    pub fn new() -> (out: HeadReader)
        ensures
            out.buf@ == Seq::<u8>::empty(),
            out.is_open(),
    {
        HeadReader { buf: Vec::new() }
    }

    /// Takes in what was read; nothing where the client has closed.
    pub fn feed(&mut self, chunk: &[u8]) -> (step: HeadStep)
        requires
            old(self).is_open(),
        ensures
            final(self).buf@ == old(self).buf@ + chunk@,
            chunk@.len() == 0 ==> step == HeadStep::Closed,
            chunk@.len() > 0 && final(self).buf@.len() > MAX_HEAD_BYTES ==> step
                == HeadStep::TooLarge,
            chunk@.len() > 0 && final(self).buf@.len() <= MAX_HEAD_BYTES ==> match index_from(
                final(self).buf@,
                head_end(),
                0,
            ) {
                Some(k) => step == HeadStep::Complete((k + 4) as usize) && k + 4
                    <= final(self).buf@.len(),
                None => step == HeadStep::More && final(self).is_open(),
            },
    {
        let ghost before = self.buf@;
        let searched: usize = self.buf.len();
        extend(&mut self.buf, chunk);
        if chunk.len() == 0 {
            return HeadStep::Closed;
        }
        if self.buf.len() > MAX_HEAD_BYTES {
            return HeadStep::TooLarge;
        }
        let start: usize = if searched < 3 {
            0
        } else {
            searched - 3
        };
        proof {
            lemma_index_from(before, head_end(), 0);
            assert forall|j: int| 0 <= j < start implies !stands_at(self.buf@, head_end(), j) by {
                if stands_at(self.buf@, head_end(), j) {
                    assert(before.subrange(j, j + 4) =~= self.buf@.subrange(j, j + 4));
                    assert(stands_at(before, head_end(), j));
                }
            }
            lemma_index_skip(self.buf@, head_end(), 0, start as int);
        }
        let end: [u8; 4] = [13, 10, 13, 10];
        assert(end@ =~= head_end());
        match find_subslice(self.buf.as_slice(), &end, start) {
            Some(i) => HeadStep::Complete(i + 4),
            None => HeadStep::More,
        }
    }
}

// ---------- Answers ----------

pub open spec fn status_text(code: u16, reason: Seq<char>) -> Seq<char> {
    "HTTP/1.1 "@ + decimal(code as nat) + " "@ + reason
        + "\r\nConnection: close\r\nContent-Length: 0\r\n\r\n"@
}

/// An answer of the proxy itself, without a body.
pub fn status_reply(code: u16, reason: &str) -> (out: String)
    ensures
        out@ == status_text(code, reason@),
{
    let mut out = "HTTP/1.1 ".to_owned();
    out.append(decimal_text(code as u64).as_str());
    out.append(" ");
    out.append(reason);
    out.append("\r\nConnection: close\r\nContent-Length: 0\r\n\r\n");
    out
}

/// What is sent first, once the way to the target is open.
pub struct Opening {
    pub to_client: Vec<u8>,
    pub to_target: Vec<u8>,
}

impl Target {
    /// What is sent once the way is open: to the client that it is, to the target
    /// the head and what the client has sent behind it.
    pub fn opening(&self, leftover: &[u8]) -> (out: Opening)
        ensures
            match self@ {
                Aim::Connect(_, _) => out.to_client@ == encode_utf8(CONNECT_REPLY@)
                    && out.to_target@ == leftover@,
                Aim::Forward(_, _, head) => out.to_client@ == Seq::<u8>::empty()
                    && out.to_target@ == head + leftover@,
            },
    {
        match self {
            Target::Connect { .. } => Opening {
                to_client: slice_to_vec(CONNECT_REPLY.as_bytes()),
                to_target: slice_to_vec(leftover),
            },
            Target::Forward { rewritten_head, .. } => {
                let mut to_target: Vec<u8> = slice_to_vec(rewritten_head.as_slice());
                extend(&mut to_target, leftover);
                Opening { to_client: Vec::new(), to_target }
            },
        }
    }
}

// ---------- Laws ----------

pub proof fn lemma_len_to_concat(a: Seq<u8>, b: Seq<u8>, c: u8)
    requires
        !a.contains(c),
    ensures
        len_to(a + b, c) == a.len() + len_to(b, c),
    decreases a.len(),
{
    if a.len() == 0 {
        assert(a + b =~= b);
    } else {
        assert(a[0] != c);
        assert((a + b).drop_first() =~= a.drop_first() + b);
        assert forall|i: int| 0 <= i < a.drop_first().len() implies a.drop_first()[i] != c by {
            assert(a[i + 1] == a.drop_first()[i]);
        }
        lemma_len_to_concat(a.drop_first(), b, c);
    }
}

/// A line that is written is the first line that is read.
pub proof fn lemma_first_line(line: Seq<u8>, rest: Seq<u8>)
    requires
        !line.contains(10u8),
    ensures
        line_parts(line + seq![13u8, 10u8] + rest) == seq![line] + line_parts(rest),
{
    let s = line + seq![13u8, 10u8] + rest;
    let head = line.push(13);
    assert forall|i: int| 0 <= i < head.len() implies head[i] != 10u8 by {
        if i < line.len() {
            assert(line[i] != 10u8);
        }
    }
    lemma_len_to_concat(head, seq![10u8] + rest, 10u8);
    assert(s =~= head + (seq![10u8] + rest));
    assert(len_to(seq![10u8] + rest, 10u8) == 0);
    let n = head.len() as int;
    assert(s.take(n) =~= head);
    assert(s.skip(n + 1) =~= rest);
    assert(bare_line(head) =~= line);
}

pub proof fn lemma_written_lines(lines: Seq<Seq<u8>>, rest: Seq<u8>)
    requires
        forall|i: int| 0 <= i < lines.len() ==> !(#[trigger] lines[i]).contains(10u8),
    ensures
        line_parts(written(lines) + rest) == lines + line_parts(rest),
    decreases lines.len(),
{
    if lines.len() == 0 {
        assert(written(lines) + rest =~= rest);
        assert(lines + line_parts(rest) =~= line_parts(rest));
    } else {
        let last = lines.last();
        let tail = last + seq![13u8, 10u8] + rest;
        assert forall|i: int| 0 <= i < lines.drop_last().len() implies !(
        #[trigger] lines.drop_last()[i]).contains(10u8) by {
            assert(lines[i] == lines.drop_last()[i]);
        }
        lemma_written_lines(lines.drop_last(), tail);
        assert(written(lines) + rest =~= written(lines.drop_last()) + tail);
        lemma_first_line(last, rest);
        assert(lines.drop_last() + (seq![last] + line_parts(rest)) =~= lines + line_parts(rest));
    }
}

proof fn lemma_kept(list: Seq<Seq<u8>>)
    ensures
        forall|i: int|
            0 <= i < kept(list).len() ==> !is_hop_header(#[trigger] kept(list)[i]) && list.contains(
                kept(list)[i],
            ),
    decreases list.len(),
{
    reveal(Seq::filter);
    if list.len() > 0 {
        lemma_kept(list.drop_last());
        assert(list =~= list.drop_last().push(list.last()));
        assert forall|i: int| 0 <= i < kept(list).len() implies !is_hop_header(
            #[trigger] kept(list)[i],
        ) && list.contains(kept(list)[i]) by {
            if i < kept(list.drop_last()).len() {
                assert(kept(list)[i] == kept(list.drop_last())[i]);
                let k = choose|k: int|
                    0 <= k < list.drop_last().len() && list.drop_last()[k] == kept(list)[i];
                assert(list[k] == kept(list)[i]);
            } else {
                assert(list[list.len() - 1] == kept(list)[i]);
            }
        }
    }
}

proof fn lemma_ascii(c: char)
    requires
        c as u32 <= 0x7f,
    ensures
        encode_utf8(seq![c]).len() == 1,
        encode_utf8(seq![c])[0] as u32 == c as u32,
{
    crate::text::lemma_char_len(c);
}

pub proof fn lemma_crlf()
    ensures
        encode_utf8("\r\n"@) == seq![13u8, 10u8],
        encode_utf8(" HTTP/1.1\r\n"@) == encode_utf8(" HTTP/1.1"@) + seq![13u8, 10u8],
        encode_utf8("Connection: close\r\n\r\n"@) == encode_utf8("Connection: close"@)
            + seq![13u8, 10u8] + seq![13u8, 10u8],
{
    reveal_strlit("\r\n");
    reveal_strlit(" HTTP/1.1\r\n");
    reveal_strlit(" HTTP/1.1");
    reveal_strlit("Connection: close\r\n\r\n");
    reveal_strlit("Connection: close");
    lemma_ascii('\r');
    lemma_ascii('\n');
    assert("\r\n"@ =~= seq!['\r'] + seq!['\n']);
    lemma_encode_concat(seq!['\r'], seq!['\n']);
    assert(encode_utf8("\r\n"@) =~= seq![13u8, 10u8]);
    assert(" HTTP/1.1\r\n"@ =~= " HTTP/1.1"@ + "\r\n"@);
    lemma_encode_concat(" HTTP/1.1"@, "\r\n"@);
    assert("Connection: close\r\n\r\n"@ =~= "Connection: close"@ + "\r\n"@ + "\r\n"@);
    lemma_encode_concat("Connection: close"@ + "\r\n"@, "\r\n"@);
    lemma_encode_concat("Connection: close"@, "\r\n"@);
}

pub proof fn lemma_plain(s: Seq<char>)
    requires
        forall|i: int| 0 <= i < s.len() ==> 32 <= (#[trigger] s[i]) as u32 <= 0x7e,
    ensures
        encode_utf8(s).len() == s.len(),
        forall|i: int| 0 <= i < s.len() ==> (#[trigger] encode_utf8(s)[i]) as u32 == s[i] as u32,
        !encode_utf8(s).contains(10u8),
    decreases s.len(),
{
    if s.len() > 0 {
        lemma_ascii(s[0]);
        assert(s =~= seq![s[0]] + s.drop_first());
        lemma_encode_concat(seq![s[0]], s.drop_first());
        lemma_plain(s.drop_first());
        assert forall|i: int| 0 <= i < s.len() implies (#[trigger] encode_utf8(s)[i]) as u32 == s[i] as u32 by {
            if i > 0 {
                assert(encode_utf8(s)[i] == encode_utf8(s.drop_first())[i - 1]);
                assert(s.drop_first()[i - 1] == s[i]);
            }
        }
    }
    assert forall|i: int| 0 <= i < encode_utf8(s).len() implies encode_utf8(s)[i] != 10u8 by {
        assert(encode_utf8(s)[i] as u32 == s[i] as u32);
        assert(32 <= s[i] as u32 <= 0x7e);
    }
}

proof fn lemma_free_concat(a: Seq<u8>, b: Seq<u8>)
    requires
        !a.contains(10u8),
        !b.contains(10u8),
    ensures
        !(a + b).contains(10u8),
{
    assert forall|i: int| 0 <= i < (a + b).len() implies (a + b)[i] != 10u8 by {
        if i < a.len() {
            assert(a.contains(a[i]));
        } else {
            assert(b.contains(b[i - a.len()]));
        }
    }
}

pub proof fn lemma_words()
    ensures
        !encode_utf8(" "@).contains(10u8),
        !encode_utf8(" HTTP/1.1"@).contains(10u8),
        !encode_utf8("Host: "@).contains(10u8),
        !encode_utf8("Connection: close"@).contains(10u8),
        encode_utf8("Connection: close"@).len() > 0,
        encode_utf8("Host: "@).len() > 0,
{
    reveal_strlit(" ");
    reveal_strlit(" HTTP/1.1");
    reveal_strlit("Host: ");
    reveal_strlit("Connection: close");
    lemma_plain(" "@);
    lemma_plain(" HTTP/1.1"@);
    lemma_plain("Host: "@);
    lemma_plain("Connection: close"@);
}

/// The end of a head: the last header, and the empty line.
proof fn lemma_close_lines(close: Seq<u8>)
    requires
        !close.contains(10u8),
    ensures
        line_parts(close + seq![13u8, 10u8] + seq![13u8, 10u8]) == seq![
            close,
            Seq::<u8>::empty(),
            Seq::<u8>::empty(),
        ],
{
    let crlf = seq![13u8, 10u8];
    let empty = Seq::<u8>::empty();
    assert(close + crlf + crlf =~= close + crlf + (empty + crlf + empty));
    lemma_first_line(close, empty + crlf + empty);
    lemma_first_line(empty, empty);
    assert(line_parts(empty) =~= seq![empty]);
    assert(line_parts(close + crlf + crlf) =~= seq![close, empty, empty]);
}

/// The lines that the origin server gets: the request line with the path, the
/// headers that are sent on, the host where none was named, and that the
/// connection is closed.
pub open spec fn origin_lines(
    method: Seq<u8>,
    path: Seq<u8>,
    authority: Seq<char>,
    headers: Seq<Seq<u8>>,
) -> Seq<Seq<u8>> {
    seq![method + encode_utf8(" "@) + path + encode_utf8(" HTTP/1.1"@)] + kept(headers) + (
    if names_host(headers) {
        Seq::empty()
    } else {
        seq![encode_utf8("Host: "@) + encode_utf8(authority)]
    }) + seq![encode_utf8("Connection: close"@), Seq::empty(), Seq::empty()]
}

/// The head that is sent on splits into exactly the lines it was made of.
#[verifier::rlimit(50)]
pub proof fn origin_head_lines(
    method: Seq<u8>,
    path: Seq<u8>,
    authority: Seq<char>,
    headers: Seq<Seq<u8>>,
)
    requires
        !method.contains(10u8),
        !path.contains(10u8),
        !encode_utf8(authority).contains(10u8),
        forall|i: int| 0 <= i < headers.len() ==> !(#[trigger] headers[i]).contains(10u8),
    ensures
        line_parts(origin_head(method, path, authority, headers)) == origin_lines(
            method,
            path,
            authority,
            headers,
        ),
{
    lemma_crlf();
    lemma_words();
    lemma_kept(headers);
    let crlf = seq![13u8, 10u8];
    let first = method + encode_utf8(" "@) + path + encode_utf8(" HTTP/1.1"@);
    lemma_free_concat(method, encode_utf8(" "@));
    lemma_free_concat(method + encode_utf8(" "@), path);
    lemma_free_concat(method + encode_utf8(" "@) + path, encode_utf8(" HTTP/1.1"@));
    let block = written(kept(headers));
    let host = encode_utf8("Host: "@) + encode_utf8(authority);
    lemma_free_concat(encode_utf8("Host: "@), encode_utf8(authority));
    let close = encode_utf8("Connection: close"@);
    let end = close + crlf + crlf;
    lemma_close_lines(close);
    let tail = if names_host(headers) {
        end
    } else {
        host + crlf + end
    };
    if !names_host(headers) {
        lemma_first_line(host, end);
    }
    assert forall|i: int| 0 <= i < kept(headers).len() implies !(
    #[trigger] kept(headers)[i]).contains(10u8) by {
        assert(headers.contains(kept(headers)[i]));
    }
    lemma_written_lines(kept(headers), tail);
    lemma_first_line(first, block + tail);
    assert(origin_head(method, path, authority, headers) =~= first + crlf + (block + tail));
    assert(line_parts(origin_head(method, path, authority, headers)) =~= origin_lines(
        method,
        path,
        authority,
        headers,
    ));
}

proof fn lemma_bare_part(s: Seq<u8>, t: Seq<u8>)
    requires
        bare_line(s) == t,
    ensures
        forall|b: u8| t.contains(b) ==> s.contains(b),
{
    assert forall|b: u8| t.contains(b) implies s.contains(b) by {
        let i = choose|i: int| 0 <= i < t.len() && t[i] == b;
        assert(s[i] == b);
    }
}

pub proof fn lemma_parts_free(s: Seq<u8>)
    ensures
        line_parts(s).len() > 0,
        forall|i: int| 0 <= i < line_parts(s).len() ==> !(#[trigger] line_parts(s)[i]).contains(10u8),
    decreases s.len(),
{
    let n = len_to(s, 10u8) as int;
    lemma_len_to(s, 10u8);
    let first = s.take(n);
    assert(!first.contains(10u8));
    lemma_bare_part(first, bare_line(first));
    if n >= s.len() {
        assert(first =~= s);
    } else {
        lemma_parts_free(s.skip(n + 1));
        let rest = line_parts(s.skip(n + 1));
        assert forall|i: int| 0 <= i < line_parts(s).len() implies !(
        #[trigger] line_parts(s)[i]).contains(10u8) by {
            if i > 0 {
                assert(line_parts(s)[i] == rest[i - 1]);
            }
        }
    }
}

proof fn lemma_headers(lines: Seq<Seq<u8>>)
    ensures
        headers(lines).len() <= lines.len(),
        forall|i: int|
            0 <= i < headers(lines).len() ==> #[trigger] headers(lines)[i] == lines[i]
                && lines[i].len() > 0,
    decreases lines.len(),
{
    if lines.len() > 0 && lines[0].len() > 0 {
        lemma_headers(lines.drop_first());
        assert forall|i: int| 0 <= i < headers(lines).len() implies #[trigger] headers(lines)[i]
            == lines[i] && lines[i].len() > 0 by {
            if i > 0 {
                assert(headers(lines)[i] == headers(lines.drop_first())[i - 1]);
            }
        }
    }
}

pub proof fn lemma_headers_of(list: Seq<Seq<u8>>, rest: Seq<Seq<u8>>)
    requires
        forall|i: int| 0 <= i < list.len() ==> (#[trigger] list[i]).len() > 0,
        rest.len() > 0,
        rest[0].len() == 0,
    ensures
        headers(list + rest) == list,
    decreases list.len(),
{
    if list.len() == 0 {
        assert(list + rest =~= rest);
        assert(headers(rest) =~= list);
    } else {
        assert((list + rest)[0] == list[0]);
        assert((list + rest).drop_first() =~= list.drop_first() + rest);
        assert forall|i: int| 0 <= i < list.drop_first().len() implies (
        #[trigger] list.drop_first()[i]).len() > 0 by {
            assert(list.drop_first()[i] == list[i + 1]);
        }
        lemma_headers_of(list.drop_first(), rest);
        assert(seq![list[0]] + list.drop_first() =~= list);
    }
}

proof fn lemma_host_names(line: Seq<u8>)
    requires
        is_host_header(line),
    ensures
        !is_hop_header(line),
{
    reveal_strlit("host");
    reveal_strlit("connection");
    reveal_strlit("proxy-connection");
    reveal_strlit("proxy-authorization");
    lemma_plain("host"@);
    lemma_plain("connection"@);
    lemma_plain("proxy-connection"@);
    lemma_plain("proxy-authorization"@);
}

proof fn lemma_host_line(authority: Seq<char>)
    ensures
        is_host_header(encode_utf8("Host: "@) + encode_utf8(authority)),
        !is_hop_header(encode_utf8("Host: "@) + encode_utf8(authority)),
{
    reveal_strlit("Host: ");
    reveal_strlit("host");
    lemma_plain("Host: "@);
    lemma_plain("host"@);
    let front = encode_utf8("Host: "@);
    let line = front + encode_utf8(authority);
    let name = front.take(4);
    assert(front[0] == 72 && front[1] == 111 && front[2] == 115 && front[3] == 116 && front[4]
        == 58);
    let behind = line.skip(4);
    lemma_len_to_concat(name, behind, 58u8);
    assert(line =~= name + behind);
    assert(behind[0] == 58);
    assert(len_to(behind, 58u8) == 0);
    assert(line.take(4) =~= name);
    assert(trimmed_front(name) == name);
    assert(trimmed_back(name) == name);
    let word = encode_utf8("host"@);
    assert(word[0] == 104 && word[1] == 111 && word[2] == 115 && word[3] == 116);
    assert(alike(name, word));
    lemma_host_names(line);
}

proof fn lemma_kept_host(list: Seq<Seq<u8>>)
    requires
        names_host(list),
    ensures
        names_host(kept(list)),
    decreases list.len(),
{
    reveal(Seq::filter);
    let last = list.last();
    assert(list =~= list.drop_last().push(last));
    if is_host_header(last) {
        lemma_host_names(last);
        assert(is_host_header(kept(list)[kept(list).len() - 1]));
    } else {
        let i = choose|i: int| 0 <= i < list.len() && is_host_header(#[trigger] list[i]);
        assert(is_host_header(list.drop_last()[i]));
        lemma_kept_host(list.drop_last());
        let inner = kept(list.drop_last());
        let k = choose|k: int| 0 <= k < inner.len() && is_host_header(#[trigger] inner[k]);
        assert(kept(list)[k] == inner[k]);
    }
}

/// What the origin server gets of a plain request: its headers are those of the
/// client that do not concern the proxy, they name the host, and the last of them,
/// and no other, speaks of the connection.
#[verifier::rlimit(50)]
pub proof fn forwarded_requests_are_clean(head: Seq<u8>, host: Seq<char>, port: u16, out: Seq<u8>)
    requires
        request(head) == Ok::<Aim, Refusal>(Aim::Forward(host, port, out)),
    ensures
        ({
            let sent = headers(line_parts(out).drop_first());
            let given = headers(line_parts(head).drop_first());
            &&& sent.len() > 0
            &&& sent.last() == encode_utf8("Connection: close"@)
            &&& kept(given) == sent.take(kept(given).len() as int)
            &&& forall|i: int| 0 <= i < sent.len() - 1 ==> !is_hop_header(#[trigger] sent[i])
            &&& names_host(sent)
        }),
{
    let lines = line_parts(head);
    lemma_parts_free(head);
    let first = lines[0];
    let a = len_to(first, 32u8) as int;
    let tail = first.skip(a + 1);
    let b = len_to(tail, 32u8) as int;
    let method = first.take(a);
    let target = tail.take(b);
    let rest = target.skip(7);
    let slash = len_to(rest, 47u8) as int;
    let authority = rest.take(slash);
    let text = decode_utf8(authority);
    let name = after_last(text, '@');
    let path = path_of(rest);
    let given = headers(lines.drop_first());
    lemma_len_to(first, 32u8);
    lemma_len_to(tail, 32u8);
    lemma_len_to(rest, 47u8);
    assert forall|x: u8| (method.contains(x) || rest.contains(x)) implies first.contains(x) by {
        if method.contains(x) {
            let i = choose|i: int| 0 <= i < method.len() && method[i] == x;
            assert(first[i] == x);
        } else {
            let i = choose|i: int| 0 <= i < rest.len() && rest[i] == x;
            assert(first[a + 1 + 7 + i] == x);
        }
    }
    assert(!rest.contains(10u8));
    reveal_strlit("/");
    lemma_plain("/"@);
    assert forall|i: int| 0 <= i < path.len() implies path[i] != 10u8 by {
        if slash < rest.len() {
            assert(path[i] == rest[slash + i]);
            assert(rest.contains(path[i]));
        } else {
            assert(encode_utf8("/"@).contains(path[i]));
        }
    }
    lemma_after_last(text, '@');
    let front = choose|front: Seq<char>| text == #[trigger] (front + after_last(text, '@'));
    lemma_encode_concat(front, name);
    decode_utf8_encode_utf8(authority);
    assert forall|i: int| 0 <= i < encode_utf8(name).len() implies encode_utf8(name)[i] != 10u8 by {
        assert(authority[encode_utf8(front).len() + i] == encode_utf8(name)[i]);
        assert(rest[encode_utf8(front).len() + i] == encode_utf8(name)[i]);
        assert(rest.contains(encode_utf8(name)[i]));
    }
    lemma_headers(lines.drop_first());
    assert forall|i: int| 0 <= i < given.len() implies !(#[trigger] given[i]).contains(10u8) by {
        assert(given[i] == lines[i + 1]);
    }
    origin_head_lines(method, path, name, given);
    let all = origin_lines(method, path, name, given);
    let extra = if names_host(given) {
        Seq::<Seq<u8>>::empty()
    } else {
        seq![encode_utf8("Host: "@) + encode_utf8(name)]
    };
    let close = encode_utf8("Connection: close"@);
    lemma_words();
    let sent = kept(given) + extra + seq![close];
    let ends = seq![Seq::<u8>::empty(), Seq::<u8>::empty()];
    lemma_kept(given);
    assert forall|i: int| 0 <= i < sent.len() implies (#[trigger] sent[i]).len() > 0 by {
        if i < kept(given).len() {
            assert(given.contains(kept(given)[i]));
            let k = choose|k: int| 0 <= k < given.len() && given[k] == kept(given)[i];
            assert(given[k].len() > 0);
        }
    }
    lemma_headers_of(sent, ends);
    assert(all.drop_first() =~= sent + ends);
    assert(sent.take(kept(given).len() as int) =~= kept(given));
    lemma_host_line(name);
    if names_host(given) {
        lemma_kept_host(given);
        let k = choose|k: int| 0 <= k < kept(given).len() && is_host_header(#[trigger] kept(given)[k]);
        assert(is_host_header(sent[k]));
    } else {
        assert(is_host_header(sent[kept(given).len() as int]));
    }
    assert forall|i: int| 0 <= i < sent.len() - 1 implies !is_hop_header(#[trigger] sent[i]) by {
        if i < kept(given).len() {
            assert(sent[i] == kept(given)[i]);
        } else {
            assert(sent[i] == extra[0]);
        }
    }
}

proof fn lemma_decode_ascii(bytes: Seq<u8>)
    requires
        valid_utf8(bytes),
        bytes.len() > 0,
        bytes[0] < 128,
    ensures
        valid_utf8(bytes.skip(1)),
        decode_utf8(bytes) == seq![bytes[0] as char] + decode_utf8(bytes.skip(1)),
{
    let b = bytes[0];
    assert(b < 128 ==> b & 0x80 == 0 && (b & 0x7f) == b) by (bit_vector);
    assert(pop_first_scalar(bytes) =~= bytes.skip(1));
    assert(decode_first_scalar(bytes) == b as u32);
}

proof fn lemma_front_kept(s: Seq<char>, p: spec_fn(char) -> bool, n: int)
    requires
        0 < n <= s.len(),
        !p(s[n - 1]),
    ensures
        trim_end_by(s, p).len() >= n,
        trim_end_by(s, p).take(n) == s.take(n),
    decreases s.len(),
{
    if p(s.last()) {
        lemma_front_kept(s.drop_last(), p, n);
        assert(s.drop_last().take(n) =~= s.take(n));
    }
}

/// The scheme of plain requests, in any case.
pub open spec fn is_scheme(s: Seq<u8>) -> bool {
    alike(s, encode_utf8("http://"@))
}

proof fn lemma_scheme(s: Seq<u8>)
    requires
        is_scheme(s),
    ensures
        s.len() == 7,
        s[0] == 72 || s[0] == 104,
        s[4] == 58,
        s[5] == 47,
        s[6] == 47,
        forall|i: int| 0 <= i < 7 ==> 33 <= #[trigger] s[i] < 128,
        forall|i: int| 0 <= i < 4 ==> #[trigger] s[i] >= 65,
{
    reveal_strlit("http://");
    let text = "http://"@;
    lemma_plain(text);
    let bytes = encode_utf8(text);
    assert(bytes[0] as u32 == text[0] as u32);
    assert(bytes[1] as u32 == text[1] as u32);
    assert(bytes[2] as u32 == text[2] as u32);
    assert(bytes[3] as u32 == text[3] as u32);
    assert(bytes[4] as u32 == text[4] as u32);
    assert(bytes[5] as u32 == text[5] as u32);
    assert(bytes[6] as u32 == text[6] as u32);
}

/// No authority begins with a scheme.
#[verifier::rlimit(30)]
proof fn lemma_scheme_is_no_host(s: Seq<u8>, rest: Seq<u8>)
    requires
        is_scheme(s),
    ensures
        connect_request(s + rest) is Err,
{
    lemma_scheme(s);
    let all = s + rest;
    if valid_utf8(all) {
        let t = decode_utf8(all);
        lemma_decode_ascii(all);
        lemma_decode_ascii(all.skip(1));
        assert(all.skip(1).skip(1) =~= all.skip(2));
        lemma_decode_ascii(all.skip(2));
        assert(all.skip(2).skip(1) =~= all.skip(3));
        lemma_decode_ascii(all.skip(3));
        assert(all.skip(3).skip(1) =~= all.skip(4));
        lemma_decode_ascii(all.skip(4));
        assert(all.skip(4).skip(1) =~= all.skip(5));
        lemma_decode_ascii(all.skip(5));
        assert(all.skip(5).skip(1) =~= all.skip(6));
        lemma_decode_ascii(all.skip(6));
        let p = |c: char| is_space(c);
        assert(t[0] as u32 == s[0] as u32);
        assert(t[4] == ':');
        assert(t[5] == '/');
        assert(t[6] == '/');
        assert(trim_start_by(t, p) == t);
        lemma_front_kept(t, p, 7);
        let u = trimmed(t);
        assert(u == trim_end_by(t, p));
        assert(u.take(7)[0] == t[0] && u.take(7)[1] == t[1] && u.take(7)[2] == t[2]
            && u.take(7)[3] == t[3] && u.take(7)[4] == t[4] && u.take(7)[5] == t[5]);
        lemma_len_to(u, ':');
        let colon = len_to(u, ':') as int;
        assert(colon <= 4) by {
            if colon > 4 {
                assert(u[4] != ':');
            }
        }
        assert(colon == 4) by {
            assert(t[0] as u32 == s[0] as u32 && t[1] as u32 == s[1] as u32 && t[2] as u32
                == s[2] as u32 && t[3] as u32 == s[3] as u32);
        }
        let number = u.skip(5);
        assert(number[0] == '/');
        assert(!is_digit(number[0]));
        assert(!all_digits(number));
    }
}

/// How a head with a scheme in its target falls into pieces.
proof fn lemma_scheme_head(method: Seq<u8>, scheme: Seq<u8>, rest: Seq<u8>)
    requires
        !method.contains(32u8),
        !method.contains(10u8),
        is_scheme(scheme),
    ensures
        ({
            let head = method + seq![32u8] + scheme + rest;
            let n = len_to(rest, 10u8) as int;
            let line = bare_line(rest.take(n));
            let lines = line_parts(head);
            let first = lines[0];
            &&& first == method + seq![32u8] + scheme + line
            &&& lines.drop_first() == line_parts(rest).drop_first()
            &&& len_to(first, 32u8) == method.len()
            &&& first.take(method.len() as int) == method
            &&& first.skip(method.len() as int + 1) == scheme + line
            &&& len_to(scheme + line, 32u8) == 7 + len_to(line, 32u8)
        }),
{
    lemma_scheme(scheme);
    let front = method + seq![32u8] + scheme;
    let head = front + rest;
    let n = len_to(rest, 10u8) as int;
    let k = front.len() as int;
    lemma_len_to(rest, 10u8);
    assert forall|i: int| 0 <= i < k + n implies head[i] != 10u8 by {
        if i < method.len() {
            assert(method.contains(method[i]));
        } else if i > method.len() && i < k {
            assert(head[i] == scheme[i - method.len() - 1]);
        } else if i >= k {
            assert(head[i] == rest[i - k]);
        }
    }
    lemma_len_to_at(head, 10u8, k + n);
    let line = bare_line(rest.take(n));
    let whole = head.take(k + n);
    assert(whole =~= front + rest.take(n));
    assert(bare_line(whole) =~= front + line) by {
        if n == 0 {
            assert(whole =~= front);
            assert(whole.last() == scheme[6]);
        } else {
            assert(whole.last() == rest.take(n).last());
        }
    }
    let first = front + line;
    if n < rest.len() {
        assert(head.skip(k + n + 1) =~= rest.skip(n + 1));
        assert(line_parts(head) =~= seq![first] + line_parts(rest.skip(n + 1)));
        assert(line_parts(head).drop_first() =~= line_parts(rest.skip(n + 1)));
        assert(line_parts(rest).drop_first() =~= line_parts(rest.skip(n + 1)));
    } else {
        assert(head.take(k + n) =~= head);
        assert(rest.take(n) =~= rest);
        assert(line_parts(head) =~= seq![first]);
        assert(line_parts(head).drop_first() =~= Seq::empty());
        assert(line_parts(rest).drop_first() =~= Seq::empty());
    }
    assert forall|i: int| 0 <= i < method.len() implies first[i] != 32u8 by {
        assert(method.contains(method[i]));
        assert(first[i] == method[i]);
    }
    lemma_len_to_at(first, 32u8, method.len() as int);
    assert(first.take(method.len() as int) =~= method);
    assert(first.skip(method.len() as int + 1) =~= scheme + line);
    lemma_len_to(line, 32u8);
    let b = len_to(line, 32u8) as int;
    assert forall|i: int| 0 <= i < 7 + b implies (scheme + line)[i] != 32u8 by {
        if i < 7 {
            assert((scheme + line)[i] == scheme[i]);
        } else {
            assert((scheme + line)[i] == line[i - 7]);
        }
    }
    lemma_len_to_at(scheme + line, 32u8, 7 + b);
}

/// In which case the scheme of a request is written makes no difference: both are
/// refused, or both lead to the same target.
pub proof fn scheme_case_makes_no_difference(
    method: Seq<u8>,
    one: Seq<u8>,
    other: Seq<u8>,
    rest: Seq<u8>,
)
    requires
        !method.contains(32u8),
        !method.contains(10u8),
        is_scheme(one),
        is_scheme(other),
    ensures
        ({
            let a = request(method + seq![32u8] + one + rest);
            let b = request(method + seq![32u8] + other + rest);
            a == b || (a is Err && b is Err)
        }),
{
    lemma_scheme(one);
    lemma_scheme(other);
    lemma_scheme_head(method, one, rest);
    lemma_scheme_head(method, other, rest);
    let n = len_to(rest, 10u8) as int;
    let line = bare_line(rest.take(n));
    let b = len_to(line, 32u8) as int;
    lemma_len_to(line, 32u8);
    if b < line.len() {
        assert((one + line).skip(7 + b + 1) =~= line.skip(b + 1));
        assert((other + line).skip(7 + b + 1) =~= line.skip(b + 1));
    }
    assert((one + line).take(7 + b) =~= one + line.take(b));
    assert((other + line).take(7 + b) =~= other + line.take(b));
    assert((one + line.take(b)).take(7) =~= one);
    assert((other + line.take(b)).take(7) =~= other);
    assert((one + line.take(b)).skip(7) =~= line.take(b));
    assert((other + line.take(b)).skip(7) =~= line.take(b));
    lemma_scheme_is_no_host(one, line.take(b));
    lemma_scheme_is_no_host(other, line.take(b));
}

/// Where `CONNECT` leads is said by its request line alone: the lines that follow
/// make no difference.
pub proof fn connect_lines_make_no_difference(line: Seq<u8>, one: Seq<u8>, other: Seq<u8>)
    requires
        !line.contains(10u8),
        alike(line.take(len_to(line, 32u8) as int), encode_utf8("CONNECT"@)),
    ensures
        request(line + seq![10u8] + one) == request(line + seq![10u8] + other),
{
    let n = line.len() as int;
    let a = line + seq![10u8] + one;
    let b = line + seq![10u8] + other;
    assert forall|i: int| 0 <= i < n implies a[i] != 10u8 && b[i] != 10u8 by {
        assert(line.contains(line[i]));
    }
    lemma_len_to_at(a, 10u8, n);
    lemma_len_to_at(b, 10u8, n);
    assert(a.take(n) =~= line);
    assert(b.take(n) =~= line);
    let first = bare_line(line);
    assert(line_parts(a)[0] == first);
    assert(line_parts(b)[0] == first);
    let k = len_to(first, 32u8) as int;
    lemma_len_to(first, 32u8);
    if k < first.len() {
        assert forall|i: int| 0 <= i < k implies line[i] != 32u8 by {
            assert(first[i] == line[i]);
        }
        assert(line[k] == first[k]);
        lemma_len_to_at(line, 32u8, k);
        assert(first.take(k) =~= line.take(k));
    }
}

} // verus!
