//! What the HTTP proxy makes of the requests that clients write: laws on request
//! heads as a whole, byte for byte.

use crate::bytes::{alike, is_ascii_space, lower, trimmed_back, trimmed_front};
use crate::http::{
    connect_request, forward_request, headers, host_port, is_hop_header, is_host_header, kept,
    lemma_crlf, lemma_first_line, lemma_headers_of, lemma_kept_push, line_parts, name_of,
    names_host, origin_head, request, written, Aim, Refusal,
};
use crate::numbers::{all_digits, decimal, decimal_is_digits, is_digit, parsed_number};
use crate::text::{
    after_last, is_space, len_to, lemma_char_len, lemma_encode_concat, lemma_len_to,
    lemma_len_to_at, stands_at, trim_end_by, trim_start_by, trimmed,
};
use vstd::prelude::*;
use vstd::utf8::*;

verus! {

// ---------- How requests are written ----------

/// ASCII text as bytes.
pub open spec fn ascii(s: Seq<char>) -> Seq<u8> {
    Seq::new(s.len(), |i: int| s[i] as u8)
}

/// The name is this word, in capital or small letters; the word is given in small
/// ones.
pub open spec fn is_word(name: Seq<u8>, word: Seq<char>) -> bool {
    &&& name.len() == word.len()
    &&& forall|i: int|
        0 <= i < name.len() ==> ((#[trigger] name[i]) as int == word[i] as int || ('a' <= word[i]
            <= 'z' && name[i] as int == word[i] as int - 32))
}

/// A header as a client writes it: its name, and what stands behind the colon.
pub struct Header {
    pub name: Seq<u8>,
    pub value: Seq<u8>,
}

/// The line of a header.
pub open spec fn header_line(h: Header) -> Seq<u8> {
    h.name + seq![58u8] + h.value
}

/// The name is no blank and holds neither white space nor a colon, and the value
/// holds no line break.
pub open spec fn is_header(h: Header) -> bool {
    &&& h.name.len() > 0
    &&& forall|i: int| 0 <= i < h.name.len() ==> #[trigger] h.name[i] > 32 && h.name[i] != 58
    &&& forall|i: int| 0 <= i < h.value.len() ==> #[trigger] h.value[i] != 10 && h.value[i] != 13
}

/// Headers, each on a line of its own.
pub open spec fn header_block(list: Seq<Header>) -> Seq<u8>
    decreases list.len(),
{
    if list.len() == 0 {
        Seq::empty()
    } else {
        header_block(list.drop_last()) + header_line(list.last()) + seq![13u8, 10u8]
    }
}

/// Headers that are a matter between the client and the proxy.
pub open spec fn concerns_proxy(h: Header) -> bool {
    ||| is_word(h.name, "connection"@)
    ||| is_word(h.name, "proxy-connection"@)
    ||| is_word(h.name, "proxy-authorization"@)
}

/// The headers that are meant for the origin server, in their order.
pub open spec fn meant_for_origin(list: Seq<Header>) -> Seq<Header>
    decreases list.len(),
{
    if list.len() == 0 {
        Seq::empty()
    } else if concerns_proxy(list.last()) {
        meant_for_origin(list.drop_last())
    } else {
        meant_for_origin(list.drop_last()).push(list.last())
    }
}

/// A host is named among the headers.
pub open spec fn has_host(list: Seq<Header>) -> bool {
    exists|i: int| 0 <= i < list.len() && is_word((#[trigger] list[i]).name, "host"@)
}

/// A request for an address on another server: method, address, path, headers, and
/// what follows the head.
pub open spec fn plain_request(
    method: Seq<u8>,
    authority: Seq<u8>,
    path: Seq<u8>,
    list: Seq<Header>,
    body: Seq<u8>,
) -> Seq<u8> {
    method + ascii(" http://"@) + authority + path + ascii(" HTTP/1.1\r\n"@) + header_block(list)
        + seq![13u8, 10u8] + body
}

/// A request for a tunnel.
pub open spec fn tunnel_request(method: Seq<u8>, target: Seq<u8>, behind: Seq<u8>) -> Seq<u8> {
    method + ascii(" "@) + target + ascii(" HTTP/1.1\r\n"@) + behind
}

/// The bytes hold neither a space nor a line feed.
pub open spec fn is_unbroken(s: Seq<u8>) -> bool {
    !s.contains(32u8) && !s.contains(10u8)
}

// ---------- Letters and words ----------

/// Two bytes are the same letter, in whichever case, or the same byte.
pub proof fn case_is_ignored(a: Seq<u8>, b: Seq<u8>)
    ensures
        alike(a, b) <==> a.len() == b.len() && forall|i: int|
            0 <= i < a.len() ==> ((#[trigger] a[i]) == b[i] || (65 <= a[i] <= 90 && b[i] == a[i]
                + 32) || (97 <= a[i] <= 122 && b[i] == a[i] - 32)),
{
    if alike(a, b) {
        assert forall|i: int| 0 <= i < a.len() implies ((#[trigger] a[i]) == b[i] || (65 <= a[i]
            <= 90 && b[i] == a[i] + 32) || (97 <= a[i] <= 122 && b[i] == a[i] - 32)) by {
            assert(lower(a[i]) == lower(b[i]));
        }
    }
    if a.len() == b.len() && forall|i: int|
        0 <= i < a.len() ==> ((#[trigger] a[i]) == b[i] || (65 <= a[i] <= 90 && b[i] == a[i] + 32)
            || (97 <= a[i] <= 122 && b[i] == a[i] - 32)) {
        assert forall|i: int| 0 <= i < a.len() implies lower(a[i]) == lower(#[trigger] b[i]) by {
            assert(a[i] == a[i]);
        }
    }
}

/// Words are in small letters, and otherwise in ASCII that has no case.
spec fn is_small(word: Seq<char>) -> bool {
    forall|i: int|
        0 <= i < word.len() ==> (('a' <= #[trigger] word[i] <= 'z') || (' ' <= word[i] <= '@'))
}

proof fn lemma_ascii_text(s: Seq<char>)
    requires
        forall|i: int| 0 <= i < s.len() ==> 32 <= (#[trigger] s[i]) as u32 <= 0x7e,
    ensures
        encode_utf8(s) == ascii(s),
    decreases s.len(),
{
    if s.len() > 0 {
        let rest = s.drop_first();
        assert forall|i: int| 0 <= i < rest.len() implies 32 <= (#[trigger] rest[i]) as u32
            <= 0x7e by {
            assert(rest[i] == s[i + 1]);
        }
        lemma_ascii_text(rest);
        lemma_char_len(s[0]);
        assert(s =~= seq![s[0]] + rest);
        lemma_encode_concat(seq![s[0]], rest);
        assert(ascii(s) =~= seq![s[0] as u8] + ascii(rest));
        assert(encode_utf8(seq![s[0]]) =~= seq![s[0] as u8]);
    } else {
        assert(encode_utf8(s) =~= ascii(s));
    }
}

proof fn lemma_word(name: Seq<u8>, word: Seq<char>)
    requires
        is_small(word),
    ensures
        alike(name, encode_utf8(word)) <==> is_word(name, word),
{
    assert forall|i: int| 0 <= i < word.len() implies 32 <= (#[trigger] word[i]) as u32 <= 0x7e by {
    }
    lemma_ascii_text(word);
    case_is_ignored(name, encode_utf8(word));
    let bytes = ascii(word);
    if is_word(name, word) {
        assert forall|i: int| 0 <= i < name.len() implies ((#[trigger] name[i]) == bytes[i] || (65
            <= name[i] <= 90 && bytes[i] == name[i] + 32) || (97 <= name[i] <= 122 && bytes[i]
            == name[i] - 32)) by {
            assert(bytes[i] as int == word[i] as int);
        }
    }
    if alike(name, bytes) {
        assert forall|i: int| 0 <= i < name.len() implies ((#[trigger] name[i]) as int
            == word[i] as int || ('a' <= word[i] <= 'z' && name[i] as int == word[i] as int
            - 32)) by {
            assert(bytes[i] as int == word[i] as int);
        }
    }
}

// ---------- Headers ----------

proof fn lemma_name(h: Header)
    requires
        is_header(h),
    ensures
        name_of(header_line(h)) == h.name,
        header_line(h).len() > 0,
        !header_line(h).contains(10u8),
        is_hop_header(header_line(h)) == concerns_proxy(h),
        is_host_header(header_line(h)) == is_word(h.name, "host"@),
{
    let line = header_line(h);
    let n = h.name.len() as int;
    assert forall|i: int| 0 <= i < n implies line[i] != 58u8 by {
        assert(line[i] == h.name[i]);
    }
    lemma_len_to_at(line, 58u8, n);
    assert(line.take(n) =~= h.name);
    assert(!is_ascii_space(h.name[0]));
    assert(trimmed_front(h.name) == h.name);
    assert(!is_ascii_space(h.name[n - 1]));
    assert(trimmed_back(h.name) == h.name);
    assert forall|i: int| 0 <= i < line.len() implies line[i] != 10u8 by {
        if i < n {
            assert(line[i] == h.name[i]);
        } else if i > n {
            assert(line[i] == h.value[i - n - 1]);
        }
    }
    reveal_strlit("connection");
    reveal_strlit("proxy-connection");
    reveal_strlit("proxy-authorization");
    reveal_strlit("host");
    lemma_word(h.name, "connection"@);
    lemma_word(h.name, "proxy-connection"@);
    lemma_word(h.name, "proxy-authorization"@);
    lemma_word(h.name, "host"@);
}

/// The lines of headers.
spec fn header_lines(list: Seq<Header>) -> Seq<Seq<u8>> {
    Seq::new(list.len(), |i: int| header_line(list[i]))
}

proof fn lemma_header_block(list: Seq<Header>)
    requires
        forall|i: int| 0 <= i < list.len() ==> is_header(#[trigger] list[i]),
    ensures
        header_block(list) == written(header_lines(list)),
        written(kept(header_lines(list))) == header_block(meant_for_origin(list)),
        names_host(header_lines(list)) == has_host(list),
    decreases list.len(),
{
    reveal(Seq::filter);
    let lines = header_lines(list);
    if list.len() == 0 {
        assert(kept(lines) =~= Seq::empty());
    } else {
        let front = list.drop_last();
        let last = list.last();
        assert forall|i: int| 0 <= i < front.len() implies is_header(#[trigger] front[i]) by {
            assert(front[i] == list[i]);
        }
        assert(is_header(list[list.len() - 1]));
        lemma_header_block(front);
        lemma_name(last);
        assert(lines =~= header_lines(front).push(header_line(last)));
        assert(lines.drop_last() =~= header_lines(front));
        lemma_kept_push(header_lines(front), header_line(last));
        let passed = meant_for_origin(front);
        assert(passed.push(last).drop_last() =~= passed);
        if has_host(front) {
            let i = choose|i: int|
                0 <= i < front.len() && is_word((#[trigger] front[i]).name, "host"@);
            assert(is_word(list[i].name, "host"@));
        }
        if is_word(last.name, "host"@) {
            assert(is_word(list[list.len() - 1].name, "host"@));
        }
        if has_host(list) {
            let i = choose|i: int|
                0 <= i < list.len() && is_word((#[trigger] list[i]).name, "host"@);
            if i < front.len() {
                assert(is_word(front[i].name, "host"@));
            }
        }
    }
}

/// What is read of a block of headers and what follows it.
proof fn lemma_block_lines(list: Seq<Header>, body: Seq<u8>)
    requires
        forall|i: int| 0 <= i < list.len() ==> is_header(#[trigger] list[i]),
    ensures
        headers(line_parts(header_block(list) + seq![13u8, 10u8] + body)) == header_lines(list),
{
    let lines = header_lines(list);
    let empty = Seq::<u8>::empty();
    let rest = seq![13u8, 10u8] + body;
    lemma_header_block(list);
    assert forall|i: int| 0 <= i < lines.len() implies !(#[trigger] lines[i]).contains(10u8)
        && lines[i].len() > 0 by {
        lemma_name(list[i]);
    }
    crate::http::lemma_written_lines(lines, rest);
    assert(header_block(list) + seq![13u8, 10u8] + body =~= written(lines) + rest);
    assert(empty + seq![13u8, 10u8] + body =~= rest);
    lemma_first_line(empty, body);
    let behind = line_parts(rest);
    assert(behind[0] == empty);
    lemma_headers_of(lines, behind);
}

// ---------- Request lines ----------

/// The version of a request.
spec fn version() -> Seq<u8> {
    seq![72u8, 84u8, 84u8, 80u8, 47u8, 49u8, 46u8, 49u8]
}

proof fn lemma_version()
    ensures
        ascii(" "@) == seq![32u8],
        ascii(" HTTP/1.1\r\n"@) == seq![32u8] + version() + seq![13u8, 10u8],
        version().subrange(0, 5) == encode_utf8("HTTP/"@),
{
    reveal_strlit(" ");
    reveal_strlit(" HTTP/1.1\r\n");
    reveal_strlit("HTTP/");
    assert(ascii(" "@) =~= seq![32u8]);
    assert(ascii(" HTTP/1.1\r\n"@) =~= seq![32u8] + version() + seq![13u8, 10u8]);
    lemma_ascii_text("HTTP/"@);
    assert(version().subrange(0, 5) =~= ascii("HTTP/"@));
}

/// The pieces of a request line, and the lines behind it.
proof fn lemma_request_line(method: Seq<u8>, target: Seq<u8>, behind: Seq<u8>)
    requires
        method.len() > 0,
        is_unbroken(method),
        is_unbroken(target),
    ensures
        ({
            let head = method + ascii(" "@) + target + ascii(" HTTP/1.1\r\n"@) + behind;
            request(head) == if alike(method, encode_utf8("CONNECT"@)) {
                connect_request(target)
            } else {
                forward_request(method, target, line_parts(behind))
            }
        }),
{
    lemma_version();
    let head = method + ascii(" "@) + target + ascii(" HTTP/1.1\r\n"@) + behind;
    let line = method + seq![32u8] + target + seq![32u8] + version();
    assert(head =~= line + seq![13u8, 10u8] + behind);
    assert forall|i: int| 0 <= i < line.len() implies line[i] != 10u8 by {
        if i < method.len() {
            assert(method.contains(line[i]));
        } else if method.len() < i < method.len() + 1 + target.len() {
            assert(line[i] == target[i - method.len() - 1]);
            assert(target.contains(line[i]));
        }
    }
    lemma_first_line(line, behind);
    let lines = line_parts(head);
    assert(lines[0] == line);
    assert(lines.drop_first() =~= line_parts(behind));
    let a = method.len() as int;
    assert forall|i: int| 0 <= i < a implies line[i] != 32u8 by {
        assert(method.contains(line[i]));
    }
    lemma_len_to_at(line, 32u8, a);
    assert(line.take(a) =~= method);
    let tail = target + seq![32u8] + version();
    assert(line.skip(a + 1) =~= tail);
    let b = target.len() as int;
    assert forall|i: int| 0 <= i < b implies tail[i] != 32u8 by {
        assert(target.contains(tail[i]));
    }
    lemma_len_to_at(tail, 32u8, b);
    assert(tail.take(b) =~= target);
    assert(tail.skip(b + 1) =~= version());
    assert(stands_at(version(), encode_utf8("HTTP/"@), 0));
}

proof fn lemma_connect_word(method: Seq<u8>)
    ensures
        alike(method, encode_utf8("CONNECT"@)) <==> is_word(method, "connect"@),
{
    reveal_strlit("CONNECT");
    reveal_strlit("connect");
    lemma_ascii_text("CONNECT"@);
    lemma_word(method, "connect"@);
    lemma_ascii_text("connect"@);
    let a = ascii("CONNECT"@);
    let b = ascii("connect"@);
    assert forall|i: int| 0 <= i < 7 implies lower(a[i]) == lower(#[trigger] b[i]) by {
    }
    if alike(method, a) {
        assert forall|i: int| 0 <= i < method.len() implies lower(method[i]) == lower(
            #[trigger] b[i],
        ) by {
            assert(lower(method[i]) == lower(a[i]));
        }
    }
    if alike(method, b) {
        assert forall|i: int| 0 <= i < method.len() implies lower(method[i]) == lower(
            #[trigger] a[i],
        ) by {
            assert(lower(method[i]) == lower(b[i]));
        }
    }
}

proof fn lemma_after_at(front: Seq<char>, name: Seq<char>)
    requires
        front.len() > 0 ==> front.last() == '@',
        !name.contains('@'),
    ensures
        after_last(front + name, '@') == name,
    decreases front.len(),
{
    let s = front + name;
    lemma_len_to(s, '@');
    let at = len_to(s, '@') as int;
    if front.len() == 0 {
        assert(s =~= name);
        if at < s.len() {
            assert(name.contains(s[at]));
        }
    } else {
        assert(s[front.len() - 1] == '@');
        assert(at < front.len()) by {
            if at >= front.len() {
                assert(s[front.len() - 1] != '@');
            }
        }
        let rest = front.skip(at + 1);
        assert(s.skip(at + 1) =~= rest + name);
        if rest.len() > 0 {
            assert(rest.last() == front.last());
        }
        lemma_after_at(rest, name);
    }
}

// ---------- Laws on requests ----------

/// The head that the origin server gets.
spec fn sent_head(
    method: Seq<u8>,
    path: Seq<u8>,
    name: Seq<char>,
    list: Seq<Header>,
) -> Seq<u8> {
    method + ascii(" "@) + (if path.len() > 0 {
        path
    } else {
        ascii("/"@)
    }) + ascii(" HTTP/1.1\r\n"@) + header_block(meant_for_origin(list)) + (if has_host(list) {
        Seq::empty()
    } else {
        ascii("Host: "@) + encode_utf8(name) + seq![13u8, 10u8]
    }) + ascii("Connection: close\r\n\r\n"@)
}

proof fn lemma_sent_words()
    ensures
        encode_utf8(" "@) == ascii(" "@),
        encode_utf8("/"@) == ascii("/"@),
        encode_utf8("Host: "@) == ascii("Host: "@),
        encode_utf8("\r\n"@) == seq![13u8, 10u8],
        encode_utf8(" HTTP/1.1\r\n"@) == ascii(" HTTP/1.1\r\n"@),
        encode_utf8("Connection: close\r\n\r\n"@) == ascii("Connection: close\r\n\r\n"@),
{
    reveal_strlit(" ");
    reveal_strlit("/");
    reveal_strlit(" HTTP/1.1\r\n");
    reveal_strlit(" HTTP/1.1");
    reveal_strlit("Host: ");
    reveal_strlit("Connection: close");
    reveal_strlit("Connection: close\r\n\r\n");
    lemma_ascii_text(" "@);
    lemma_ascii_text("/"@);
    lemma_ascii_text("Host: "@);
    lemma_ascii_text(" HTTP/1.1"@);
    lemma_ascii_text("Connection: close"@);
    lemma_crlf();
    assert(ascii(" HTTP/1.1\r\n"@) =~= ascii(" HTTP/1.1"@) + seq![13u8, 10u8]);
    assert(ascii("Connection: close\r\n\r\n"@) =~= ascii("Connection: close"@) + seq![13u8, 10u8]
        + seq![13u8, 10u8]);
}

proof fn lemma_sent_head(method: Seq<u8>, path: Seq<u8>, name: Seq<char>, list: Seq<Header>)
    requires
        forall|i: int| 0 <= i < list.len() ==> is_header(#[trigger] list[i]),
    ensures
        origin_head(
            method,
            if path.len() > 0 {
                path
            } else {
                encode_utf8("/"@)
            },
            name,
            header_lines(list),
        ) == sent_head(method, path, name, list),
{
    lemma_sent_words();
    lemma_header_block(list);
}

/// The address and the path of a target.
proof fn lemma_forward(
    method: Seq<u8>,
    login: Seq<char>,
    name: Seq<char>,
    path: Seq<u8>,
    lines: Seq<Seq<u8>>,
    host: Seq<char>,
    port: u16,
)
    requires
        login.len() > 0 ==> login.last() == '@',
        !name.contains('@'),
        !encode_utf8(login + name).contains(47u8),
        host_port(name, Some(80)) == Some((host, port)),
        path.len() > 0 ==> path[0] == 47u8,
    ensures
        forward_request(method, ascii("http://"@) + encode_utf8(login + name) + path, lines) == Ok::<
            Aim,
            Refusal,
        >(
            Aim::Forward(
                host,
                port,
                origin_head(
                    method,
                    if path.len() > 0 {
                        path
                    } else {
                        encode_utf8("/"@)
                    },
                    name,
                    headers(lines),
                ),
            ),
        ),
{
    let authority = encode_utf8(login + name);
    let rest = authority + path;
    let target = ascii("http://"@) + authority + path;
    reveal_strlit("http://");
    lemma_ascii_text("http://"@);
    assert(target.take(7) =~= ascii("http://"@));
    assert(target.skip(7) =~= rest);
    let n = authority.len() as int;
    assert forall|i: int| 0 <= i < n implies rest[i] != 47u8 by {
        assert(authority.contains(rest[i]));
    }
    lemma_len_to_at(rest, 47u8, n);
    assert(rest.take(n) =~= authority);
    encode_utf8_valid_utf8(login + name);
    encode_utf8_decode_utf8(login + name);
    lemma_after_at(login, name);
    if path.len() > 0 {
        assert(rest.skip(n) =~= path);
    }
}

/// A plain request is sent on to the server that its address names. The head that is
/// sent there is the request line with the method and all of the path, or `/` where
/// there is none; then exactly the headers that do not concern the proxy, as they are
/// and in their order; then the host, where the client named none; and that the
/// connection is closed afterwards.
pub proof fn plain_requests_are_sent_on(
    method: Seq<u8>,
    login: Seq<char>,
    name: Seq<char>,
    path: Seq<u8>,
    list: Seq<Header>,
    body: Seq<u8>,
    host: Seq<char>,
    port: u16,
)
    requires
        method.len() > 0,
        is_unbroken(method),
        !is_word(method, "connect"@),
        login.len() > 0 ==> login.last() == '@',
        !name.contains('@'),
        is_unbroken(encode_utf8(login + name)),
        !encode_utf8(login + name).contains(47u8),
        host_port(name, Some(80)) == Some((host, port)),
        path.len() > 0 ==> path[0] == 47u8,
        is_unbroken(path),
        forall|i: int| 0 <= i < list.len() ==> is_header(#[trigger] list[i]),
    ensures
        request(plain_request(method, encode_utf8(login + name), path, list, body)) == Ok::<
            Aim,
            Refusal,
        >(
            Aim::Forward(
                host,
                port,
                method + ascii(" "@) + (if path.len() > 0 {
                    path
                } else {
                    ascii("/"@)
                }) + ascii(" HTTP/1.1\r\n"@) + header_block(meant_for_origin(list)) + (if has_host(
                    list,
                ) {
                    Seq::empty()
                } else {
                    ascii("Host: "@) + encode_utf8(name) + seq![13u8, 10u8]
                }) + ascii("Connection: close\r\n\r\n"@),
            ),
        ),
{
    let authority = encode_utf8(login + name);
    let scheme = ascii("http://"@);
    let target = scheme + authority + path;
    let behind = header_block(list) + seq![13u8, 10u8] + body;
    let head = plain_request(method, authority, path, list, body);
    assert(ascii(" http://"@) =~= ascii(" "@) + scheme && scheme.len() == 7 && forall|i: int|
        0 <= i < 7 ==> #[trigger] scheme[i] > 32) by {
        reveal_strlit(" http://");
        reveal_strlit("http://");
        reveal_strlit(" ");
    }
    assert(head =~= method + ascii(" "@) + target + ascii(" HTTP/1.1\r\n"@) + behind);
    assert forall|i: int| 0 <= i < target.len() implies target[i] != 32u8 && target[i] != 10u8 by {
        if i >= 7 + authority.len() {
            assert(path.contains(target[i]));
        } else if i >= 7 {
            assert(authority.contains(target[i]));
        } else {
            assert(target[i] == scheme[i]);
        }
    }
    lemma_request_line(method, target, behind);
    lemma_connect_word(method);
    lemma_forward(method, login, name, path, line_parts(behind), host, port);
    lemma_block_lines(list, body);
    lemma_sent_head(method, path, name, list);
}

/// A header that does not concern the proxy is among those that are sent on, and one
/// that does is not.
pub proof fn headers_meant_for_the_origin(list: Seq<Header>, h: Header)
    ensures
        meant_for_origin(list).contains(h) <==> list.contains(h) && !concerns_proxy(h),
    decreases list.len(),
{
    if list.len() > 0 {
        let front = list.drop_last();
        let last = list.last();
        headers_meant_for_the_origin(front, h);
        assert(list =~= front.push(last));
        let inner = meant_for_origin(front);
        assert(list[list.len() - 1] == last);
        if front.contains(h) {
            let i = choose|i: int| 0 <= i < front.len() && front[i] == h;
            assert(list[i] == h);
        }
        if list.contains(h) && h != last {
            let i = choose|i: int| 0 <= i < list.len() && list[i] == h;
            assert(front[i] == h);
        }
        if !concerns_proxy(last) {
            let all = inner.push(last);
            assert(all[inner.len() as int] == last);
            if inner.contains(h) {
                let i = choose|i: int| 0 <= i < inner.len() && inner[i] == h;
                assert(all[i] == h);
            }
            if all.contains(h) && h != last {
                let i = choose|i: int| 0 <= i < all.len() && all[i] == h;
                assert(inner[i] == h);
            }
        }
    }
}

/// A tunnel is asked for with `CONNECT`, in any case of letters, and leads to the
/// host and the port that are written there; nothing else in the request matters.
pub proof fn tunnels_lead_where_they_are_asked_for(
    method: Seq<u8>,
    target: Seq<char>,
    behind: Seq<u8>,
)
    requires
        is_word(method, "connect"@),
        is_unbroken(encode_utf8(target)),
    ensures
        request(tunnel_request(method, encode_utf8(target), behind)) == match host_port(
            target,
            None,
        ) {
            Some((host, port)) => Ok::<Aim, Refusal>(Aim::Connect(host, port)),
            None => Err(Refusal::BadConnect(target)),
        },
{
    reveal_strlit("connect");
    lemma_connect_word(method);
    assert forall|i: int| 0 <= i < method.len() implies method[i] != 32u8 && method[i] != 10u8 by {
    }
    lemma_request_line(method, encode_utf8(target), behind);
    encode_utf8_valid_utf8(target);
    encode_utf8_decode_utf8(target);
}

/// A request for a path alone leads nowhere: a proxy needs the address.
pub proof fn paths_lead_nowhere(method: Seq<u8>, path: Seq<u8>, behind: Seq<u8>)
    requires
        method.len() > 0,
        is_unbroken(method),
        !is_word(method, "connect"@),
        is_unbroken(path),
        path.len() > 0 ==> path[0] == 47u8,
    ensures
        request(tunnel_request(method, path, behind)) == Err::<Aim, Refusal>(Refusal::NotAbsolute),
{
    lemma_connect_word(method);
    lemma_request_line(method, path, behind);
    reveal_strlit("http://");
    lemma_ascii_text("http://"@);
    if path.len() >= 7 && alike(path.take(7), encode_utf8("http://"@)) {
        assert(lower(path.take(7)[0]) == lower(ascii("http://"@)[0]));
    }
}

// ---------- Laws on hosts and ports ----------

/// A host as it is written: some text without colons, brackets and white space.
pub open spec fn is_host_text(host: Seq<char>) -> bool {
    &&& host.len() > 0
    &&& forall|i: int|
        0 <= i < host.len() ==> (#[trigger] host[i]) != ':' && host[i] != '[' && host[i] != ']'
            && !is_space(host[i])
}

proof fn lemma_not_trimmed(s: Seq<char>)
    requires
        s.len() > 0,
        !is_space(s[0]),
        !is_space(s.last()),
    ensures
        trimmed(s) == s,
{
    let p = |c: char| is_space(c);
    assert(trim_start_by(s, p) == s);
    assert(trim_end_by(s, p) == s);
}

proof fn lemma_port(n: nat)
    ensures
        decimal(n).len() > 0,
        all_digits(decimal(n)),
        !decimal(n).contains(':'),
        !is_space(decimal(n).last()),
        crate::http::port_number(decimal(n)) == if 0 < n <= 65535 {
            Some(n as u16)
        } else {
            None
        },
{
    let s = decimal(n);
    decimal_is_digits(n);
    assert(is_digit(s[0]));
    assert(is_digit(s[s.len() - 1]));
    assert forall|i: int| 0 <= i < s.len() implies s[i] != ':' by {
        assert(is_digit(s[i]));
    }
    assert(parsed_number(s, u16::MAX as nat) == if n <= 65535 {
        Some(n)
    } else {
        None
    });
}

/// A host and a port with a colon between them are read as they were written; a port
/// of zero, or of more than sixteen bits, is none.
pub proof fn hosts_and_ports_read_back(host: Seq<char>, n: nat, default_port: Option<u16>)
    requires
        is_host_text(host),
    ensures
        host_port(host + seq![':'] + decimal(n), default_port) == if 0 < n <= 65535 {
            Some((host, n as u16))
        } else {
            None
        },
{
    let digits = decimal(n);
    let s = host + seq![':'] + digits;
    lemma_port(n);
    assert(s[0] == host[0]);
    assert(s.last() == digits.last());
    lemma_not_trimmed(s);
    let k = host.len() as int;
    lemma_len_to_at(s, ':', k);
    assert(s.take(k) =~= host);
    assert(s.skip(k + 1) =~= digits);
}

/// A host alone goes with the default port, where there is one.
pub proof fn hosts_go_with_the_default(host: Seq<char>, default_port: Option<u16>)
    requires
        is_host_text(host),
    ensures
        host_port(host, default_port) == match default_port {
            Some(port) => Some((host, port)),
            None => None,
        },
{
    assert(!is_space(host[host.len() - 1]));
    lemma_not_trimmed(host);
    lemma_len_to_at(host, ':', host.len() as int);
}

/// An address in brackets, with a port or without one, is read without the brackets.
pub proof fn bracketed_addresses_read_back(inner: Seq<char>, n: nat, default_port: Option<u16>)
    requires
        inner.len() > 0,
        !inner.contains(']'),
    ensures
        host_port(seq!['['] + inner + seq![']', ':'] + decimal(n), default_port) == if 0 < n
            <= 65535 {
            Some((inner, n as u16))
        } else {
            None
        },
        host_port(seq!['['] + inner + seq![']'], default_port) == match default_port {
            Some(port) => Some((inner, port)),
            None => None,
        },
{
    let digits = decimal(n);
    lemma_port(n);
    let k = inner.len() as int;
    assert forall|i: int| 0 <= i < k implies inner[i] != ']' by {
        assert(inner.contains(inner[i]));
    }
    let s = seq!['['] + inner + seq![']', ':'] + digits;
    let rest = inner + seq![']', ':'] + digits;
    assert(s.last() == digits.last());
    lemma_not_trimmed(s);
    assert(s.skip(1) =~= rest);
    lemma_len_to_at(rest, ']', k);
    assert(rest.take(k) =~= inner);
    assert(rest.skip(k + 1) =~= seq![':'] + digits);
    assert((seq![':'] + digits).skip(1) =~= digits);
    let t = seq!['['] + inner + seq![']'];
    let short = inner + seq![']'];
    assert(t.last() == ']');
    lemma_not_trimmed(t);
    assert(t.skip(1) =~= short);
    lemma_len_to_at(short, ']', k);
    assert(short.take(k) =~= inner);
    assert(short.skip(k + 1) =~= Seq::<char>::empty());
}

/// An address with several colons and no brackets is none: it cannot be told where
/// the port begins.
pub proof fn bare_colons_are_refused(
    a: Seq<char>,
    b: Seq<char>,
    c: Seq<char>,
    default_port: Option<u16>,
)
    requires
        is_host_text(a),
        c.len() > 0 ==> !is_space(c.last()),
    ensures
        host_port(a + seq![':'] + b + seq![':'] + c, default_port) is None,
{
    let s = a + seq![':'] + b + seq![':'] + c;
    let k = a.len() as int;
    assert(s[0] == a[0]);
    assert(s.last() == if c.len() > 0 {
        c.last()
    } else {
        ':'
    });
    lemma_not_trimmed(s);
    lemma_len_to_at(s, ':', k);
    assert(s.skip(k + 1)[b.len() as int] == ':');
}

// ---------- Laws on request lines ----------

/// A request line has three parts, a method among them, and a version of HTTP; one that
/// has not is refused for that, whatever follows.
pub proof fn other_lines_are_refused(
    method: Seq<u8>,
    target: Seq<u8>,
    version: Seq<u8>,
    behind: Seq<u8>,
)
    requires
        is_unbroken(method),
        is_unbroken(target),
        !version.contains(10u8),
    ensures
        request(method + seq![13u8, 10u8] + behind) == Err::<Aim, Refusal>(Refusal::Malformed),
        request(method + seq![32u8] + target + seq![13u8, 10u8] + behind) == Err::<Aim, Refusal>(
            Refusal::Malformed,
        ),
        method.len() == 0 ==> request(
            method + seq![32u8] + target + seq![32u8] + version + seq![13u8, 10u8] + behind,
        ) == Err::<Aim, Refusal>(Refusal::EmptyMethod),
        method.len() > 0 ==> (request(
            method + seq![32u8] + target + seq![32u8] + version + seq![13u8, 10u8] + behind,
        ) == Err::<Aim, Refusal>(Refusal::Version) <==> !stands_at(
            version,
            seq![72u8, 84u8, 84u8, 80u8, 47u8],
            0,
        )),
{
    lemma_one_part(method, behind);
    lemma_two_parts(method, target, behind);
    lemma_three_parts(method, target, version, behind);
}

proof fn lemma_one_part(method: Seq<u8>, behind: Seq<u8>)
    requires
        is_unbroken(method),
    ensures
        request(method + seq![13u8, 10u8] + behind) == Err::<Aim, Refusal>(Refusal::Malformed),
{
    lemma_first_line(method, behind);
    lemma_no_space(method);
}

proof fn lemma_no_space(s: Seq<u8>)
    requires
        is_unbroken(s),
    ensures
        len_to(s, 32u8) == s.len(),
{
    assert forall|i: int| 0 <= i < s.len() implies s[i] != 32u8 by {
        assert(s.contains(s[i]));
    }
    lemma_len_to_at(s, 32u8, s.len() as int);
}

/// The first space in a line, and what follows it.
proof fn lemma_first_space(front: Seq<u8>, rest: Seq<u8>)
    requires
        is_unbroken(front),
    ensures
        ({
            let line = front + seq![32u8] + rest;
            &&& len_to(line, 32u8) == front.len()
            &&& line.take(front.len() as int) == front
            &&& line.skip(front.len() as int + 1) == rest
            &&& !rest.contains(10u8) ==> !line.contains(10u8)
        }),
{
    let line = front + seq![32u8] + rest;
    let n = front.len() as int;
    assert forall|i: int| 0 <= i < n implies line[i] != 32u8 && line[i] != 10u8 by {
        assert(front.contains(front[i]));
    }
    lemma_len_to_at(line, 32u8, n);
    assert(line.take(n) =~= front);
    assert(line.skip(n + 1) =~= rest);
    if !rest.contains(10u8) {
        assert forall|i: int| 0 <= i < line.len() implies line[i] != 10u8 by {
            if i > n {
                assert(rest.contains(rest[i - n - 1]));
            }
        }
    }
}

proof fn lemma_two_parts(method: Seq<u8>, target: Seq<u8>, behind: Seq<u8>)
    requires
        is_unbroken(method),
        is_unbroken(target),
    ensures
        request(method + seq![32u8] + target + seq![13u8, 10u8] + behind) == Err::<Aim, Refusal>(
            Refusal::Malformed,
        ),
{
    lemma_first_space(method, target);
    lemma_first_line(method + seq![32u8] + target, behind);
    lemma_no_space(target);
}

proof fn lemma_three_parts(
    method: Seq<u8>,
    target: Seq<u8>,
    version: Seq<u8>,
    behind: Seq<u8>,
)
    requires
        is_unbroken(method),
        is_unbroken(target),
        !version.contains(10u8),
    ensures
        ({
            let head = method + seq![32u8] + target + seq![32u8] + version + seq![13u8, 10u8]
                + behind;
            &&& method.len() == 0 ==> request(head) == Err::<Aim, Refusal>(Refusal::EmptyMethod)
            &&& method.len() > 0 ==> (request(head) == Err::<Aim, Refusal>(Refusal::Version)
                <==> !stands_at(version, seq![72u8, 84u8, 84u8, 80u8, 47u8], 0))
        }),
{
    let tail = target + seq![32u8] + version;
    let line = method + seq![32u8] + tail;
    assert(method + seq![32u8] + target + seq![32u8] + version =~= line);
    lemma_first_space(target, version);
    lemma_first_space(method, tail);
    lemma_first_line(line, behind);
    reveal_strlit("HTTP/");
    lemma_ascii_text("HTTP/"@);
    assert(ascii("HTTP/"@) =~= seq![72u8, 84u8, 84u8, 80u8, 47u8]);
}

/// The name of a header stands in front of the first colon; white space around it does
/// not belong to it.
pub proof fn header_names_stand_in_front(
    front: Seq<u8>,
    name: Seq<u8>,
    back: Seq<u8>,
    value: Seq<u8>,
)
    requires
        name.len() > 0,
        !name.contains(58u8),
        !is_ascii_space(name[0]),
        !is_ascii_space(name.last()),
        forall|i: int| 0 <= i < front.len() ==> is_ascii_space(#[trigger] front[i]),
        forall|i: int| 0 <= i < back.len() ==> is_ascii_space(#[trigger] back[i]),
    ensures
        name_of(front + name + back + seq![58u8] + value) == name,
{
    let whole = front + name + back;
    let line = whole + seq![58u8] + value;
    assert forall|i: int| 0 <= i < whole.len() implies line[i] != 58u8 by {
        if i < front.len() {
            assert(is_ascii_space(front[i]));
        } else if i < front.len() + name.len() {
            assert(name.contains(name[i - front.len()]));
        } else {
            assert(is_ascii_space(back[i - front.len() - name.len()]));
        }
    }
    lemma_len_to_at(line, 58u8, whole.len() as int);
    assert(line.take(whole.len() as int) =~= whole);
    lemma_spaces_in_front(front, name + back);
    assert(whole =~= front + (name + back));
    lemma_spaces_behind(name, back);
}

proof fn lemma_spaces_in_front(front: Seq<u8>, rest: Seq<u8>)
    requires
        rest.len() > 0,
        !is_ascii_space(rest[0]),
        forall|i: int| 0 <= i < front.len() ==> is_ascii_space(#[trigger] front[i]),
    ensures
        trimmed_front(front + rest) == rest,
    decreases front.len(),
{
    if front.len() == 0 {
        assert(front + rest =~= rest);
    } else {
        let less = front.drop_first();
        assert(is_ascii_space(front[0]));
        assert((front + rest).drop_first() =~= less + rest);
        assert forall|i: int| 0 <= i < less.len() implies is_ascii_space(#[trigger] less[i]) by {
            assert(less[i] == front[i + 1]);
        }
        lemma_spaces_in_front(less, rest);
    }
}

proof fn lemma_spaces_behind(rest: Seq<u8>, back: Seq<u8>)
    requires
        rest.len() > 0,
        !is_ascii_space(rest.last()),
        forall|i: int| 0 <= i < back.len() ==> is_ascii_space(#[trigger] back[i]),
    ensures
        trimmed_back(rest + back) == rest,
    decreases back.len(),
{
    if back.len() == 0 {
        assert(rest + back =~= rest);
    } else {
        let less = back.drop_last();
        assert(is_ascii_space(back[back.len() - 1]));
        assert((rest + back).drop_last() =~= rest + less);
        assert forall|i: int| 0 <= i < less.len() implies is_ascii_space(#[trigger] less[i]) by {
            assert(less[i] == back[i]);
        }
        lemma_spaces_behind(rest, less);
    }
}


/// Without a host there is no destination: neither nothing at all, nor a port alone, nor
/// empty brackets lead anywhere; and behind brackets nothing but a port may follow.
pub proof fn empty_hosts_are_refused(rest: Seq<char>, inner: Seq<char>, default_port: Option<u16>)
    requires
        rest.len() > 0 ==> !is_space(rest.last()),
        !inner.contains(']'),
    ensures
        host_port(Seq::empty(), default_port) is None,
        host_port(seq![':'] + rest, default_port) is None,
        host_port(seq!['[', ']'] + rest, default_port) is None,
        host_port(seq!['['] + inner, default_port) is None || (inner.len() > 0 && is_space(
            inner.last(),
        )),
        rest.len() > 0 && rest[0] != ':' ==> host_port(
            seq!['['] + inner + seq![']'] + rest,
            default_port,
        ) is None,
{
    let e = Seq::<char>::empty();
    assert(trim_start_by(e, |c: char| is_space(c)) =~= e);
    let a = seq![':'] + rest;
    lemma_not_trimmed(a);
    lemma_len_to_at(a, ':', 0);
    let b = seq!['[', ']'] + rest;
    lemma_not_trimmed(b);
    assert(b.skip(1) =~= seq![']'] + rest);
    lemma_len_to_at(seq![']'] + rest, ']', 0);
    let c = seq!['['] + inner;
    if inner.len() == 0 || !is_space(inner.last()) {
        lemma_not_trimmed(c);
        assert(c.skip(1) =~= inner);
        assert forall|i: int| 0 <= i < inner.len() implies inner[i] != ']' by {
            assert(inner.contains(inner[i]));
        }
        lemma_len_to_at(inner, ']', inner.len() as int);
    }
    if rest.len() > 0 && rest[0] != ':' {
        let d = seq!['['] + inner + seq![']'] + rest;
        lemma_not_trimmed(d);
        let body = inner + seq![']'] + rest;
        let k = inner.len() as int;
        assert(d.skip(1) =~= body);
        assert forall|i: int| 0 <= i < k implies body[i] != ']' by {
            assert(inner.contains(inner[i]));
        }
        lemma_len_to_at(body, ']', k);
        assert(body.skip(k + 1) =~= rest);
    }
}


} // verus!
