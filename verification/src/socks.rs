//! The SOCKS5 proxy: the handshake, from the greeting to the destination.

use crate::numbers::{
    all_digits, decimal, decimal_is_digits, decimal_is_short, decimal_text, digits_value, is_digit,
};
use crate::text::{byte_len, lemma_parts_first, parts, string_from_utf8};
use vstd::prelude::*;
use vstd::slice::*;
use vstd::string::*;
use vstd::utf8::*;

verus! {

/// Seconds that a client has for the handshake.
pub const HANDSHAKE_SECONDS: u64 = 10;

pub const REP_SUCCESS: u8 = 0;

pub const REP_GENERAL_FAILURE: u8 = 1;

pub const REP_HOST_UNREACHABLE: u8 = 4;

pub const REP_COMMAND_NOT_SUPPORTED: u8 = 7;

pub const REP_ADDR_TYPE_NOT_SUPPORTED: u8 = 8;

// ---------- Replies ----------

/// A reply with a code, and no address.
pub open spec fn reply_bytes(code: u8) -> Seq<u8> {
    seq![5u8, code, 0u8, 1u8, 0u8, 0u8, 0u8, 0u8, 0u8, 0u8]
}

fn coded_reply(code: u8) -> (out: Vec<u8>)
    ensures
        out@ == reply_bytes(code),
{
    vec![5, code, 0, 1, 0, 0, 0, 0, 0, 0]
}

/// The code of a refusal: the one that is given, unless that stands for success.
pub open spec fn refusal_code(code: u8) -> u8 {
    if code == REP_SUCCESS {
        REP_GENERAL_FAILURE
    } else {
        code
    }
}

/// The code of the answer to an attempt to reach a target.
pub open spec fn dial_code(opened: bool) -> u8 {
    if opened {
        REP_SUCCESS
    } else {
        REP_HOST_UNREACHABLE
    }
}

/// The reply that refuses a request. It never reads as a success.
pub fn reply(code: u8) -> (out: Vec<u8>)
    ensures
        out@ == reply_bytes(refusal_code(code)),
        out@ == reply_bytes(
            if code == REP_SUCCESS {
                REP_GENERAL_FAILURE
            } else {
                code
            },
        ),
{
    if code == REP_SUCCESS {
        coded_reply(REP_GENERAL_FAILURE)
    } else {
        coded_reply(code)
    }
}

/// The reply that the way is open. The address on the far side is not known, and
/// left at zero.
pub fn success_reply() -> (out: Vec<u8>)
    ensures
        out@ == reply_bytes(REP_SUCCESS),
{
    coded_reply(REP_SUCCESS)
}

/// The reply once the target that was asked for has been tried.
pub fn dial_reply(opened: bool) -> (out: Vec<u8>)
    ensures
        out@ == reply_bytes(dial_code(opened)),
        out@ == reply_bytes(
            if opened {
                REP_SUCCESS
            } else {
                REP_HOST_UNREACHABLE
            },
        ),
{
    if opened {
        success_reply()
    } else {
        reply(REP_HOST_UNREACHABLE)
    }
}

// ---------- Where the handshake stands ----------

/// A host that a client asked for, as text; an address of sixteen bytes is kept
/// as it is.
pub enum Place {
    Name(Seq<char>),
    V6(Seq<u8>),
}

/// A host that a client asked for.
#[derive(Debug, PartialEq, Eq)]
pub enum Host {
    /// A name, or an IPv4 address in dotted form.
    Name(String),
    /// The sixteen bytes of an IPv6 address.
    V6(Vec<u8>),
}

impl View for Host {
    type V = Place;

    open spec fn view(&self) -> Place {
        match *self {
            Host::Name(s) => Place::Name(s@),
            Host::V6(b) => Place::V6(b@),
        }
    }
}

/// Why a handshake ends without a destination.
#[derive(Debug, PartialEq, Eq, Clone, Copy)]
pub enum SocksError {
    NotSocks5(u8),
    NoMethod,
    BadVersion,
    Command(u8),
    EmptyName,
    NameNotText,
    AddressType(u8),
    PortZero,
}

/// The message of an error.
pub open spec fn error_text(e: SocksError) -> Seq<char> {
    match e {
        SocksError::NotSocks5(v) => "not SOCKS5 (version byte "@ + decimal(v as nat) + ")"@,
        SocksError::NoMethod => "client offered no acceptable auth method"@,
        SocksError::BadVersion => "bad request version"@,
        SocksError::Command(c) => "unsupported command "@ + decimal(c as nat),
        SocksError::EmptyName => "empty hostname"@,
        SocksError::NameNotText => "hostname not utf8"@,
        SocksError::AddressType(t) => "unsupported atyp "@ + decimal(t as nat),
        SocksError::PortZero => "port 0 requested"@,
    }
}

impl SocksError {
    /// The message of the error.
    pub fn message(&self) -> (out: String)
        ensures
            out@ == error_text(*self),
    {
        match self {
            SocksError::NotSocks5(v) => {
                let mut out = "not SOCKS5 (version byte ".to_owned();
                out.append(decimal_text(*v as u64).as_str());
                out.append(")");
                out
            },
            SocksError::NoMethod => "client offered no acceptable auth method".to_owned(),
            SocksError::BadVersion => "bad request version".to_owned(),
            SocksError::Command(c) => {
                let mut out = "unsupported command ".to_owned();
                out.append(decimal_text(*c as u64).as_str());
                out
            },
            SocksError::EmptyName => "empty hostname".to_owned(),
            SocksError::NameNotText => "hostname not utf8".to_owned(),
            SocksError::AddressType(t) => {
                let mut out = "unsupported atyp ".to_owned();
                out.append(decimal_text(*t as u64).as_str());
                out
            },
            SocksError::PortZero => "port 0 requested".to_owned(),
        }
    }
}

/// Where a handshake stands, as text.
pub enum Stage {
    Greeting,
    Methods(nat),
    Header,
    V4,
    NameLength,
    Name(nat),
    V6,
    Asked(Place, u16),
    Failed(SocksError),
}

/// Where a handshake stands: what is read next, or how it ended.
#[derive(Debug, PartialEq, Eq)]
pub enum Phase {
    /// The version, and the number of methods.
    Greeting,
    /// So many methods.
    Methods(u8),
    /// Version, command, a reserved byte, and the kind of address.
    Header,
    /// Four bytes of address, and the port.
    V4,
    /// The length of a name.
    NameLength,
    /// A name of so many bytes, and the port.
    Name(u8),
    /// Sixteen bytes of address, and the port.
    V6,
    /// The client asked for this destination.
    Asked(Host, u16),
    /// The handshake failed.
    Failed(SocksError),
}

impl View for Phase {
    type V = Stage;

    open spec fn view(&self) -> Stage {
        match *self {
            Phase::Greeting => Stage::Greeting,
            Phase::Methods(n) => Stage::Methods(n as nat),
            Phase::Header => Stage::Header,
            Phase::V4 => Stage::V4,
            Phase::NameLength => Stage::NameLength,
            Phase::Name(n) => Stage::Name(n as nat),
            Phase::V6 => Stage::V6,
            Phase::Asked(host, port) => Stage::Asked(host@, port),
            Phase::Failed(e) => Stage::Failed(e),
        }
    }
}

/// The handshake has ended.
pub open spec fn is_over(stage: Stage) -> bool {
    stage is Asked || stage is Failed
}

/// Number of bytes that are read next.
pub open spec fn wanted(stage: Stage) -> nat {
    match stage {
        Stage::Greeting => 2,
        Stage::Methods(n) => n,
        Stage::Header => 4,
        Stage::V4 => 6,
        Stage::NameLength => 1,
        Stage::Name(n) => n + 2,
        Stage::V6 => 18,
        Stage::Asked(_, _) => 0,
        Stage::Failed(_) => 0,
    }
}

/// A number written in two bytes, the higher one first.
pub open spec fn port_value(hi: u8, lo: u8) -> u16 {
    (hi as int * 256 + lo as int) as u16
}

/// Four bytes in dotted form.
pub open spec fn dotted(a: Seq<u8>) -> Seq<char> {
    decimal(a[0] as nat) + "."@ + decimal(a[1] as nat) + "."@ + decimal(a[2] as nat) + "."@
        + decimal(a[3] as nat)
}

/// A destination; there is no port zero.
pub open spec fn asked(place: Place, port: u16) -> (Stage, Seq<u8>) {
    if port == 0 {
        (Stage::Failed(SocksError::PortZero), reply_bytes(REP_GENERAL_FAILURE))
    } else {
        (Stage::Asked(place, port), Seq::empty())
    }
}

/// Where the handshake stands after the bytes it waited for, and what is sent to
/// the client.
pub open spec fn advanced(stage: Stage, input: Seq<u8>) -> (Stage, Seq<u8>) {
    match stage {
        Stage::Greeting => if input[0] != 5 {
            (Stage::Failed(SocksError::NotSocks5(input[0])), Seq::empty())
        } else {
            (Stage::Methods(input[1] as nat), Seq::empty())
        },
        Stage::Methods(_) => if input.contains(0u8) {
            (Stage::Header, seq![5u8, 0u8])
        } else {
            (Stage::Failed(SocksError::NoMethod), seq![5u8, 255u8])
        },
        Stage::Header => if input[0] != 5 {
            (Stage::Failed(SocksError::BadVersion), Seq::empty())
        } else if input[1] != 1 {
            (Stage::Failed(SocksError::Command(input[1])), reply_bytes(REP_COMMAND_NOT_SUPPORTED))
        } else if input[3] == 1 {
            (Stage::V4, Seq::empty())
        } else if input[3] == 3 {
            (Stage::NameLength, Seq::empty())
        } else if input[3] == 4 {
            (Stage::V6, Seq::empty())
        } else {
            (
                Stage::Failed(SocksError::AddressType(input[3])),
                reply_bytes(REP_ADDR_TYPE_NOT_SUPPORTED),
            )
        },
        Stage::V4 => asked(Place::Name(dotted(input)), port_value(input[4], input[5])),
        Stage::NameLength => if input[0] == 0 {
            (Stage::Failed(SocksError::EmptyName), reply_bytes(REP_GENERAL_FAILURE))
        } else {
            (Stage::Name(input[0] as nat), Seq::empty())
        },
        Stage::Name(n) => {
            let name = input.take(n as int);
            if !valid_utf8(name) {
                (Stage::Failed(SocksError::NameNotText), Seq::empty())
            } else {
                asked(
                    Place::Name(decode_utf8(name)),
                    port_value(input[n as int], input[n as int + 1]),
                )
            }
        },
        Stage::V6 => asked(Place::V6(input.take(16)), port_value(input[16], input[17])),
        Stage::Asked(_, _) => (stage, Seq::empty()),
        Stage::Failed(_) => (stage, Seq::empty()),
    }
}

// ---------- The handshake ----------

fn dotted_text(input: &[u8]) -> (out: String)
    requires
        input.len() >= 4,
    ensures
        out@ == dotted(input@),
{
    let mut out = decimal_text(input[0] as u64);
    out.append(".");
    out.append(decimal_text(input[1] as u64).as_str());
    out.append(".");
    out.append(decimal_text(input[2] as u64).as_str());
    out.append(".");
    out.append(decimal_text(input[3] as u64).as_str());
    out
}

fn ask(host: Host, hi: u8, lo: u8) -> (res: (Phase, Vec<u8>))
    ensures
        (res.0@, res.1@) == asked(host@, port_value(hi, lo)),
{
    let port: u16 = hi as u16 * 256 + lo as u16;
    if port == 0 {
        (Phase::Failed(SocksError::PortZero), coded_reply(REP_GENERAL_FAILURE))
    } else {
        (Phase::Asked(host, port), Vec::new())
    }
}

fn holds_zero(input: &[u8]) -> (res: bool)
    ensures
        res == input@.contains(0u8),
{
    for i in 0..input.len()
        invariant
            forall|k: int| 0 <= k < i ==> input@[k] != 0u8,
    {
        if input[i] == 0 {
            assert(input@.contains(input@[i as int]));
            return true;
        }
    }
    false
}

fn header_phase(input: &[u8]) -> (res: (Phase, Vec<u8>))
    requires
        input.len() == 4,
    ensures
        (res.0@, res.1@) == advanced(Stage::Header, input@),
{
    let none: Vec<u8> = Vec::new();
    if input[0] != 5 {
        (Phase::Failed(SocksError::BadVersion), none)
    } else if input[1] != 1 {
        (Phase::Failed(SocksError::Command(input[1])), coded_reply(REP_COMMAND_NOT_SUPPORTED))
    } else if input[3] == 1 {
        (Phase::V4, none)
    } else if input[3] == 3 {
        (Phase::NameLength, none)
    } else if input[3] == 4 {
        (Phase::V6, none)
    } else {
        (
            Phase::Failed(SocksError::AddressType(input[3])),
            coded_reply(REP_ADDR_TYPE_NOT_SUPPORTED),
        )
    }
}

fn name_phase(n: usize, input: &[u8]) -> (res: (Phase, Vec<u8>))
    requires
        input.len() == n + 2,
    ensures
        (res.0@, res.1@) == advanced(Stage::Name(n as nat), input@),
{
    let name = slice_subrange(input, 0, n);
    assert(name@ =~= input@.take(n as int));
    match string_from_utf8(slice_to_vec(name)) {
        None => (Phase::Failed(SocksError::NameNotText), Vec::new()),
        Some(text) => {
            proof {
                encode_utf8_valid_utf8(text@);
                encode_utf8_decode_utf8(text@);
            }
            ask(Host::Name(text), input[n], input[n + 1])
        },
    }
}

impl Phase {
    /// Number of bytes to be read next.
    pub fn needed(&self) -> (n: usize)
        ensures
            n == wanted(self@),
    {
        match self {
            Phase::Greeting => 2,
            Phase::Methods(n) => *n as usize,
            Phase::Header => 4,
            Phase::V4 => 6,
            Phase::NameLength => 1,
            Phase::Name(n) => *n as usize + 2,
            Phase::V6 => 18,
            Phase::Asked(_, _) => 0,
            Phase::Failed(_) => 0,
        }
    }

    /// Takes in the bytes that were waited for, and gives back what is to be sent
    /// to the client.
    pub fn feed(&mut self, input: &[u8]) -> (out: Vec<u8>)
        requires
            input@.len() == wanted(old(self)@),
            !is_over(old(self)@),
        ensures
            (final(self)@, out@) == advanced(old(self)@, input@),
    {
        let none: Vec<u8> = Vec::new();
        let (next, out) = match self {
            Phase::Greeting => {
                if input[0] != 5 {
                    (Phase::Failed(SocksError::NotSocks5(input[0])), none)
                } else {
                    (Phase::Methods(input[1]), none)
                }
            },
            Phase::Methods(_) => {
                if holds_zero(input) {
                    (Phase::Header, vec![5u8, 0u8])
                } else {
                    (Phase::Failed(SocksError::NoMethod), vec![5u8, 255u8])
                }
            },
            Phase::Header => header_phase(input),
            Phase::V4 => ask(Host::Name(dotted_text(input)), input[4], input[5]),
            Phase::NameLength => {
                if input[0] == 0 {
                    (Phase::Failed(SocksError::EmptyName), coded_reply(REP_GENERAL_FAILURE))
                } else {
                    (Phase::Name(input[0]), none)
                }
            },
            Phase::Name(n) => name_phase(*n as usize, input),
            Phase::V6 => {
                let address = slice_subrange(input, 0, 16);
                assert(address@ =~= input@.take(16));
                ask(Host::V6(slice_to_vec(address)), input[16], input[17])
            },
            Phase::Asked(_, _) | Phase::Failed(_) => (Phase::Failed(SocksError::BadVersion), none),
        };
        *self = next;
        out
    }
}

// ---------- Laws ----------

/// How many more times a handshake may read.
pub open spec fn reads_left(stage: Stage) -> nat {
    match stage {
        Stage::Greeting => 5,
        Stage::Methods(_) => 4,
        Stage::Header => 3,
        Stage::V4 => 1,
        Stage::NameLength => 2,
        Stage::Name(_) => 1,
        Stage::V6 => 1,
        Stage::Asked(_, _) => 0,
        Stage::Failed(_) => 0,
    }
}

/// Where a handshake stands after a stream of bytes, and all that it has sent.
pub open spec fn conversation(stage: Stage, stream: Seq<u8>) -> (Stage, Seq<u8>)
    decreases reads_left(stage),
{
    if is_over(stage) || stream.len() < wanted(stage) {
        (stage, Seq::empty())
    } else {
        let n = wanted(stage) as int;
        let (next, sent) = advanced(stage, stream.take(n));
        if reads_left(next) < reads_left(stage) {
            let (last, more) = conversation(next, stream.skip(n));
            (last, sent + more)
        } else {
            (next, sent)
        }
    }
}

/// Each read brings a handshake closer to its end.
pub proof fn handshakes_end(stage: Stage, input: Seq<u8>)
    requires
        !is_over(stage),
        input.len() == wanted(stage),
    ensures
        reads_left(advanced(stage, input).0) < reads_left(stage),
{
}

/// What a client is told of a failure. One that does not speak the protocol, or
/// sends a name that is no text, is told nothing.
pub open spec fn refusal(e: SocksError) -> Seq<u8> {
    match e {
        SocksError::NotSocks5(_) => Seq::empty(),
        SocksError::NoMethod => seq![5u8, 255u8],
        SocksError::BadVersion => Seq::empty(),
        SocksError::Command(_) => reply_bytes(REP_COMMAND_NOT_SUPPORTED),
        SocksError::EmptyName => reply_bytes(REP_GENERAL_FAILURE),
        SocksError::NameNotText => Seq::empty(),
        SocksError::AddressType(_) => reply_bytes(REP_ADDR_TYPE_NOT_SUPPORTED),
        SocksError::PortZero => reply_bytes(REP_GENERAL_FAILURE),
    }
}

/// A handshake that fails sends last what its client is told of the failure, and
/// never a success.
pub proof fn refusals_are_told(stage: Stage, input: Seq<u8>)
    requires
        !is_over(stage),
        input.len() == wanted(stage),
    ensures
        advanced(stage, input).0 matches Stage::Failed(e) ==> advanced(stage, input).1 == refusal(e)
            && refusal(e) != reply_bytes(REP_SUCCESS),
{
    if let Stage::Failed(e) = advanced(stage, input).0 {
        let said = refusal(e);
        let yes = reply_bytes(REP_SUCCESS);
        assert(said.len() == yes.len() ==> said[1] != yes[1]);
    }
}

/// No destination has port zero.
pub proof fn ports_are_positive(stage: Stage, stream: Seq<u8>)
    requires
        !is_over(stage),
    ensures
        conversation(stage, stream).0 matches Stage::Asked(_, port) ==> port > 0,
    decreases reads_left(stage),
{
    let n = wanted(stage) as int;
    if stream.len() >= n {
        let (next, _) = advanced(stage, stream.take(n));
        if !is_over(next) {
            ports_are_positive(next, stream.skip(n));
        }
    }
}

/// What a client sends to reach a name.
pub open spec fn name_request(methods: Seq<u8>, name: Seq<char>, port: u16) -> Seq<u8> {
    seq![5u8, methods.len() as u8] + methods + seq![5u8, 1u8, 0u8, 3u8] + seq![byte_len(name) as u8]
        + encode_utf8(name) + seq![(port / 256) as u8, (port % 256) as u8]
}

/// A client that asks for a name gets the way to that name: the handshake ends
/// with it, and sends nothing but the choice of method.
#[verifier::rlimit(30)]
pub proof fn names_are_reached(methods: Seq<u8>, name: Seq<char>, port: u16)
    requires
        methods.len() <= 255,
        methods.contains(0u8),
        1 <= byte_len(name) <= 255,
        port > 0,
    ensures
        conversation(Stage::Greeting, name_request(methods, name, port)) == (
            Stage::Asked(Place::Name(name), port),
            seq![5u8, 0u8],
        ),
{
    reveal_with_fuel(conversation, 6);
    let none = Seq::<u8>::empty();
    let m = methods.len() as int;
    let k = byte_len(name) as int;
    let bytes = encode_utf8(name);
    let tail = seq![(port / 256) as u8, (port % 256) as u8];
    let s0 = name_request(methods, name, port);
    let s1 = methods + seq![5u8, 1u8, 0u8, 3u8] + seq![k as u8] + bytes + tail;
    let s2 = seq![5u8, 1u8, 0u8, 3u8] + seq![k as u8] + bytes + tail;
    let s3 = seq![k as u8] + bytes + tail;
    let s4 = bytes + tail;
    assert(s0.take(2) =~= seq![5u8, m as u8]);
    assert(s0.skip(2) =~= s1);
    assert(s1.take(m) =~= methods);
    assert(s1.skip(m) =~= s2);
    assert(s2.take(4) =~= seq![5u8, 1u8, 0u8, 3u8]);
    assert(s2.skip(4) =~= s3);
    assert(s3.take(1) =~= seq![k as u8]);
    assert(s3.skip(1) =~= s4);
    assert(s4.take(k + 2) =~= s4);
    assert(s4.take(k) =~= bytes);
    encode_utf8_valid_utf8(name);
    encode_utf8_decode_utf8(name);
    assert(port_value((port / 256) as u8, (port % 256) as u8) == port);
    let done = Stage::Asked(Place::Name(name), port);
    assert(advanced(Stage::Name(k as nat), s4) == (done, none));
    assert(conversation(done, s4.skip(k + 2)) == (done, none));
    assert(conversation(Stage::Name(k as nat), s4) == (done, none)) by {
        assert(none + none =~= none);
    }
    assert(conversation(Stage::NameLength, s3) == (done, none)) by {
        assert(none + none =~= none);
    }
    assert(conversation(Stage::Header, s2) == (done, none)) by {
        assert(none + none =~= none);
    }
    assert(conversation(Stage::Methods(m as nat), s1) == (done, seq![5u8, 0u8])) by {
        assert(seq![5u8, 0u8] + none =~= seq![5u8, 0u8]);
    }
    assert(none + seq![5u8, 0u8] =~= seq![5u8, 0u8]);
}

/// What a client sends to reach an address of four bytes.
pub open spec fn v4_request(methods: Seq<u8>, address: Seq<u8>, port: u16) -> Seq<u8> {
    seq![5u8, methods.len() as u8] + methods + seq![5u8, 1u8, 0u8, 1u8] + address + seq![
        (port / 256) as u8,
        (port % 256) as u8,
    ]
}

/// What a client sends to reach an address of sixteen bytes.
pub open spec fn v6_request(methods: Seq<u8>, address: Seq<u8>, port: u16) -> Seq<u8> {
    seq![5u8, methods.len() as u8] + methods + seq![5u8, 1u8, 0u8, 4u8] + address + seq![
        (port / 256) as u8,
        (port % 256) as u8,
    ]
}

/// A client that asks for an address of four bytes gets the way to it, in dotted
/// form.
pub proof fn v4_is_reached(methods: Seq<u8>, address: Seq<u8>, port: u16)
    requires
        methods.len() <= 255,
        methods.contains(0u8),
        address.len() == 4,
        port > 0,
    ensures
        conversation(Stage::Greeting, v4_request(methods, address, port)) == (
            Stage::Asked(Place::Name(dotted(address)), port),
            seq![5u8, 0u8],
        ),
{
    reveal_with_fuel(conversation, 5);
    let none = Seq::<u8>::empty();
    let m = methods.len() as int;
    let tail = seq![(port / 256) as u8, (port % 256) as u8];
    let s0 = v4_request(methods, address, port);
    let s1 = methods + seq![5u8, 1u8, 0u8, 1u8] + address + tail;
    let s2 = seq![5u8, 1u8, 0u8, 1u8] + address + tail;
    let s3 = address + tail;
    assert(s0.take(2) =~= seq![5u8, m as u8]);
    assert(s0.skip(2) =~= s1);
    assert(s1.take(m) =~= methods);
    assert(s1.skip(m) =~= s2);
    assert(s2.take(4) =~= seq![5u8, 1u8, 0u8, 1u8]);
    assert(s2.skip(4) =~= s3);
    assert(s3.take(6) =~= s3);
    assert(port_value((port / 256) as u8, (port % 256) as u8) == port);
    let done = Stage::Asked(Place::Name(dotted(address)), port);
    assert(none + none =~= none);
    assert(advanced(Stage::V4, s3) == (done, none));
    assert(conversation(done, s3.skip(6)) == (done, none));
    assert(conversation(Stage::V4, s3) == (done, none));
    assert(conversation(Stage::Header, s2) == (done, none));
    assert(seq![5u8, 0u8] + none =~= seq![5u8, 0u8]);
    assert(conversation(Stage::Methods(m as nat), s1) == (done, seq![5u8, 0u8]));
    assert(none + seq![5u8, 0u8] =~= seq![5u8, 0u8]);
}

/// A text is an IPv4 address: four decimal numbers with dots between them, none of
/// them with a zero in front, whose values are the four bytes in order.
pub open spec fn is_address_text(text: Seq<char>, address: Seq<u8>) -> bool {
    let four = parts(text, '.');
    &&& four.len() == 4
    &&& forall|i: int|
        0 <= i < 4 ==> {
            &&& (#[trigger] four[i]).len() > 0
            &&& all_digits(four[i])
            &&& digits_value(four[i]) == address[i]
            &&& four[i].len() > 1 ==> four[i][0] != '0'
        }
}

proof fn lemma_number(n: u8)
    ensures
        decimal(n as nat).len() > 0,
        all_digits(decimal(n as nat)),
        digits_value(decimal(n as nat)) == n,
        decimal(n as nat).len() > 1 ==> decimal(n as nat)[0] != '0',
        !decimal(n as nat).contains('.'),
{
    let s = decimal(n as nat);
    decimal_is_digits(n as nat);
    decimal_is_short(n as nat);
    assert forall|i: int| 0 <= i < s.len() implies s[i] != '.' by {
        assert(is_digit(s[i]));
    }
}

pub proof fn lemma_dotted(a: Seq<u8>)
    requires
        a.len() == 4,
    ensures
        is_address_text(dotted(a), a),
{
    reveal_strlit(".");
    let dot = seq!['.'];
    assert("."@ =~= dot);
    lemma_number(a[0]);
    lemma_number(a[1]);
    lemma_number(a[2]);
    lemma_number(a[3]);
    let w = decimal(a[0] as nat);
    let x = decimal(a[1] as nat);
    let y = decimal(a[2] as nat);
    let z = decimal(a[3] as nat);
    assert(dotted(a) =~= w + dot + (x + dot + (y + dot + z)));
    lemma_parts_first(w, x + dot + (y + dot + z), '.');
    lemma_parts_first(x, y + dot + z, '.');
    lemma_parts_first(y, z, '.');
    lemma_parts_first(z, Seq::empty(), '.');
    assert(parts(dotted(a), '.') =~= seq![w, x, y, z]);
}

/// The text that a request for an address of four bytes leads to, split at its dots,
/// gives back the bytes that the client sent.
pub proof fn v4_addresses_read_back(methods: Seq<u8>, address: Seq<u8>, port: u16)
    requires
        methods.len() <= 255,
        methods.contains(0u8),
        address.len() == 4,
        port > 0,
    ensures
        conversation(Stage::Greeting, v4_request(methods, address, port)).0 matches Stage::Asked(
            Place::Name(text),
            p,
        ) && p == port && is_address_text(text, address),
{
    v4_is_reached(methods, address, port);
    lemma_dotted(address);
}

/// A client that asks for an address of sixteen bytes gets the way to it.
pub proof fn v6_is_reached(methods: Seq<u8>, address: Seq<u8>, port: u16)
    requires
        methods.len() <= 255,
        methods.contains(0u8),
        address.len() == 16,
        port > 0,
    ensures
        conversation(Stage::Greeting, v6_request(methods, address, port)) == (
            Stage::Asked(Place::V6(address), port),
            seq![5u8, 0u8],
        ),
{
    reveal_with_fuel(conversation, 5);
    let none = Seq::<u8>::empty();
    let m = methods.len() as int;
    let tail = seq![(port / 256) as u8, (port % 256) as u8];
    let s0 = v6_request(methods, address, port);
    let s1 = methods + seq![5u8, 1u8, 0u8, 4u8] + address + tail;
    let s2 = seq![5u8, 1u8, 0u8, 4u8] + address + tail;
    let s3 = address + tail;
    assert(s0.take(2) =~= seq![5u8, m as u8]);
    assert(s0.skip(2) =~= s1);
    assert(s1.take(m) =~= methods);
    assert(s1.skip(m) =~= s2);
    assert(s2.take(4) =~= seq![5u8, 1u8, 0u8, 4u8]);
    assert(s2.skip(4) =~= s3);
    assert(s3.take(18) =~= s3);
    assert(s3.take(16) =~= address);
    assert(port_value((port / 256) as u8, (port % 256) as u8) == port);
    let done = Stage::Asked(Place::V6(address), port);
    assert(none + none =~= none);
    assert(advanced(Stage::V6, s3) == (done, none));
    assert(conversation(done, s3.skip(18)) == (done, none));
    assert(conversation(Stage::V6, s3) == (done, none));
    assert(conversation(Stage::Header, s2) == (done, none));
    assert(seq![5u8, 0u8] + none =~= seq![5u8, 0u8]);
    assert(conversation(Stage::Methods(m as nat), s1) == (done, seq![5u8, 0u8]));
    assert(none + seq![5u8, 0u8] =~= seq![5u8, 0u8]);
}

/// A greeting with a method that is accepted is answered, and the request comes next.
proof fn lemma_greeted(methods: Seq<u8>, rest: Seq<u8>)
    requires
        methods.len() <= 255,
        methods.contains(0u8),
    ensures
        ({
            let (last, sent) = conversation(Stage::Header, rest);
            conversation(
                Stage::Greeting,
                seq![5u8, methods.len() as u8] + methods + rest,
            ) == (last, seq![5u8, 0u8] + sent)
        }),
{
    reveal_with_fuel(conversation, 3);
    let m = methods.len() as int;
    let s0 = seq![5u8, m as u8] + methods + rest;
    let s1 = methods + rest;
    assert(s0.take(2) =~= seq![5u8, m as u8]);
    assert(s0.skip(2) =~= s1);
    assert(s1.take(m) =~= methods);
    assert(s1.skip(m) =~= rest);
    let (last, sent) = conversation(Stage::Header, rest);
    assert(conversation(Stage::Methods(m as nat), s1) == (last, seq![5u8, 0u8] + sent));
    assert(Seq::<u8>::empty() + (seq![5u8, 0u8] + sent) =~= seq![5u8, 0u8] + sent);
}

/// A client that speaks another version is sent nothing and gets nowhere, whatever
/// follows.
pub proof fn other_versions_are_dropped(version: u8, count: u8, rest: Seq<u8>)
    requires
        version != 5,
    ensures
        conversation(Stage::Greeting, seq![version, count] + rest) == (
            Stage::Failed(SocksError::NotSocks5(version)),
            Seq::<u8>::empty(),
        ),
{
    let s = seq![version, count] + rest;
    reveal_with_fuel(conversation, 2);
    assert(s.take(2) =~= seq![version, count]);
    assert(Seq::<u8>::empty() + Seq::<u8>::empty() =~= Seq::<u8>::empty());
}

/// A client that does not offer to go without a password is told that no method is
/// accepted.
pub proof fn passwords_are_not_taken(methods: Seq<u8>, rest: Seq<u8>)
    requires
        methods.len() <= 255,
        !methods.contains(0u8),
    ensures
        conversation(
            Stage::Greeting,
            seq![5u8, methods.len() as u8] + methods + rest,
        ) == (Stage::Failed(SocksError::NoMethod), seq![5u8, 255u8]),
{
    reveal_with_fuel(conversation, 3);
    let m = methods.len() as int;
    let s0 = seq![5u8, m as u8] + methods + rest;
    let s1 = methods + rest;
    assert(s0.take(2) =~= seq![5u8, m as u8]);
    assert(s0.skip(2) =~= s1);
    assert(s1.take(m) =~= methods);
    let no = seq![5u8, 255u8];
    assert(no + Seq::<u8>::empty() =~= no);
    assert(conversation(Stage::Methods(m as nat), s1) == (
        Stage::Failed(SocksError::NoMethod),
        no,
    ));
    assert(Seq::<u8>::empty() + no =~= no);
}

/// What is sent to a client that offered a method and is then refused: the choice of
/// method, and a reply with this code.
pub open spec fn chosen_and_refused(code: u8) -> Seq<u8> {
    seq![5u8, 0u8, 5u8, code, 0u8, 1u8, 0u8, 0u8, 0u8, 0u8, 0u8, 0u8]
}

/// A command other than connecting, and a kind of address that is not known, are
/// each refused with a code of their own.
pub proof fn other_requests_are_refused(
    methods: Seq<u8>,
    command: u8,
    reserved: u8,
    kind: u8,
    rest: Seq<u8>,
)
    requires
        methods.len() <= 255,
        methods.contains(0u8),
        command != 1 || (kind != 1 && kind != 3 && kind != 4),
    ensures
        conversation(
            Stage::Greeting,
            seq![5u8, methods.len() as u8] + methods + (seq![5u8, command, reserved, kind] + rest),
        ) == if command != 1 {
            (Stage::Failed(SocksError::Command(command)), chosen_and_refused(7))
        } else {
            (Stage::Failed(SocksError::AddressType(kind)), chosen_and_refused(8))
        },
{
    let s = seq![5u8, command, reserved, kind] + rest;
    lemma_greeted(methods, s);
    reveal_with_fuel(conversation, 2);
    assert(s.take(4) =~= seq![5u8, command, reserved, kind]);
    let code: u8 = if command != 1 {
        7
    } else {
        8
    };
    assert(reply_bytes(code) + Seq::<u8>::empty() =~= reply_bytes(code));
    assert(seq![5u8, 0u8] + reply_bytes(code) =~= chosen_and_refused(code));
}

/// A request for port zero of an address is refused.
pub proof fn port_zero_is_refused(methods: Seq<u8>, address: Seq<u8>)
    requires
        methods.len() <= 255,
        methods.contains(0u8),
        address.len() == 4 || address.len() == 16,
    ensures
        conversation(
            Stage::Greeting,
            if address.len() == 4 {
                v4_request(methods, address, 0)
            } else {
                v6_request(methods, address, 0)
            },
        ) == (Stage::Failed(SocksError::PortZero), chosen_and_refused(1)),
{
    reveal_with_fuel(conversation, 3);
    let kind: u8 = if address.len() == 4 {
        1
    } else {
        4
    };
    let tail = seq![0u8, 0u8];
    let s2 = seq![5u8, 1u8, 0u8, kind] + address + tail;
    let s3 = address + tail;
    let s0 = if address.len() == 4 {
        v4_request(methods, address, 0)
    } else {
        v6_request(methods, address, 0)
    };
    assert(s0 =~= seq![5u8, methods.len() as u8] + methods + s2);
    lemma_greeted(methods, s2);
    assert(s2.take(4) =~= seq![5u8, 1u8, 0u8, kind]);
    assert(s2.skip(4) =~= s3);
    assert(s3.take(s3.len() as int) =~= s3);
    assert(reply_bytes(1) + Seq::<u8>::empty() =~= reply_bytes(1));
    assert(Seq::<u8>::empty() + reply_bytes(1) =~= reply_bytes(1));
    assert(seq![5u8, 0u8] + reply_bytes(1) =~= chosen_and_refused(1));
}

/// A reply says by its second byte that the way is open, and by no other; an attempt is
/// answered so exactly where it succeeded.
pub proof fn replies_tell_success(code: u8)
    ensures
        reply_bytes(code) == seq![5u8, code, 0u8, 1u8, 0u8, 0u8, 0u8, 0u8, 0u8, 0u8],
        refusal_code(code) != 0,
        code != 0 ==> refusal_code(code) == code,
        dial_code(true) == 0,
        dial_code(false) == 4,
{
}

/// A name without a letter, and a name that is no text, are refused before any port is
/// looked at; the first with a reply, the second without one.
#[verifier::rlimit(30)]
pub proof fn bad_names_are_refused(methods: Seq<u8>, name: Seq<u8>, rest: Seq<u8>)
    requires
        methods.len() <= 255,
        methods.contains(0u8),
        name.len() <= 255,
        rest.len() >= 2,
        name.len() == 0 || !valid_utf8(name),
    ensures
        conversation(
            Stage::Greeting,
            seq![5u8, methods.len() as u8] + methods + (seq![
                5u8,
                1u8,
                0u8,
                3u8,
                name.len() as u8,
            ] + name + rest),
        ) == if name.len() == 0 {
            (Stage::Failed(SocksError::EmptyName), chosen_and_refused(1))
        } else {
            (Stage::Failed(SocksError::NameNotText), seq![5u8, 0u8])
        },
{
    let n = name.len() as int;
    let none = Seq::<u8>::empty();
    let s = seq![5u8, 1u8, 0u8, 3u8, n as u8] + name + rest;
    lemma_greeted(methods, s);
    reveal_with_fuel(conversation, 4);
    let s1 = seq![n as u8] + name + rest;
    let s2 = name + rest;
    assert(s.take(4) =~= seq![5u8, 1u8, 0u8, 3u8]);
    assert(s.skip(4) =~= s1);
    assert(s1.take(1) =~= seq![n as u8]);
    assert(s1.skip(1) =~= s2);
    assert(none + none =~= none);
    assert(none + reply_bytes(1) =~= reply_bytes(1));
    assert(reply_bytes(1) + none =~= reply_bytes(1));
    assert(seq![5u8, 0u8] + reply_bytes(1) =~= chosen_and_refused(1));
    assert(seq![5u8, 0u8] + none =~= seq![5u8, 0u8]);
    if n > 0 {
        let part = s2.take(n + 2);
        assert(part.take(n) =~= name);
        let end = Stage::Failed(SocksError::NameNotText);
        assert(advanced(Stage::Name(n as nat), part) == (end, none));
        assert(conversation(Stage::Name(n as nat), s2) == (end, none));
        assert(conversation(Stage::NameLength, s1) == (end, none));
    } else {
        let end = Stage::Failed(SocksError::EmptyName);
        assert(advanced(Stage::NameLength, s1.take(1)) == (end, reply_bytes(1)));
        assert(conversation(Stage::NameLength, s1) == (end, reply_bytes(1)));
    }
}


} // verus!
