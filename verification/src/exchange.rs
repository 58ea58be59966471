//! A client's connection to the HTTP listener, from its first byte until bytes are
//! passed on as they are, or the connection is closed.

use crate::http::{
    head_end, parse_request, refusal_text, request, status_reply, status_text, Aim, HeadReader,
    HeadStep, Opening, Refusal, Target, CONNECT_REPLY, MAX_HEAD_BYTES,
};
use crate::numbers::decimal;
use crate::text::{concat2, contains_seq, index_from, lemma_index_from, stands_at};
use vstd::prelude::*;
use vstd::slice::*;
use vstd::string::*;
use vstd::utf8::*;

verus! {

/// What is to be done next, as text.
pub enum Turn {
    Read,
    Dial(Seq<char>, u16),
    Close(Seq<u8>, Seq<char>),
}

/// What is to be done next.
#[derive(Debug, PartialEq, Eq)]
pub enum Move {
    /// More is to be read.
    Read,
    /// The target is to be reached.
    Dial { host: String, port: u16 },
    /// The client is to be answered, and the connection closed.
    Close { answer: Vec<u8>, reason: String },
}

impl View for Move {
    type V = Turn;

    open spec fn view(&self) -> Turn {
        match *self {
            Move::Read => Turn::Read,
            Move::Dial { host, port } => Turn::Dial(host@, port),
            Move::Close { answer, reason } => Turn::Close(answer@, reason@),
        }
    }
}

/// What comes of a whole head: a request that cannot be read is answered as bad,
/// and any other one leads to its target.
pub open spec fn judged(head: Seq<u8>) -> Turn {
    match request(head) {
        Err(refusal) => Turn::Close(
            encode_utf8(status_text(400, "Bad Request"@)),
            refusal_text(refusal),
        ),
        Ok(Aim::Connect(host, port)) => Turn::Dial(host, port),
        Ok(Aim::Forward(host, port, _)) => Turn::Dial(host, port),
    }
}

/// What comes of a read. A client that closes early, or sends too long a head, gets
/// no answer.
pub open spec fn received(before: Seq<u8>, chunk: Seq<u8>) -> Turn {
    let all = before + chunk;
    if chunk.len() == 0 {
        Turn::Close(Seq::empty(), "client closed before completing request head"@)
    } else if all.len() > MAX_HEAD_BYTES {
        Turn::Close(Seq::empty(), "HTTP request head exceeds 65536 bytes"@)
    } else {
        match index_from(all, head_end(), 0) {
            None => Turn::Read,
            Some(k) => judged(all.take(k + 4)),
        }
    }
}

/// What is sent once the way to the target is open: to the client, and to the
/// target.
pub open spec fn first_bytes(aim: Aim, leftover: Seq<u8>) -> (Seq<u8>, Seq<u8>) {
    match aim {
        Aim::Connect(_, _) => (encode_utf8(CONNECT_REPLY@), leftover),
        Aim::Forward(_, _, head) => (Seq::empty(), head + leftover),
    }
}

/// What comes of the attempt to reach the target.
pub enum Start {
    /// These bytes are sent, and all that follow are passed on.
    Bridge(Opening),
    /// The client is to be answered, and the connection closed.
    Close { answer: Vec<u8>, reason: String },
}

/// A request that leads somewhere.
pub struct Asked {
    pub target: Target,
    /// How long its head is.
    pub head_len: usize,
}

/// A connection of a client.
pub struct Exchange {
    /// What was read.
    pub reader: HeadReader,
    /// Where it leads, once that is known.
    pub asked: Option<Asked>,
}

impl Exchange {
    /// The head is still being read.
    pub open spec fn is_reading(&self) -> bool {
        self.asked is None && self.reader.is_open()
    }

    /// The head has been read, and leads somewhere.
    pub open spec fn is_dialing(&self) -> bool {
        &&& self.asked matches Some(asked)
        &&& asked.head_len <= self.reader.buf@.len()
        &&& request(self.reader.buf@.take(asked.head_len as int)) == Ok::<Aim, Refusal>(
            asked.target@,
        )
    }

    /// A connection of which nothing was read.
    pub fn new() -> (out: Exchange)
        ensures
            out.is_reading(),
            out.reader.buf@ == Seq::<u8>::empty(),
    {
        Exchange { reader: HeadReader::new(), asked: None }
    }

    /// Takes in what was read; nothing where the client has closed.
    pub fn feed(&mut self, chunk: &[u8]) -> (out: Move)
        requires
            old(self).is_reading(),
        ensures
            out@ == received(old(self).reader.buf@, chunk@),
            final(self).reader.buf@ == old(self).reader.buf@ + chunk@,
            out is Read ==> final(self).is_reading(),
            out is Dial ==> final(self).is_dialing() && index_from(
                final(self).reader.buf@,
                head_end(),
                0,
            ) == Some(final(self).asked->0.head_len - 4),
    {
        let step = self.reader.feed(chunk);
        proof {
            lemma_index_from(self.reader.buf@, head_end(), 0);
        }
        match step {
            HeadStep::More => Move::Read,
            HeadStep::Closed => {
                let answer: Vec<u8> = Vec::new();
                assert(answer@ =~= Seq::empty());
                Move::Close {
                    answer,
                    reason: "client closed before completing request head".to_owned(),
                }
            },
            HeadStep::TooLarge => {
                let answer: Vec<u8> = Vec::new();
                assert(answer@ =~= Seq::empty());
                Move::Close { answer, reason: "HTTP request head exceeds 65536 bytes".to_owned() }
            },
            HeadStep::Complete(len) => {
                let head = slice_subrange(self.reader.buf.as_slice(), 0, len);
                assert(head@ =~= self.reader.buf@.take(len as int));
                match parse_request(head) {
                    Err(e) => Move::Close {
                        answer: slice_to_vec(status_reply(400, "Bad Request").as_str().as_bytes()),
                        reason: e.message(),
                    },
                    Ok(target) => {
                        let (host, port) = match &target {
                            Target::Connect { host, port } => (host.clone(), *port),
                            Target::Forward { host, port, .. } => (host.clone(), *port),
                        };
                        self.asked = Some(Asked { target, head_len: len });
                        Move::Dial { host, port }
                    },
                }
            },
        }
    }

    /// The target was reached, or could not be for the given reason.
    pub fn dialed(&self, failure: Option<&str>) -> (out: Start)
        requires
            self.is_dialing(),
        ensures
            match (failure, out) {
                (None, Start::Bridge(opening)) => (opening.to_client@, opening.to_target@)
                    == first_bytes(
                    self.asked->0.target@,
                    self.reader.buf@.skip(self.asked->0.head_len as int),
                ),
                (Some(cause), Start::Close { answer, reason }) => answer@ == encode_utf8(
                    status_text(502, "Bad Gateway"@),
                ) && reason@ == "open channel: "@ + cause@,
                _ => false,
            },
    {
        if let Some(cause) = failure {
            return Start::Close {
                answer: slice_to_vec(status_reply(502, "Bad Gateway").as_str().as_bytes()),
                reason: concat2("open channel: ", cause),
            };
        }
        match &self.asked {
            Some(asked) => {
                let buf = self.reader.buf.as_slice();
                let leftover = slice_subrange(buf, asked.head_len, buf.len());
                assert(leftover@ =~= self.reader.buf@.skip(asked.head_len as int));
                Start::Bridge(asked.target.opening(leftover))
            },
            None => Start::Bridge(Opening { to_client: Vec::new(), to_target: Vec::new() }),
        }
    }
}

// ---------- Laws ----------

/// In how many pieces a request arrives makes no difference.
pub proof fn pieces_make_no_difference(first: Seq<u8>, second: Seq<u8>)
    requires
        received(Seq::empty(), first) is Read,
        second.len() > 0,
    ensures
        received(first, second) == received(Seq::empty(), first + second),
{
    assert(Seq::<u8>::empty() + (first + second) =~= first + second);
}

/// A request that cannot be read is answered as bad, and leads nowhere; one that
/// can be read is not answered before its target was tried.
pub proof fn bad_requests_are_answered(before: Seq<u8>, chunk: Seq<u8>, end: int)
    requires
        chunk.len() > 0,
        (before + chunk).len() <= MAX_HEAD_BYTES,
        index_from(before + chunk, head_end(), 0) == Some(end),
    ensures
        request((before + chunk).take(end + 4)) is Err <==> received(before, chunk) is Close,
        received(before, chunk) is Close ==> received(before, chunk)->Close_0 == encode_utf8(
            status_text(400, "Bad Request"@),
        ),
        received(before, chunk) !is Read,
{
}

/// As long as no blank line has come, more is read; a head of more than 65536 bytes, and
/// an end in the middle of it, close the connection without an answer.
pub proof fn heads_are_read_to_their_end(before: Seq<u8>, chunk: Seq<u8>)
    ensures
        received(before, chunk) is Read <==> 0 < chunk.len() && before.len() + chunk.len() <= 65536
            && !contains_seq(before + chunk, seq![13u8, 10u8, 13u8, 10u8]),
        chunk.len() == 0 || before.len() + chunk.len() > 65536 ==> received(before, chunk) is Close
            && received(before, chunk)->Close_0.len() == 0,
{
    let all = before + chunk;
    lemma_index_from(all, head_end(), 0);
    if contains_seq(all, head_end()) {
        let i = choose|i: int| stands_at(all, head_end(), i);
        assert(stands_at(all, head_end(), i));
    }
}

/// Once the way is open, all that stood behind the head goes to the target. In front of
/// it goes the head that is sent on, where there is one; otherwise, and only then, the
/// client is told first that the way is open.
pub proof fn nothing_behind_the_head_is_lost(aim: Aim, leftover: Seq<u8>)
    ensures
        ({
            let (to_client, to_target) = first_bytes(aim, leftover);
            match aim {
                Aim::Connect(_, _) => to_target == leftover && to_client == encode_utf8(
                    "HTTP/1.1 200 Connection Established\r\n\r\n"@,
                ),
                Aim::Forward(_, _, head) => to_target == head + leftover && to_client.len() == 0,
            }
        }),
{
}

/// The way that is dialed is the one that the request asks for.
pub proof fn requests_lead_to_their_target(before: Seq<u8>, chunk: Seq<u8>, end: int)
    requires
        chunk.len() > 0,
        (before + chunk).len() <= 65536,
        index_from(before + chunk, head_end(), 0) == Some(end),
    ensures
        match request((before + chunk).take(end + 4)) {
            Ok(Aim::Connect(host, port)) => received(before, chunk) == Turn::Dial(host, port),
            Ok(Aim::Forward(host, port, _)) => received(before, chunk) == Turn::Dial(host, port),
            Err(_) => received(before, chunk) matches Turn::Close(answer, _) && answer
                == encode_utf8(
                "HTTP/1.1 400 Bad Request\r\nConnection: close\r\nContent-Length: 0\r\n\r\n"@,
            ),
        },
{
    reveal_with_fuel(decimal, 3);
    reveal_strlit("HTTP/1.1 ");
    reveal_strlit(" ");
    reveal_strlit("Bad Request");
    reveal_strlit("\r\nConnection: close\r\nContent-Length: 0\r\n\r\n");
    reveal_strlit("HTTP/1.1 400 Bad Request\r\nConnection: close\r\nContent-Length: 0\r\n\r\n");
    assert(status_text(400, "Bad Request"@)
        =~= "HTTP/1.1 400 Bad Request\r\nConnection: close\r\nContent-Length: 0\r\n\r\n"@);
}


} // verus!
