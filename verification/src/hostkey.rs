//! Host keys: a key is trusted when it is first seen, and only that key from then
//! on.

use crate::numbers::{decimal, decimal_text};
use crate::text::{concat2, contains_seq, copy_opt, ends_in, opt_text, same_text, stands_at};
use vstd::prelude::*;
use vstd::string::*;

verus! {

/// How the message of a mismatch begins.
pub const HOST_KEY_MISMATCH_PREFIX: &'static str = "host key mismatch";

/// The fingerprint of the public key that a key blob holds, without its prefix;
/// none where the blob holds no key.
pub uninterp spec fn key_digest(blob: Seq<u8>) -> Option<Seq<char>>;

/// `russh::keys::key::parse_public_key`, and `PublicKey::fingerprint` of the key:
/// the SHA-256 digest of the key in base64, under the name `key_digest`.
#[verifier::external_body]
fn key_fingerprint(blob: &[u8]) -> (res: Option<String>)
    ensures
        opt_text(res) == key_digest(blob@),
{
    match russh::keys::key::parse_public_key(blob, None) {
        Ok(key) => Some(key.fingerprint()),
        Err(_) => None,
    }
}

/// The fingerprint of a public key, as it is recorded.
pub open spec fn fingerprint(blob: Seq<u8>) -> Option<Seq<char>> {
    match key_digest(blob) {
        Some(digest) => Some("SHA256:"@ + digest),
        None => None,
    }
}

/// The fingerprint of a public key, given in its wire form.
pub fn fingerprint_of(blob: &[u8]) -> (res: Option<String>)
    ensures
        opt_text(res) == fingerprint(blob@),
{
    match key_fingerprint(blob) {
        Some(digest) => Some(concat2("SHA256:", digest.as_str())),
        None => None,
    }
}

/// A key is accepted where none is recorded, or where it is the recorded one.
pub open spec fn accepts(expected: Option<Seq<char>>, observed: Option<Seq<char>>) -> bool {
    observed is Some && (expected is None || expected == observed)
}

/// Judges a key by the fingerprint that was observed.
pub fn accepts_key(expected: &Option<String>, observed: &Option<String>) -> (res: bool)
    ensures
        res == accepts(opt_text(*expected), opt_text(*observed)),
{
    match (expected, observed) {
        (_, None) => false,
        (None, Some(_)) => true,
        (Some(e), Some(o)) => same_text(e.as_str(), o.as_str()),
    }
}

/// The fingerprint to be recorded after a connection: the observed one, where none
/// was recorded before.
pub open spec fn recorded(
    expected: Option<Seq<char>>,
    observed: Option<Seq<char>>,
) -> Option<Seq<char>> {
    if expected is None {
        observed
    } else {
        None
    }
}

/// The fingerprint to be recorded after a connection.
pub fn tofu_value(expected: &Option<String>, observed: &Option<String>) -> (res: Option<String>)
    ensures
        opt_text(res) == recorded(opt_text(*expected), opt_text(*observed)),
{
    match expected {
        None => copy_opt(observed),
        Some(_) => None,
    }
}

/// Why a connection failed: the host key where it is not the recorded one, and the
/// cause that was given otherwise.
pub open spec fn connect_failure(
    host: Seq<char>,
    port: u16,
    cause: Seq<char>,
    expected: Option<Seq<char>>,
    observed: Option<Seq<char>>,
) -> Seq<char> {
    if expected is Some && observed is Some && expected != observed {
        HOST_KEY_MISMATCH_PREFIX@ + " — expected "@ + expected->0 + ", server presented "@
            + observed->0
    } else {
        "connect "@ + host + ":"@ + decimal(port as nat) + ": "@ + cause
    }
}

/// The message of a connection that failed.
pub fn connect_error(
    host: &str,
    port: u16,
    cause: &str,
    expected: &Option<String>,
    observed: &Option<String>,
) -> (out: String)
    ensures
        out@ == connect_failure(host@, port, cause@, opt_text(*expected), opt_text(*observed)),
{
    if let (Some(e), Some(o)) = (expected, observed) {
        if !same_text(e.as_str(), o.as_str()) {
            let mut out = HOST_KEY_MISMATCH_PREFIX.to_owned();
            out.append(" — expected ");
            out.append(e.as_str());
            out.append(", server presented ");
            out.append(o.as_str());
            return out;
        }
    }
    let mut out = concat2("connect ", host);
    out.append(":");
    out.append(decimal_text(port as u64).as_str());
    out.append(": ");
    out.append(cause);
    out
}

/// Once a key has been accepted and recorded, that key and no other is accepted.
pub proof fn first_key_is_pinned(
    observed: Option<Seq<char>>,
    later: Option<Seq<char>>,
)
    requires
        accepts(None, observed),
    ensures
        recorded(None, observed) == observed,
        accepts(recorded(None, observed), later) <==> later == observed,
{
}

/// Without a recorded key any key is accepted and recorded; with one, the same key
/// alone, and nothing else is recorded. No key at all is never accepted.
pub proof fn recorded_keys_decide(key: Seq<char>, other: Seq<char>)
    ensures
        accepts(None, Some(other)),
        recorded(None, Some(other)) == Some(other),
        accepts(Some(key), Some(other)) <==> key == other,
        recorded(Some(key), Some(other)) is None,
        !accepts(None, None),
        !accepts(Some(key), None),
{
}

/// A message speaks of a mismatch exactly where two keys are known and differ, and
/// then names both; any other message ends in the cause.
pub proof fn mismatches_are_told(
    host: Seq<char>,
    port: u16,
    cause: Seq<char>,
    expected: Option<Seq<char>>,
    observed: Option<Seq<char>>,
)
    ensures
        ({
            let text = connect_failure(host, port, cause, expected, observed);
            let differ = expected is Some && observed is Some && expected->0 != observed->0;
            &&& stands_at(text, "host key mismatch"@, 0) <==> differ
            &&& differ ==> contains_seq(text, expected->0) && ends_in(text, observed->0)
            &&& !differ ==> contains_seq(text, host) && contains_seq(text, decimal(port as nat))
                && ends_in(text, cause)
        }),
{
    reveal_strlit("host key mismatch");
    reveal_strlit("connect ");
    let text = connect_failure(host, port, cause, expected, observed);
    if expected is Some && observed is Some && expected->0 != observed->0 {
        let front = "host key mismatch"@ + " — expected "@;
        let back = front + expected->0 + ", server presented "@;
        assert(text =~= back + observed->0);
        assert(text.subrange(0, "host key mismatch"@.len() as int) =~= "host key mismatch"@);
        assert(text.subrange(front.len() as int, (front + expected->0).len() as int)
            =~= expected->0);
        assert(stands_at(text, expected->0, front.len() as int));
        assert(text.subrange(back.len() as int, text.len() as int) =~= observed->0);
    } else {
        let front = "connect "@ + host + ":"@;
        let back = front + decimal(port as nat) + ": "@;
        assert(text =~= back + cause);
        assert(text[0] == 'c');
        if stands_at(text, "host key mismatch"@, 0) {
            assert(text.subrange(0, "host key mismatch"@.len() as int)[0] == 'h');
        }
        assert(text.subrange("connect "@.len() as int, ("connect "@ + host).len() as int) =~= host);
        assert(stands_at(text, host, "connect "@.len() as int));
        assert(text.subrange(front.len() as int, (front + decimal(port as nat)).len() as int)
            =~= decimal(port as nat));
        assert(stands_at(text, decimal(port as nat), front.len() as int));
        assert(text.subrange(back.len() as int, text.len() as int) =~= cause);
    }
}

/// Fingerprints name their kind, and differ where the digests do.
pub proof fn fingerprints_differ(a: Seq<u8>, b: Seq<u8>)
    requires
        key_digest(a) is Some,
        key_digest(b) is Some,
    ensures
        fingerprint(a) is Some,
        stands_at(fingerprint(a)->0, "SHA256:"@, 0),
        ends_in(fingerprint(a)->0, key_digest(a)->0),
        fingerprint(a) == fingerprint(b) <==> key_digest(a) == key_digest(b),
{
    let front = "SHA256:"@;
    let x = front + key_digest(a)->0;
    let y = front + key_digest(b)->0;
    assert(x.subrange(0, front.len() as int) =~= front);
    assert(x.subrange(front.len() as int, x.len() as int) =~= key_digest(a)->0);
    assert(y.subrange(front.len() as int, y.len() as int) =~= key_digest(b)->0);
}


} // verus!
