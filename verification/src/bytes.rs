//! Byte strings.

use crate::text::{index_from, len_to, stands_at};
use vstd::prelude::*;
use vstd::slice::*;

verus! {

// ---------- Letters ----------

/// An ASCII letter in lower case; any other byte as it is.
pub open spec fn lower(b: u8) -> u8 {
    if 65 <= b <= 90 {
        (b + 32) as u8
    } else {
        b
    }
}

/// Two byte strings that differ at most in the case of ASCII letters.
pub open spec fn alike(a: Seq<u8>, b: Seq<u8>) -> bool {
    a.len() == b.len() && forall|i: int| 0 <= i < a.len() ==> lower(a[i]) == lower(#[trigger] b[i])
}

fn lower_byte(b: u8) -> (out: u8)
    ensures
        out == lower(b),
{
    if 65 <= b && b <= 90 {
        b + 32
    } else {
        b
    }
}

/// Whether two byte strings differ at most in the case of ASCII letters.
pub fn eq_ignore_ascii_case(a: &[u8], b: &[u8]) -> (res: bool)
    ensures
        res == alike(a@, b@),
{
    if a.len() != b.len() {
        return false;
    }
    for i in 0..a.len()
        invariant
            a.len() == b.len(),
            forall|k: int| 0 <= k < i ==> lower(a@[k]) == lower(#[trigger] b@[k]),
    {
        if lower_byte(a[i]) != lower_byte(b[i]) {
            assert(lower(a@[i as int]) != lower(b@[i as int]));
            return false;
        }
    }
    true
}

// ---------- White space ----------

/// ASCII white space.
pub open spec fn is_ascii_space(b: u8) -> bool {
    b == 9 || b == 10 || b == 12 || b == 13 || b == 32
}

/// `s` without the ASCII white space in front.
pub open spec fn trimmed_front(s: Seq<u8>) -> Seq<u8>
    decreases s.len(),
{
    if s.len() > 0 && is_ascii_space(s[0]) {
        trimmed_front(s.drop_first())
    } else {
        s
    }
}

/// `s` without the ASCII white space behind it.
pub open spec fn trimmed_back(s: Seq<u8>) -> Seq<u8>
    decreases s.len(),
{
    if s.len() > 0 && is_ascii_space(s.last()) {
        trimmed_back(s.drop_last())
    } else {
        s
    }
}

/// Drops the ASCII white space around `s`.
pub fn trim_ascii(s: &[u8]) -> (out: &[u8])
    ensures
        out@ == trimmed_back(trimmed_front(s@)),
{
    let mut from: usize = 0;
    assert(s@.skip(0) =~= s@);
    while from < s.len() && (s[from] == 9 || s[from] == 10 || s[from] == 12 || s[from] == 13
        || s[from] == 32)
        invariant
            from <= s.len(),
            trimmed_front(s@) == trimmed_front(s@.skip(from as int)),
        decreases s.len() - from,
    {
        assert(s@.skip(from as int).drop_first() =~= s@.skip(from + 1));
        from = from + 1;
    }
    let ghost rest = s@.skip(from as int);
    assert(trimmed_front(s@) == rest);
    let mut to: usize = s.len();
    assert(s@.subrange(from as int, to as int) =~= rest);
    while to > from && (s[to - 1] == 9 || s[to - 1] == 10 || s[to - 1] == 12 || s[to - 1] == 13
        || s[to - 1] == 32)
        invariant
            from <= to <= s.len(),
            trimmed_back(rest) == trimmed_back(s@.subrange(from as int, to as int)),
        decreases to - from,
    {
        assert(s@.subrange(from as int, to as int).drop_last() =~= s@.subrange(
            from as int,
            to - 1,
        ));
        to = to - 1;
    }
    slice_subrange(s, from, to)
}

// ---------- Searching ----------

/// The first place of a byte, or the length where it does not occur.
pub fn find_byte(s: &[u8], b: u8) -> (i: usize)
    ensures
        i == len_to(s@, b),
        i <= s.len(),
{
    let mut i: usize = 0;
    assert(s@.skip(0) =~= s@);
    while i < s.len()
        invariant
            i <= s.len(),
            len_to(s@, b) == i + len_to(s@.skip(i as int), b),
        decreases s.len() - i,
    {
        assert(s@.skip(i as int).drop_first() =~= s@.skip(i + 1));
        if s[i] == b {
            return i;
        }
        i = i + 1;
    }
    i
}

/// Whether `pat` stands in `s` at `i`.
pub fn stands(s: &[u8], pat: &[u8], i: usize) -> (res: bool)
    requires
        i <= s.len(),
    ensures
        res == stands_at(s@, pat@, i as int),
{
    if s.len() - i < pat.len() {
        return false;
    }
    for k in 0..pat.len()
        invariant
            i + pat.len() <= s.len(),
            forall|m: int| 0 <= m < k ==> s@[i + m] == pat@[m],
    {
        if s[i + k] != pat[k] {
            assert(s@.subrange(i as int, i + pat.len())[k as int] != pat@[k as int]);
            return false;
        }
    }
    assert(s@.subrange(i as int, i + pat.len()) =~= pat@);
    true
}

/// The first place from `from` on where `needle` stands in `haystack`.
pub fn find_subslice(haystack: &[u8], needle: &[u8], from: usize) -> (res: Option<usize>)
    requires
        from <= haystack.len(),
        needle.len() > 0,
    ensures
        match (res, index_from(haystack@, needle@, from as int)) {
            (Some(i), Some(k)) => i == k && from <= i && i + needle.len() <= haystack.len(),
            (None, None) => true,
            _ => false,
        },
{
    let mut i: usize = from;
    while haystack.len() - i >= needle.len()
        invariant
            needle.len() > 0,
            from <= i <= haystack.len(),
            index_from(haystack@, needle@, from as int) == index_from(
                haystack@,
                needle@,
                i as int,
            ),
        decreases haystack.len() - i,
    {
        if stands(haystack, needle, i) {
            return Some(i);
        }
        i = i + 1;
    }
    None
}

// ---------- Joining ----------

/// Appends `tail` to `out`.
pub fn extend(out: &mut Vec<u8>, tail: &[u8])
    ensures
        final(out)@ == old(out)@ + tail@,
{
    let ghost before = out@;
    assert(before + tail@.take(0) =~= before);
    for i in 0..tail.len()
        invariant
            out@ == before + tail@.take(i as int),
    {
        out.push(tail[i]);
        assert(tail@.take(i + 1) =~= tail@.take(i as int).push(tail@[i as int]));
        assert(out@ =~= before + tail@.take(i + 1));
    }
    assert(tail@.take(tail.len() as int) =~= tail@);
}

} // verus!
