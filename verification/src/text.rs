//! Strings as sequences of characters, with their UTF-8 length.

use vstd::prelude::*;
use vstd::string::*;
use vstd::utf8::*;

verus! {

/// `String::push` appends one character.
pub assume_specification[ String::push ](s: &mut String, c: char)
    ensures
        final(s)@ == old(s)@.push(c),
;

/// Number of bytes of the UTF-8 encoding of `s`.
pub open spec fn byte_len(s: Seq<char>) -> nat {
    encode_utf8(s).len()
}

pub proof fn lemma_encode_concat(a: Seq<char>, b: Seq<char>)
    ensures
        encode_utf8(a + b) == encode_utf8(a) + encode_utf8(b),
        byte_len(a + b) == byte_len(a) + byte_len(b),
    decreases a.len(),
{
    if a.len() == 0 {
        assert(a + b =~= b);
        assert(encode_utf8(a) + encode_utf8(b) =~= encode_utf8(b));
    } else {
        lemma_encode_concat(a.drop_first(), b);
        assert((a + b).drop_first() =~= a.drop_first() + b);
        assert(encode_utf8(a + b) =~= encode_utf8(a) + encode_utf8(b));
    }
}

pub proof fn lemma_encode_injective(a: Seq<char>, b: Seq<char>)
    ensures
        encode_utf8(a) == encode_utf8(b) <==> a == b,
{
    encode_utf8_decode_utf8(a);
    encode_utf8_decode_utf8(b);
}

/// The UTF-8 length of a single character is one to four bytes.
pub proof fn lemma_char_len(c: char)
    ensures
        1 <= byte_len(seq![c]) <= 4,
        c as u32 <= 0x7f ==> byte_len(seq![c]) == 1 && encode_utf8(seq![c])[0] == c as u8,
        c as u32 <= 0x7f ==> encode_utf8(seq![c])[0] as u32 == c as u32,
{
    char_is_scalar(c);
    assert(seq![c].drop_first() =~= Seq::<char>::empty());
    reveal_with_fuel(encode_utf8, 2);
    let u = c as u32;
    assert(u <= 0x7f ==> (u & 0x7f) as u8 == u as u8) by (bit_vector);
    assert(u <= 0x7f ==> (u & 0x7f) as u8 as u32 == u) by (bit_vector);
}

pub proof fn lemma_byte_len_bounds(s: Seq<char>)
    ensures
        s.len() <= byte_len(s) <= 4 * s.len(),
    decreases s.len(),
{
    if s.len() > 0 {
        lemma_byte_len_bounds(s.drop_first());
        lemma_char_len(s[0]);
        assert(s =~= seq![s[0]] + s.drop_first());
        lemma_encode_concat(seq![s[0]], s.drop_first());
    }
}

/// The end of a prefix is a character boundary, and splits the encoding there.
pub proof fn lemma_prefix_boundary(a: Seq<char>, b: Seq<char>)
    ensures
        is_char_boundary(encode_utf8(a + b), byte_len(a) as int),
        encode_utf8(a + b).subrange(0, byte_len(a) as int) == encode_utf8(a),
        encode_utf8(a + b).subrange(byte_len(a) as int, byte_len(a + b) as int) == encode_utf8(b),
    decreases a.len(),
{
    lemma_encode_concat(a, b);
    assert(encode_utf8(a + b).subrange(0, byte_len(a) as int) =~= encode_utf8(a));
    assert(encode_utf8(a + b).subrange(byte_len(a) as int, byte_len(a + b) as int) =~= encode_utf8(
        b,
    ));
    encode_utf8_valid_utf8(a + b);
    if a.len() > 0 {
        let bytes = encode_utf8(a + b);
        let rest = a.drop_first();
        assert((a + b).drop_first() =~= rest + b);
        encode_utf8_first_scalar(a + b);
        assert(pop_first_scalar(bytes) =~= encode_utf8(rest + b));
        lemma_prefix_boundary(rest, b);
        lemma_char_len(a[0]);
        assert(a =~= seq![a[0]] + rest);
        lemma_encode_concat(seq![a[0]], rest);
        assert(seq![a[0]].drop_first() =~= Seq::<char>::empty());
        reveal_with_fuel(encode_utf8, 2);
        assert(encode_utf8(seq![a[0]]) =~= encode_scalar(a[0] as u32));
    }
}

/// `String::from_utf8` accepts exactly the valid UTF-8 byte strings, and keeps
/// the bytes.
#[verifier::external_body]
pub(crate) fn string_from_utf8(bytes: Vec<u8>) -> (res: Option<String>)
    ensures
        match res {
            Some(s) => encode_utf8(s@) == bytes@,
            None => !valid_utf8(bytes@),
        },
{
    String::from_utf8(bytes).ok()
}

/// `s` in double quotes, with the escapes of Rust's `Debug` for strings.
pub uninterp spec fn quoted(s: Seq<char>) -> Seq<char>;

/// `format!("{:?}", s)` for a string: its `Debug` form, under the name `quoted`.
#[verifier::external_body]
pub(crate) fn quoted_text(s: &str) -> (out: String)
    ensures
        out@ == quoted(s@),
{
    format!("{:?}", s)
}

/// Splits `s` after the characters `before`, given their length in bytes.
pub(crate) fn split_text<'a>(s: &'a str, mid: usize, Ghost(before): Ghost<Seq<char>>) -> (res: (
    &'a str,
    &'a str,
))
    requires
        before.is_prefix_of(s@),
        mid == byte_len(before),
    ensures
        res.0@ == before,
        res.1@ == s@.skip(before.len() as int),
{
    proof {
        let after = s@.skip(before.len() as int);
        assert(s@ =~= before + after);
        lemma_prefix_boundary(before, after);
    }
    let res = s.split_at(mid);
    proof {
        lemma_encode_injective(res.0@, before);
        lemma_encode_injective(res.1@, s@.skip(before.len() as int));
    }
    res
}

/// The characters of `s`, as a vector.
pub fn chars_of(s: &str) -> (out: Vec<char>)
    ensures
        out@ == s@,
{
    let mut out: Vec<char> = Vec::new();
    for c in it: s.chars()
        invariant
            out@ == it.seq().take(it.index() as int),
            it.seq() == s@,
    {
        out.push(c);
    }
    out
}

/// The string made of the given characters.
pub fn string_of(chars: &[char]) -> (out: String)
    ensures
        out@ == chars@,
{
    let mut out = String::new();
    for i in 0..chars.len()
        invariant
            out@ == chars@.take(i as int),
    {
        out.push(chars[i]);
        assert(chars@.take(i as int).push(chars@[i as int]) =~= chars@.take(i + 1));
    }
    assert(chars@.take(chars.len() as int) =~= chars@);
    out
}

/// Whether two byte strings are the same.
pub fn same_bytes(a: &[u8], b: &[u8]) -> (res: bool)
    ensures
        res == (a@ == b@),
{
    if a.len() != b.len() {
        return false;
    }
    for i in 0..a.len()
        invariant
            a.len() == b.len(),
            forall|k: int| 0 <= k < i ==> a@[k] == b@[k],
    {
        if a[i] != b[i] {
            return false;
        }
    }
    assert(a@ =~= b@);
    true
}

/// Whether two strings are the same.
pub fn same_text(a: &str, b: &str) -> (res: bool)
    ensures
        res == (a@ == b@),
{
    proof {
        lemma_encode_injective(a@, b@);
    }
    same_bytes(a.as_bytes(), b.as_bytes())
}

// ---------- Joining ----------

/// `a` followed by `b`.
pub fn concat2(a: &str, b: &str) -> (out: String)
    ensures
        out@ == a@ + b@,
{
    let mut out = a.to_owned();
    out.append(b);
    out
}

/// `a`, `b` and `c` in a row.
pub fn concat3(a: &str, b: &str, c: &str) -> (out: String)
    ensures
        out@ == a@ + b@ + c@,
{
    let mut out = concat2(a, b);
    out.append(c);
    out
}

// ---------- Views of lists ----------

/// The texts of a list of strings.
pub open spec fn texts(v: Seq<String>) -> Seq<Seq<char>> {
    Seq::new(v.len(), |i: int| v[i]@)
}

/// The text of an optional string.
pub open spec fn opt_text(v: Option<String>) -> Option<Seq<char>> {
    match v {
        Some(s) => Some(s@),
        None => None,
    }
}

pub fn copy_texts(v: &Vec<String>) -> (out: Vec<String>)
    ensures
        texts(out@) == texts(v@),
{
    let mut out: Vec<String> = Vec::new();
    for i in 0..v.len()
        invariant
            out.len() == i,
            forall|k: int| 0 <= k < i ==> (#[trigger] out@[k])@ == v@[k]@,
    {
        out.push(v[i].clone());
    }
    assert(texts(out@) =~= texts(v@));
    out
}

pub fn copy_opt(v: &Option<String>) -> (out: Option<String>)
    ensures
        opt_text(out) == opt_text(*v),
{
    match v {
        Some(s) => Some(s.clone()),
        None => None,
    }
}

/// Whether two lists hold the same strings in the same order.
pub fn same_texts(a: &Vec<String>, b: &Vec<String>) -> (res: bool)
    ensures
        res == (texts(a@) == texts(b@)),
{
    if a.len() != b.len() {
        assert(texts(a@).len() != texts(b@).len());
        return false;
    }
    for i in 0..a.len()
        invariant
            a.len() == b.len(),
            forall|k: int| 0 <= k < i ==> (#[trigger] a@[k])@ == b@[k]@,
    {
        if !same_text(a[i].as_str(), b[i].as_str()) {
            assert(texts(a@)[i as int] != texts(b@)[i as int]);
            return false;
        }
    }
    assert(texts(a@) =~= texts(b@));
    true
}

/// Whether `list` holds `item`.
pub fn contains_text(list: &[String], item: &str) -> (res: bool)
    ensures
        res == texts(list@).contains(item@),
{
    for i in 0..list.len()
        invariant
            forall|k: int| 0 <= k < i ==> (#[trigger] list@[k])@ != item@,
    {
        if same_text(list[i].as_str(), item) {
            assert(texts(list@)[i as int] == item@);
            return true;
        }
    }
    assert forall|k: int| 0 <= k < texts(list@).len() implies texts(list@)[k] != item@ by {
        assert(list@[k]@ != item@);
    }
    false
}

// ---------- Replacing characters ----------

/// `s` with every character replaced by what `f` gives for it.
pub open spec fn flat_map(s: Seq<char>, f: spec_fn(char) -> Seq<char>) -> Seq<char>
    decreases s.len(),
{
    if s.len() == 0 {
        Seq::empty()
    } else {
        flat_map(s.drop_last(), f) + f(s.last())
    }
}

pub proof fn lemma_flat_map_step(s: Seq<char>, f: spec_fn(char) -> Seq<char>, i: int)
    requires
        0 <= i < s.len(),
    ensures
        flat_map(s.take(i + 1), f) == flat_map(s.take(i), f) + f(s[i]),
{
    assert(s.take(i + 1).drop_last() =~= s.take(i));
}

pub proof fn lemma_flat_map_first(s: Seq<char>, f: spec_fn(char) -> Seq<char>)
    requires
        s.len() > 0,
    ensures
        flat_map(s, f) == f(s[0]) + flat_map(s.drop_first(), f),
    decreases s.len(),
{
    if s.len() == 1 {
        assert(s.drop_last() =~= Seq::<char>::empty());
        assert(s.drop_first() =~= Seq::<char>::empty());
        assert(flat_map(s, f) =~= f(s[0]) + flat_map(s.drop_first(), f));
    } else {
        lemma_flat_map_first(s.drop_last(), f);
        assert(s.drop_last().drop_first() =~= s.drop_first().drop_last());
        assert(flat_map(s, f) =~= f(s[0]) + flat_map(s.drop_first(), f));
    }
}

// ---------- White space ----------

/// White space as `char::is_whitespace` has it: the characters with the Unicode
/// property `White_Space`.
pub open spec fn is_space(c: char) -> bool {
    ||| '\u{9}' <= c <= '\u{d}'
    ||| c == ' '
    ||| c == '\u{85}'
    ||| c == '\u{a0}'
    ||| c == '\u{1680}'
    ||| '\u{2000}' <= c <= '\u{200a}'
    ||| c == '\u{2028}'
    ||| c == '\u{2029}'
    ||| c == '\u{202f}'
    ||| c == '\u{205f}'
    ||| c == '\u{3000}'
}

pub fn is_whitespace(c: char) -> (res: bool)
    ensures
        res == is_space(c),
{
    ('\u{9}' <= c && c <= '\u{d}') || c == ' ' || c == '\u{85}' || c == '\u{a0}' || c == '\u{1680}'
        || ('\u{2000}' <= c && c <= '\u{200a}') || c == '\u{2028}' || c == '\u{2029}' || c
        == '\u{202f}' || c == '\u{205f}' || c == '\u{3000}'
}

/// `s` without the characters at its start that satisfy `p`.
pub open spec fn trim_start_by(s: Seq<char>, p: spec_fn(char) -> bool) -> Seq<char>
    decreases s.len(),
{
    if s.len() > 0 && p(s[0]) {
        trim_start_by(s.drop_first(), p)
    } else {
        s
    }
}

/// `s` without the characters at its end that satisfy `p`.
pub open spec fn trim_end_by(s: Seq<char>, p: spec_fn(char) -> bool) -> Seq<char>
    decreases s.len(),
{
    if s.len() > 0 && p(s.last()) {
        trim_end_by(s.drop_last(), p)
    } else {
        s
    }
}

/// `s` without white space at both ends.
pub open spec fn trimmed(s: Seq<char>) -> Seq<char> {
    trim_end_by(trim_start_by(s, |c: char| is_space(c)), |c: char| is_space(c))
}

/// `str::trim`, into a new string.
pub fn trim(s: &str) -> (out: String)
    ensures
        out@ == trimmed(s@),
{
    let chars = chars_of(s);
    let ghost p = |c: char| is_space(c);
    assert(s@.skip(0) =~= s@);
    let mut from: usize = 0;
    while from < chars.len() && is_whitespace(chars[from])
        invariant
            chars@ == s@,
            from <= chars.len(),
            p == (|c: char| is_space(c)),
            trim_start_by(s@, p) == trim_start_by(s@.skip(from as int), p),
        decreases chars.len() - from,
    {
        assert(s@.skip(from as int).drop_first() =~= s@.skip(from + 1));
        from = from + 1;
    }
    let ghost start = trim_start_by(s@, p);
    assert(start == s@.skip(from as int));
    let mut to: usize = chars.len();
    while from < to && is_whitespace(chars[to - 1])
        invariant
            chars@ == s@,
            from <= to <= chars.len(),
            p == (|c: char| is_space(c)),
            start == s@.skip(from as int),
            trim_end_by(start, p) == trim_end_by(s@.subrange(from as int, to as int), p),
        decreases to - from,
    {
        assert(s@.subrange(from as int, to as int).drop_last() =~= s@.subrange(
            from as int,
            to - 1,
        ));
        to = to - 1;
    }
    assert(s@.subrange(from as int, chars.len() as int) =~= start);
    string_of(&chars[from..to])
}

// ---------- Lower case ----------

/// An ASCII letter in lower case; any other character as it is.
pub open spec fn ascii_lower(c: char) -> char {
    if 'A' <= c <= 'Z' {
        (c as u8 + 32) as char
    } else {
        c
    }
}

pub fn to_ascii_lower(c: char) -> (out: char)
    ensures
        out == ascii_lower(c),
{
    if 'A' <= c && c <= 'Z' {
        (c as u8 + 32) as char
    } else {
        c
    }
}

/// `s` in lower case, as Unicode has it.
pub uninterp spec fn lowercase(s: Seq<char>) -> Seq<char>;

/// `str::to_lowercase`, under the name `lowercase`. Of ASCII text it lowers the
/// letters and leaves the rest.
#[verifier::external_body]
pub(crate) fn lowercase_text(s: &str) -> (out: String)
    ensures
        out@ == lowercase(s@),
        is_ascii_chars(s@) ==> out@ == s@.map_values(|c: char| ascii_lower(c)),
{
    s.to_lowercase()
}

/// A file name with a stem and the given extension, in any case.
pub open spec fn has_extension(name: Seq<char>, ext: Seq<char>) -> bool {
    let at = name.len() - ext.len();
    &&& at > 1
    &&& name[at - 1] == '.'
    &&& forall|i: int| 0 <= i < ext.len() ==> ascii_lower(name[at + i]) == #[trigger] ext[i]
}

/// Whether a file name has the given extension, which is in lower case.
pub fn is_extension(name: &str, ext: &str) -> (res: bool)
    ensures
        res == has_extension(name@, ext@),
{
    let chars = chars_of(name);
    let want = chars_of(ext);
    if chars.len() < want.len() || chars.len() - want.len() <= 1 {
        return false;
    }
    let at: usize = chars.len() - want.len();
    if chars[at - 1] != '.' {
        return false;
    }
    for i in 0..want.len()
        invariant
            chars@ == name@,
            want@ == ext@,
            at == name@.len() - ext@.len(),
            at + want.len() == chars.len(),
            forall|k: int| 0 <= k < i ==> ascii_lower(name@[at + k]) == #[trigger] ext@[k],
    {
        if to_ascii_lower(chars[at + i]) != want[i] {
            assert(ascii_lower(name@[at + i]) != ext@[i as int]);
            return false;
        }
    }
    true
}

// ---------- Searching ----------

/// `pat` stands in `s` at `i`.
pub open spec fn stands_at<T>(s: Seq<T>, pat: Seq<T>, i: int) -> bool {
    0 <= i && i + pat.len() <= s.len() && s.subrange(i, i + pat.len()) == pat
}

/// The first place from `i` on where `pat` stands in `s`.
pub open spec fn index_from<T>(s: Seq<T>, pat: Seq<T>, i: int) -> Option<int>
    decreases s.len() - i + 1,
{
    if i + pat.len() > s.len() {
        None
    } else if stands_at(s, pat, i) {
        Some(i)
    } else {
        index_from(s, pat, i + 1)
    }
}

/// The first place where `pat` stands in `s`.
pub open spec fn index_of<T>(s: Seq<T>, pat: Seq<T>) -> Option<int> {
    index_from(s, pat, 0)
}

/// `pat` stands somewhere in `s`.
pub open spec fn contains_seq<T>(s: Seq<T>, pat: Seq<T>) -> bool {
    exists|i: int| stands_at(s, pat, i)
}

pub proof fn lemma_index_from<T>(s: Seq<T>, pat: Seq<T>, i: int)
    requires
        0 <= i,
    ensures
        match index_from(s, pat, i) {
            Some(k) => i <= k && stands_at(s, pat, k) && forall|j: int|
                i <= j < k ==> !stands_at(s, pat, j),
            None => forall|j: int| i <= j ==> !stands_at(s, pat, j),
        },
    decreases s.len() - i + 1,
{
    if i + pat.len() <= s.len() && !stands_at(s, pat, i) {
        lemma_index_from(s, pat, i + 1);
    }
}

/// Text that stands somewhere is found.
pub proof fn lemma_index_of<T>(s: Seq<T>, pat: Seq<T>)
    ensures
        index_of(s, pat) is Some <==> contains_seq(s, pat),
{
    lemma_index_from(s, pat, 0);
    if let Some(k) = index_of(s, pat) {
        assert(stands_at(s, pat, k));
    }
}

fn chars_stand_at(chars: &Vec<char>, pat: &Vec<char>, i: usize) -> (res: bool)
    requires
        i <= chars.len(),
    ensures
        res == stands_at(chars@, pat@, i as int),
{
    if chars.len() - i < pat.len() {
        return false;
    }
    for k in 0..pat.len()
        invariant
            i + pat.len() <= chars.len(),
            forall|m: int| 0 <= m < k ==> chars@[i + m] == pat@[m],
    {
        if chars[i + k] != pat[k] {
            assert(chars@.subrange(i as int, i + pat.len())[k as int] != pat@[k as int]);
            return false;
        }
    }
    assert(chars@.subrange(i as int, i + pat.len()) =~= pat@);
    true
}

/// The first place from `from` on where `pat` stands among `chars`.
pub fn find_chars(chars: &Vec<char>, pat: &Vec<char>, from: usize) -> (res: Option<usize>)
    requires
        from <= chars.len(),
    ensures
        match (res, index_from(chars@, pat@, from as int)) {
            (Some(i), Some(k)) => i == k && from <= i && i + pat.len() <= chars.len(),
            (None, None) => true,
            _ => false,
        },
{
    let mut i: usize = from;
    while chars.len() - i >= pat.len()
        invariant
            from <= i <= chars.len(),
            index_from(chars@, pat@, from as int) == index_from(chars@, pat@, i as int),
        decreases chars.len() - i,
    {
        if chars_stand_at(chars, pat, i) {
            return Some(i);
        }
        if i == chars.len() {
            assert(pat@ =~= chars@.subrange(i as int, i as int));
            return None;
        }
        i = i + 1;
    }
    None
}

/// Whether `pat` stands somewhere in `s`.
pub fn contains(s: &str, pat: &str) -> (res: bool)
    ensures
        res == contains_seq(s@, pat@),
{
    proof {
        lemma_index_of(s@, pat@);
    }
    find_chars(&chars_of(s), &chars_of(pat), 0).is_some()
}

/// Whether `s` begins with `pat`.
pub fn starts_with(s: &str, pat: &str) -> (res: bool)
    ensures
        res == stands_at(s@, pat@, 0),
{
    chars_stand_at(&chars_of(s), &chars_of(pat), 0)
}

/// `s` ends with `pat`.
pub open spec fn ends_in(s: Seq<char>, pat: Seq<char>) -> bool {
    stands_at(s, pat, s.len() - pat.len())
}

/// Whether `s` ends with `pat`.
pub fn ends_with(s: &str, pat: &str) -> (res: bool)
    ensures
        res == ends_in(s@, pat@),
{
    let chars = chars_of(s);
    let tail = chars_of(pat);
    if chars.len() < tail.len() {
        return false;
    }
    chars_stand_at(&chars, &tail, chars.len() - tail.len())
}

// ---------- Lines ----------

/// Number of characters of `s` in front of the first `c`.
pub open spec fn len_to<T>(s: Seq<T>, c: T) -> nat
    decreases s.len(),
{
    if s.len() == 0 || s[0] == c {
        0
    } else {
        1 + len_to(s.drop_first(), c)
    }
}

pub proof fn lemma_len_to<T>(s: Seq<T>, c: T)
    ensures
        len_to(s, c) <= s.len(),
        len_to(s, c) < s.len() ==> s[len_to(s, c) as int] == c,
        forall|i: int| 0 <= i < len_to(s, c) ==> s[i] != c,
    decreases s.len(),
{
    if s.len() > 0 && s[0] != c {
        lemma_len_to(s.drop_first(), c);
        assert forall|i: int| 0 <= i < len_to(s, c) implies s[i] != c by {
            if i > 0 {
                assert(s.drop_first()[i - 1] == s[i]);
            }
        }
    }
}

/// What stands between the places of `c`.
pub open spec fn parts<T>(s: Seq<T>, c: T) -> Seq<Seq<T>>
    decreases s.len(),
{
    let n = len_to(s, c) as int;
    if n >= s.len() {
        seq![s]
    } else {
        seq![s.take(n)] + parts(s.skip(n + 1), c)
    }
}

/// Where the first `c` is, where it is known.
pub proof fn lemma_len_to_at<T>(s: Seq<T>, c: T, n: int)
    requires
        0 <= n <= s.len(),
        forall|i: int| 0 <= i < n ==> s[i] != c,
        n < s.len() ==> s[n] == c,
    ensures
        len_to(s, c) == n,
{
    lemma_len_to(s, c);
    let k = len_to(s, c) as int;
    if k < n {
        assert(s[k] != c);
    } else if n < k {
        assert(s[n] != c);
    }
}

/// A first part in front of others.
pub proof fn lemma_parts_first<T>(a: Seq<T>, rest: Seq<T>, c: T)
    requires
        !a.contains(c),
    ensures
        parts(a + seq![c] + rest, c) == seq![a] + parts(rest, c),
        parts(a, c) == seq![a],
{
    let s = a + seq![c] + rest;
    let n = a.len() as int;
    assert forall|i: int| 0 <= i < n implies s[i] != c && a[i] != c by {
        assert(a.contains(a[i]));
    }
    lemma_len_to_at(s, c, n);
    lemma_len_to_at(a, c, n);
    assert(s.take(n) =~= a);
    assert(s.skip(n + 1) =~= rest);
}

/// The first place of a character, from `from` on, or the length.
pub fn find_char(chars: &Vec<char>, from: usize, c: char) -> (i: usize)
    requires
        from <= chars.len(),
    ensures
        from <= i <= chars.len(),
        i - from == len_to(chars@.skip(from as int), c),
{
    let mut i: usize = from;
    while i < chars.len()
        invariant
            from <= i <= chars.len(),
            len_to(chars@.skip(from as int), c) == i - from + len_to(chars@.skip(i as int), c),
        decreases chars.len() - i,
    {
        assert(chars@.skip(i as int).drop_first() =~= chars@.skip(i + 1));
        if chars[i] == c {
            return i;
        }
        i = i + 1;
    }
    i
}

/// What stands behind the last `c`, or all of it.
pub open spec fn after_last(s: Seq<char>, c: char) -> Seq<char>
    decreases s.len(),
{
    let at = len_to(s, c) as int;
    if at >= s.len() {
        s
    } else {
        after_last(s.skip(at + 1), c)
    }
}

/// What stands behind the last `c` of `s` is the end of `s`.
pub proof fn lemma_after_last(s: Seq<char>, c: char)
    ensures
        exists|front: Seq<char>| s == #[trigger] (front + after_last(s, c)),
    decreases s.len(),
{
    let at = len_to(s, c) as int;
    if at >= s.len() {
        assert(s =~= Seq::<char>::empty() + after_last(s, c));
    } else {
        let rest = s.skip(at + 1);
        lemma_after_last(rest, c);
        let front = choose|front: Seq<char>| rest == #[trigger] (front + after_last(rest, c));
        lemma_len_to(s, c);
        assert(rest == front + after_last(rest, c));
        assert(s =~= s.take(at + 1) + rest);
        assert(s =~= (s.take(at + 1) + front) + after_last(s, c));
    }
}

/// What stands behind the last `c`, or all of it.
pub fn take_after_last(s: &str, c: char) -> (out: String)
    ensures
        out@ == after_last(s@, c),
{
    let chars = chars_of(s);
    let mut from: usize = 0;
    assert(s@.skip(0) =~= s@);
    loop
        invariant
            chars@ == s@,
            from <= chars.len(),
            after_last(s@, c) == after_last(s@.skip(from as int), c),
        decreases chars.len() - from,
    {
        let at: usize = find_char(&chars, from, c);
        if at == chars.len() {
            let out = string_of(&chars[from..chars.len()]);
            assert(out@ =~= s@.skip(from as int));
            return out;
        }
        assert(s@.skip(from as int).skip(at - from + 1) =~= s@.skip(at + 1));
        from = at + 1;
    }
}

/// A line without the carriage return in front of its line break.
pub open spec fn without_cr(s: Seq<char>) -> Seq<char> {
    if s.len() > 0 && s.last() == '\r' {
        s.drop_last()
    } else {
        s
    }
}

/// The lines of `s`, as `str::lines` gives them: what line breaks end, and what
/// follows the last of them if there is anything.
pub open spec fn lines(s: Seq<char>) -> Seq<Seq<char>>
    decreases s.len(),
{
    if s.len() == 0 {
        Seq::empty()
    } else {
        let n = len_to(s, '\n') as int;
        if n >= s.len() {
            seq![s]
        } else {
            seq![without_cr(s.take(n))] + lines(s.skip(n + 1))
        }
    }
}

/// The lines of `s`.
pub fn split_lines(s: &str) -> (out: Vec<String>)
    ensures
        texts(out@) == lines(s@),
{
    let chars = chars_of(s);
    let mut out: Vec<String> = Vec::new();
    let mut i: usize = 0;
    assert(s@.skip(0) =~= s@);
    assert(texts(out@) + lines(s@) =~= lines(s@));
    while i < chars.len()
        invariant
            chars@ == s@,
            i <= chars.len(),
            lines(s@) == texts(out@) + lines(s@.skip(i as int)),
        decreases chars.len() - i,
    {
        let ghost rest = s@.skip(i as int);
        let ghost so_far = out@;
        let mut n: usize = i;
        assert(rest.skip(0) =~= rest);
        while n < chars.len() && chars[n] != '\n'
            invariant
                chars@ == s@,
                i <= n <= chars.len(),
                rest == s@.skip(i as int),
                len_to(rest, '\n') == (n - i) + len_to(rest.skip(n - i), '\n'),
            decreases chars.len() - n,
        {
            assert(rest.skip(n - i)[0] == chars@[n as int]);
            assert(rest.skip(n - i).drop_first() =~= rest.skip(n + 1 - i));
            n = n + 1;
        }
        assert(n < chars.len() ==> rest.skip(n - i)[0] == chars@[n as int]);
        assert(len_to(rest, '\n') == n - i);
        if n == chars.len() {
            let line = string_of(&chars[i..n]);
            assert(line@ =~= rest);
            out.push(line);
            i = n;
            assert(texts(out@) =~= texts(so_far).push(rest));
            assert(texts(out@) + lines(s@.skip(i as int)) =~= texts(so_far) + seq![rest]);
        } else {
            let to: usize = if n > i && chars[n - 1] == '\r' {
                n - 1
            } else {
                n
            };
            let line = string_of(&chars[i..to]);
            assert(line@ =~= without_cr(rest.take(n - i)));
            out.push(line);
            assert(texts(out@) =~= texts(so_far).push(line@));
            assert(rest.skip(n - i + 1) =~= s@.skip(n + 1));
            i = n + 1;
            assert(texts(out@) + lines(s@.skip(i as int)) =~= texts(so_far) + (seq![line@] + lines(
                s@.skip(i as int),
            )));
        }
    }
    assert(texts(out@) =~= lines(s@));
    out
}

/// The first line of `s`, or nothing.
pub open spec fn first_line(s: Seq<char>) -> Seq<char> {
    if lines(s).len() == 0 {
        Seq::empty()
    } else {
        lines(s)[0]
    }
}

pub fn take_first_line(s: &str) -> (out: String)
    ensures
        out@ == first_line(s@),
{
    let all = split_lines(s);
    assert(texts(all@).len() == all.len());
    if all.len() == 0 {
        return String::new();
    }
    assert(texts(all@)[0] == all@[0]@);
    all[0].clone()
}

/// Number of texts that hold more than white space.
pub open spec fn count_filled(list: Seq<Seq<char>>) -> nat
    decreases list.len(),
{
    if list.len() == 0 {
        0
    } else {
        count_filled(list.drop_last()) + if trimmed(list.last()).len() == 0 {
            0nat
        } else {
            1
        }
    }
}

/// Number of lines of `s` that hold more than white space.
pub fn count_filled_lines(s: &str) -> (n: usize)
    ensures
        n == count_filled(lines(s@)),
{
    let all = split_lines(s);
    let ghost list = texts(all@);
    let mut n: usize = 0;
    for i in 0..all.len()
        invariant
            list == texts(all@),
            n <= i,
            n == count_filled(list.take(i as int)),
    {
        assert(list.take(i + 1).drop_last() =~= list.take(i as int));
        let line = trim(all[i].as_str());
        if !line.as_str().is_empty() {
            n = n + 1;
        }
    }
    assert(list.take(list.len() as int) =~= list);
    n
}

// ---------- Laws ----------

/// Text without the white space around it: nothing but white space was taken away, and
/// only at its ends, and none is left there.
pub proof fn only_outer_space_is_trimmed(s: Seq<char>)
    ensures
        exists|front: Seq<char>, back: Seq<char>|
            s == #[trigger] (front + trimmed(s) + back) && (forall|i: int|
                0 <= i < front.len() ==> is_space(#[trigger] front[i])) && (forall|i: int|
                0 <= i < back.len() ==> is_space(#[trigger] back[i])),
        trimmed(s).len() > 0 ==> !is_space(trimmed(s)[0]) && !is_space(trimmed(s).last()),
{
    let p = |c: char| is_space(c);
    lemma_trim_start(s, p);
    let a = trim_start_by(s, p);
    lemma_trim_end(a, p);
    let b = trim_end_by(a, p);
    let front = s.take(s.len() - a.len());
    let back = a.skip(b.len() as int);
    assert(s =~= front + b + back);
    assert(forall|i: int| 0 <= i < front.len() ==> is_space(#[trigger] front[i])) by {
        assert forall|i: int| 0 <= i < front.len() implies is_space(#[trigger] front[i]) by {
            assert(p(s[i]));
        }
    }
    assert(forall|i: int| 0 <= i < back.len() ==> is_space(#[trigger] back[i])) by {
        assert forall|i: int| 0 <= i < back.len() implies is_space(#[trigger] back[i]) by {
            assert(p(a[b.len() + i]));
        }
    }
    assert(s == front + trimmed(s) + back);
    if b.len() > 0 {
        assert(b[0] == a[0]);
        assert(!p(a[0]));
        assert(!p(b.last()));
    }
}

proof fn lemma_trim_start(s: Seq<char>, p: spec_fn(char) -> bool)
    ensures
        ({
            let t = trim_start_by(s, p);
            &&& t.len() <= s.len()
            &&& t == s.skip(s.len() - t.len())
            &&& forall|i: int| 0 <= i < s.len() - t.len() ==> p(#[trigger] s[i])
            &&& t.len() > 0 ==> !p(t[0])
        }),
    decreases s.len(),
{
    if s.len() > 0 && p(s[0]) {
        let rest = s.drop_first();
        lemma_trim_start(rest, p);
        let t = trim_start_by(rest, p);
        assert(s.skip(s.len() - t.len()) =~= rest.skip(rest.len() - t.len()));
        assert forall|i: int| 0 <= i < s.len() - t.len() implies p(#[trigger] s[i]) by {
            if i > 0 {
                assert(s[i] == rest[i - 1]);
            }
        }
    } else {
        assert(s.skip(0) =~= s);
    }
}

proof fn lemma_trim_end(s: Seq<char>, p: spec_fn(char) -> bool)
    ensures
        ({
            let t = trim_end_by(s, p);
            &&& t.len() <= s.len()
            &&& t == s.take(t.len() as int)
            &&& forall|i: int| t.len() <= i < s.len() ==> p(#[trigger] s[i])
            &&& t.len() > 0 ==> !p(t.last())
        }),
    decreases s.len(),
{
    if s.len() > 0 && p(s.last()) {
        let rest = s.drop_last();
        lemma_trim_end(rest, p);
        let t = trim_end_by(rest, p);
        assert(s.take(t.len() as int) =~= rest.take(t.len() as int));
        assert forall|i: int| t.len() <= i < s.len() implies p(#[trigger] s[i]) by {
            if i < rest.len() {
                assert(s[i] == rest[i]);
            }
        }
    } else {
        assert(s.take(s.len() as int) =~= s);
    }
}

/// Lines end at line feeds, with or without a carriage return in front of them; what
/// follows the last one is a line too, unless it is empty.
pub proof fn lines_are_split(line: Seq<char>, rest: Seq<char>)
    requires
        !line.contains('\n'),
    ensures
        lines(Seq::empty()).len() == 0,
        line.len() > 0 ==> lines(line) == seq![line],
        line.len() == 0 || line.last() != '\r' ==> lines(line + seq!['\n'] + rest) == seq![line]
            + lines(rest),
        lines(line + seq!['\r', '\n'] + rest) == seq![line] + lines(rest),
{
    lemma_len_to(line, '\n');
    if (len_to(line, '\n') as int) < line.len() {
        assert(line.contains(line[len_to(line, '\n') as int]));
    }
    let n = line.len() as int;
    let a = line + seq!['\n'] + rest;
    assert forall|i: int| 0 <= i < line.len() implies a[i] != '\n' by {
        assert(line.contains(line[i]));
    }
    lemma_len_to_at(a, '\n', n);
    assert(a.take(n) =~= line);
    assert(a.skip(n + 1) =~= rest);
    let b = line + seq!['\r', '\n'] + rest;
    assert forall|i: int| 0 <= i < line.len() + 1 implies b[i] != '\n' by {
        if i < line.len() {
            assert(line.contains(line[i]));
        }
    }
    lemma_len_to_at(b, '\n', n + 1);
    assert(b.take(n + 1) =~= line.push('\r'));
    assert(line.push('\r').drop_last() =~= line);
    assert(b.skip(n + 2) =~= rest);
}


/// The lines that are counted are those that hold more than white space.
pub proof fn filled_lines_are_counted(list: Seq<Seq<char>>)
    ensures
        count_filled(list) == list.filter(|line: Seq<char>| trimmed(line).len() > 0).len(),
    decreases list.len(),
{
    reveal(Seq::filter);
    if list.len() > 0 {
        filled_lines_are_counted(list.drop_last());
    }
}


/// What stands behind the last place of a character is found wherever else it stands;
/// where it stands nowhere, that is the whole text.
pub proof fn the_last_place_counts(front: Seq<char>, c: char, rest: Seq<char>)
    requires
        !rest.contains(c),
    ensures
        after_last(rest, c) == rest,
        after_last(front + seq![c] + rest, c) == rest,
    decreases front.len(),
{
    lemma_len_to(rest, c);
    if (len_to(rest, c) as int) < rest.len() {
        assert(rest.contains(rest[len_to(rest, c) as int]));
    }
    let s = front + seq![c] + rest;
    let n = len_to(front, c) as int;
    lemma_len_to(front, c);
    if n < front.len() {
        lemma_len_to_at(s, c, n);
        let less = front.skip(n + 1);
        the_last_place_counts(less, c, rest);
        assert(s.skip(n + 1) =~= less + seq![c] + rest);
        assert(after_last(s, c) == after_last(s.skip(n + 1), c));
    } else {
        lemma_len_to_at(s, c, n);
        assert(s.skip(n + 1) =~= rest);
        assert(after_last(s, c) == after_last(s.skip(n + 1), c));
    }
}

/// A file has an extension where its name is some text, a dot and the extension, in
/// capital or small letters.
pub proof fn extensions_follow_a_dot(stem: Seq<char>, end: Seq<char>, ext: Seq<char>, dot: char)
    requires
        end.len() == ext.len(),
    ensures
        has_extension(stem + seq![dot] + end, ext) <==> stem.len() > 0 && dot == '.' && forall|
            i: int,
        |
            0 <= i < ext.len() ==> (end[i] == #[trigger] ext[i] && !('A' <= end[i] <= 'Z')) || (
            'A' <= end[i] <= 'Z' && ext[i] as int == end[i] as int + 32),
{
    let name = stem + seq![dot] + end;
    let at = name.len() - ext.len();
    assert(at == stem.len() + 1);
    assert(name[at - 1] == dot);
    assert forall|i: int| 0 <= i < ext.len() implies name[at + i] == end[i] by {}
    if has_extension(name, ext) {
        assert forall|i: int| 0 <= i < ext.len() implies (end[i] == #[trigger] ext[i] && !('A'
            <= end[i] <= 'Z')) || ('A' <= end[i] <= 'Z' && ext[i] as int == end[i] as int + 32) by {
            assert(ascii_lower(name[at + i]) == ext[i]);
        }
    }
}


} // verus!
