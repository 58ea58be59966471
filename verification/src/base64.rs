//! Base64 with the standard alphabet and `=` padding.

use crate::text::{lemma_char_len, lemma_encode_concat};
use vstd::prelude::*;
use vstd::string::*;
use vstd::utf8::*;

verus! {

/// The character for a value below 64.
pub open spec fn symbol(v: int) -> char {
    if v < 26 {
        ('A' as int + v) as char
    } else if v < 52 {
        ('a' as int + v - 26) as char
    } else if v < 62 {
        ('0' as int + v - 52) as char
    } else if v == 62 {
        '+'
    } else {
        '/'
    }
}

/// `bytes` in base64.
pub open spec fn encoded(bytes: Seq<u8>) -> Seq<char>
    decreases bytes.len(),
{
    if bytes.len() == 0 {
        Seq::empty()
    } else if bytes.len() == 1 {
        let a = bytes[0] as int;
        seq![symbol(a / 4), symbol(a % 4 * 16), '=', '=']
    } else if bytes.len() == 2 {
        let a = bytes[0] as int;
        let b = bytes[1] as int;
        seq![symbol(a / 4), symbol(a % 4 * 16 + b / 16), symbol(b % 16 * 4), '=']
    } else {
        let a = bytes[0] as int;
        let b = bytes[1] as int;
        let c = bytes[2] as int;
        seq![
            symbol(a / 4),
            symbol(a % 4 * 16 + b / 16),
            symbol(b % 16 * 4 + c / 64),
            symbol(c % 64),
        ] + encoded(bytes.skip(3))
    }
}

fn symbol_char(v: u8) -> (c: char)
    requires
        v < 64,
    ensures
        c == symbol(v as int),
{
    if v < 26 {
        (65u8 + v) as char
    } else if v < 52 {
        (97u8 + (v - 26)) as char
    } else if v < 62 {
        (48u8 + (v - 52)) as char
    } else if v == 62 {
        '+'
    } else {
        '/'
    }
}

/// Encodes `bytes`.
pub fn base64_encode(bytes: &[u8]) -> (out: String)
    ensures
        out@ == encoded(bytes@),
{
    let mut out = String::new();
    let mut i: usize = 0;
    assert(bytes@.skip(0) =~= bytes@);
    while bytes.len() - i >= 3
        invariant
            i <= bytes.len(),
            encoded(bytes@) == out@ + encoded(bytes@.skip(i as int)),
        decreases bytes.len() - i,
    {
        let ghost so_far = out@;
        let ghost rest = bytes@.skip(i as int);
        let a: u8 = bytes[i];
        let b: u8 = bytes[i + 1];
        let c: u8 = bytes[i + 2];
        out.push(symbol_char(a / 4));
        out.push(symbol_char(a % 4 * 16 + b / 16));
        out.push(symbol_char(b % 16 * 4 + c / 64));
        out.push(symbol_char(c % 64));
        assert(rest.skip(3) =~= bytes@.skip(i + 3));
        assert(so_far + encoded(rest) =~= out@ + encoded(rest.skip(3)));
        i = i + 3;
    }
    let ghost so_far = out@;
    let ghost rest = bytes@.skip(i as int);
    if bytes.len() - i == 1 {
        let a: u8 = bytes[i];
        out.push(symbol_char(a / 4));
        out.push(symbol_char(a % 4 * 16));
        out.push('=');
        out.push('=');
    } else if bytes.len() - i == 2 {
        let a: u8 = bytes[i];
        let b: u8 = bytes[i + 1];
        out.push(symbol_char(a / 4));
        out.push(symbol_char(a % 4 * 16 + b / 16));
        out.push(symbol_char(b % 16 * 4));
        out.push('=');
    }
    assert(out@ =~= so_far + encoded(rest));
    out
}

// ---------- Decoding ----------

/// The value of a character of the alphabet, given as a byte.
pub open spec fn value_of(c: u8) -> Option<int> {
    if 65 <= c <= 90 {
        Some(c - 65)
    } else if 97 <= c <= 122 {
        Some(c - 97 + 26)
    } else if 48 <= c <= 57 {
        Some(c - 48 + 52)
    } else if c == 43 {
        Some(62)
    } else if c == 47 {
        Some(63)
    } else {
        None
    }
}

/// A byte that is passed over: ASCII white space, or padding.
pub open spec fn is_passed_over(c: u8) -> bool {
    c == 32 || c == 9 || c == 10 || c == 12 || c == 13 || c == 61
}

/// The bytes that are not passed over.
pub open spec fn significant(bytes: Seq<u8>) -> Seq<u8>
    decreases bytes.len(),
{
    if bytes.len() == 0 {
        Seq::empty()
    } else if is_passed_over(bytes.last()) {
        significant(bytes.drop_last())
    } else {
        significant(bytes.drop_last()).push(bytes.last())
    }
}

/// The values of those bytes that are in the alphabet.
pub open spec fn values_of(bytes: Seq<u8>) -> Seq<int>
    decreases bytes.len(),
{
    if bytes.len() == 0 {
        Seq::empty()
    } else {
        match value_of(bytes.last()) {
            Some(v) => values_of(bytes.drop_last()).push(v),
            None => values_of(bytes.drop_last()),
        }
    }
}

/// The bytes that two to four values stand for.
pub open spec fn group_bytes(v: Seq<int>) -> Seq<u8> {
    let first = seq![(v[0] * 4 + v[1] / 16) as u8];
    let second = if v.len() >= 3 {
        first.push((v[1] % 16 * 16 + v[2] / 4) as u8)
    } else {
        first
    };
    if v.len() == 4 {
        second.push((v[2] % 4 * 64 + v[3]) as u8)
    } else {
        second
    }
}

/// The bytes that groups of four stand for, up to the first group with fewer
/// than two characters of the alphabet.
pub open spec fn groups_bytes(s: Seq<u8>) -> Seq<u8>
    decreases s.len(),
{
    if s.len() == 0 {
        Seq::empty()
    } else {
        let n = if s.len() < 4 {
            s.len() as int
        } else {
            4
        };
        let v = values_of(s.take(n));
        if v.len() < 2 {
            Seq::empty()
        } else {
            group_bytes(v) + groups_bytes(s.skip(n))
        }
    }
}

/// The bytes that base64 text stands for.
pub open spec fn decoded(s: Seq<char>) -> Seq<u8> {
    groups_bytes(significant(encode_utf8(s)))
}

fn value(c: u8) -> (res: Option<u8>)
    ensures
        match (res, value_of(c)) {
            (Some(v), Some(w)) => v == w && v < 64,
            (None, None) => true,
            _ => false,
        },
{
    if 65 <= c && c <= 90 {
        Some(c - 65)
    } else if 97 <= c && c <= 122 {
        Some(c - 97 + 26)
    } else if 48 <= c && c <= 57 {
        Some(c - 48 + 52)
    } else if c == 43 {
        Some(62)
    } else if c == 47 {
        Some(63)
    } else {
        None
    }
}

proof fn lemma_values_bound(s: Seq<u8>)
    ensures
        values_of(s).len() <= s.len(),
        forall|i: int| 0 <= i < values_of(s).len() ==> 0 <= #[trigger] values_of(s)[i] < 64,
    decreases s.len(),
{
    if s.len() > 0 {
        lemma_values_bound(s.drop_last());
    }
}

/// The values of the bytes from `from` up to `to`.
fn group_values(s: &Vec<u8>, from: usize, to: usize) -> (out: Vec<u8>)
    requires
        from <= to <= s.len(),
    ensures
        out.len() == values_of(s@.subrange(from as int, to as int)).len(),
        forall|i: int|
            0 <= i < out.len() ==> (#[trigger] out@[i]) as int == values_of(
                s@.subrange(from as int, to as int),
            )[i] && out@[i] < 64,
{
    let mut out: Vec<u8> = Vec::new();
    let mut i: usize = from;
    while i < to
        invariant
            from <= i <= to <= s.len(),
            out.len() == values_of(s@.subrange(from as int, i as int)).len(),
            forall|k: int|
                0 <= k < out.len() ==> (#[trigger] out@[k]) as int == values_of(
                    s@.subrange(from as int, i as int),
                )[k] && out@[k] < 64,
        decreases to - i,
    {
        assert(s@.subrange(from as int, i + 1).drop_last() =~= s@.subrange(from as int, i as int));
        if let Some(v) = value(s[i]) {
            out.push(v);
        }
        i = i + 1;
    }
    out
}

/// Decodes base64 text, passing over white space and padding.
pub fn base64_decode(s: &str) -> (out: Vec<u8>)
    ensures
        out@ == decoded(s@),
{
    let bytes = s.as_bytes();
    let mut kept: Vec<u8> = Vec::new();
    for i in 0..bytes.len()
        invariant
            bytes@ == encode_utf8(s@),
            kept@ == significant(bytes@.take(i as int)),
    {
        let c: u8 = bytes[i];
        assert(bytes@.take(i + 1).drop_last() =~= bytes@.take(i as int));
        if !(c == 32 || c == 9 || c == 10 || c == 12 || c == 13 || c == 61) {
            kept.push(c);
        }
    }
    assert(bytes@.take(bytes.len() as int) =~= bytes@);
    let mut out: Vec<u8> = Vec::new();
    let mut i: usize = 0;
    assert(kept@.skip(0) =~= kept@);
    while i < kept.len()
        invariant
            i <= kept.len(),
            groups_bytes(kept@) == out@ + groups_bytes(kept@.skip(i as int)),
        ensures
            groups_bytes(kept@) == out@,
        decreases kept.len() - i,
    {
        let ghost rest = kept@.skip(i as int);
        let ghost so_far = out@;
        let n: usize = if kept.len() - i < 4 {
            kept.len() - i
        } else {
            4
        };
        let v = group_values(&kept, i, i + n);
        assert(kept@.subrange(i as int, i + n) =~= rest.take(n as int));
        let ghost w = values_of(rest.take(n as int));
        proof {
            lemma_values_bound(rest.take(n as int));
        }
        if v.len() < 2 {
            assert(out@ + Seq::<u8>::empty() =~= out@);
            break ;
        }
        assert(v@[0] as int == w[0] && v@[1] as int == w[1]);
        out.push(v[0] * 4 + v[1] / 16);
        if v.len() >= 3 {
            assert(v@[2] as int == w[2]);
            out.push(v[1] % 16 * 16 + v[2] / 4);
        }
        if v.len() == 4 {
            assert(v@[3] as int == w[3]);
            out.push(v[2] % 4 * 64 + v[3]);
        }
        assert(out@ =~= so_far + group_bytes(w));
        assert(rest.skip(n as int) =~= kept@.skip(i + n));
        assert(so_far + (group_bytes(w) + groups_bytes(rest.skip(n as int))) =~= out@
            + groups_bytes(rest.skip(n as int)));
        i = i + n;
    }
    out
}

// ---------- Round trip ----------

/// The byte of a character of the alphabet.
pub open spec fn symbol_byte(v: int) -> u8 {
    symbol(v) as u8
}

proof fn lemma_symbol(v: int)
    requires
        0 <= v < 64,
    ensures
        symbol(v) as u32 <= 0x7f,
        value_of(symbol_byte(v)) == Some(v),
        !is_passed_over(symbol_byte(v)),
{
}

/// The encoding without its padding, as bytes.
pub open spec fn encoded_bytes(bytes: Seq<u8>) -> Seq<u8>
    decreases bytes.len(),
{
    if bytes.len() == 0 {
        Seq::empty()
    } else if bytes.len() == 1 {
        let a = bytes[0] as int;
        seq![symbol_byte(a / 4), symbol_byte(a % 4 * 16)]
    } else if bytes.len() == 2 {
        let a = bytes[0] as int;
        let b = bytes[1] as int;
        seq![symbol_byte(a / 4), symbol_byte(a % 4 * 16 + b / 16), symbol_byte(b % 16 * 4)]
    } else {
        let a = bytes[0] as int;
        let b = bytes[1] as int;
        let c = bytes[2] as int;
        seq![
            symbol_byte(a / 4),
            symbol_byte(a % 4 * 16 + b / 16),
            symbol_byte(b % 16 * 4 + c / 64),
            symbol_byte(c % 64),
        ] + encoded_bytes(bytes.skip(3))
    }
}

proof fn lemma_encoded_ascii(bytes: Seq<u8>)
    ensures
        is_ascii_chars(encoded(bytes)),
        forall|i: int|
            0 <= i < encoded(bytes).len() ==> (#[trigger] encoded(bytes)[i]) as u32 <= 0x7f,
    decreases bytes.len(),
{
    if bytes.len() >= 3 {
        lemma_encoded_ascii(bytes.skip(3));
    }
    let e = encoded(bytes);
    assert forall|i: int| 0 <= i < e.len() implies (#[trigger] e[i]) as u32 <= 0x7f by {
        if bytes.len() >= 3 && i >= 4 {
            assert(e[i] == encoded(bytes.skip(3))[i - 4]);
        }
    }
}

proof fn lemma_significant_concat(a: Seq<u8>, b: Seq<u8>)
    ensures
        significant(a + b) == significant(a) + significant(b),
    decreases b.len(),
{
    if b.len() == 0 {
        assert(a + b =~= a);
        assert(significant(a) + significant(b) =~= significant(a));
    } else {
        assert((a + b).drop_last() =~= a + b.drop_last());
        lemma_significant_concat(a, b.drop_last());
        assert(significant(a + b) =~= significant(a) + significant(b));
    }
}

/// `s` as bytes, for ASCII text.
pub open spec fn ascii_bytes(s: Seq<char>) -> Seq<u8> {
    Seq::new(s.len(), |i: int| s[i] as u8)
}

proof fn lemma_significant_encoded(bytes: Seq<u8>)
    ensures
        significant(ascii_bytes(encoded(bytes))) == encoded_bytes(bytes),
    decreases bytes.len(),
{
    let e = encoded(bytes);
    let raw = ascii_bytes(e);
    reveal_with_fuel(significant, 5);
    if bytes.len() == 0 {
        assert(raw =~= Seq::<u8>::empty());
        assert(significant(raw) =~= encoded_bytes(bytes));
    } else {
        let n = if bytes.len() < 3 {
            bytes.len() as int
        } else {
            3
        };
        let a = bytes[0] as int;
        let head = raw.take(4);
        assert(head[0] == symbol_byte(a / 4));
        lemma_symbol(a / 4);
        assert(head.drop_last() =~= head.take(3));
        assert(head.take(3).drop_last() =~= head.take(2));
        assert(head.take(2).drop_last() =~= head.take(1));
        assert(head.take(1).drop_last() =~= head.take(0));
        assert(significant(head.take(0)) =~= Seq::<u8>::empty());
        if bytes.len() == 1 {
            lemma_symbol(a % 4 * 16);
            assert(raw =~= head);
            assert(significant(raw) =~= encoded_bytes(bytes));
        } else {
            let b = bytes[1] as int;
            lemma_symbol(a % 4 * 16 + b / 16);
            if bytes.len() == 2 {
                lemma_symbol(b % 16 * 4);
                assert(raw =~= head);
                assert(significant(raw) =~= encoded_bytes(bytes));
            } else {
                let c = bytes[2] as int;
                lemma_symbol(b % 16 * 4 + c / 64);
                lemma_symbol(c % 64);
                let rest = ascii_bytes(encoded(bytes.skip(3)));
                assert(raw =~= head + rest);
                lemma_significant_concat(head, rest);
                lemma_significant_encoded(bytes.skip(3));
                assert(significant(head) =~= seq![
                    symbol_byte(a / 4),
                    symbol_byte(a % 4 * 16 + b / 16),
                    symbol_byte(b % 16 * 4 + c / 64),
                    symbol_byte(c % 64),
                ]);
                assert(significant(raw) =~= encoded_bytes(bytes));
            }
        }
    }
}

proof fn lemma_values_four(s: Seq<u8>, n: int)
    requires
        1 <= n <= 4,
        s.len() == n,
        forall|i: int| 0 <= i < n ==> value_of(#[trigger] s[i]) is Some,
    ensures
        values_of(s).len() == n,
        forall|i: int| 0 <= i < n ==> (#[trigger] values_of(s)[i]) == value_of(s[i])->0,
    decreases n,
{
    if n > 1 {
        assert forall|i: int| 0 <= i < n - 1 implies value_of(#[trigger] s.drop_last()[i]) is Some by {
            assert(s.drop_last()[i] == s[i]);
        }
        lemma_values_four(s.drop_last(), n - 1);
        assert(value_of(s[n - 1]) is Some);
        assert forall|i: int| 0 <= i < n implies (#[trigger] values_of(s)[i]) == value_of(
            s[i],
        )->0 by {
            if i < n - 1 {
                assert(values_of(s)[i] == values_of(s.drop_last())[i]);
                assert(s.drop_last()[i] == s[i]);
            }
        }
    } else {
        assert(value_of(s[0]) is Some);
        assert(s.drop_last() =~= Seq::<u8>::empty());
        reveal_with_fuel(values_of, 2);
    }
}

proof fn lemma_groups(bytes: Seq<u8>)
    ensures
        groups_bytes(encoded_bytes(bytes)) == bytes,
    decreases bytes.len(),
{
    let s = encoded_bytes(bytes);
    if bytes.len() == 0 {
        assert(groups_bytes(s) =~= bytes);
    } else {
        let a = bytes[0] as int;
        lemma_symbol(a / 4);
        if bytes.len() == 1 {
            lemma_symbol(a % 4 * 16);
            lemma_values_four(s, 2);
            assert(s.take(2) =~= s);
            assert(s.skip(2) =~= Seq::<u8>::empty());
            assert(groups_bytes(s.skip(2)) =~= Seq::<u8>::empty());
            assert(values_of(s)[0] == a / 4 && values_of(s)[1] == a % 4 * 16);
            assert(a / 4 * 4 + a % 4 * 16 / 16 == a);
            assert(groups_bytes(s) =~= bytes);
        } else {
            let b = bytes[1] as int;
            lemma_symbol(a % 4 * 16 + b / 16);
            assert(a / 4 * 4 + (a % 4 * 16 + b / 16) / 16 == a);
            if bytes.len() == 2 {
                lemma_symbol(b % 16 * 4);
                lemma_values_four(s, 3);
                assert(s.take(3) =~= s);
                assert(s.skip(3) =~= Seq::<u8>::empty());
                assert(groups_bytes(s.skip(3)) =~= Seq::<u8>::empty());
                assert(values_of(s)[0] == a / 4 && values_of(s)[1] == a % 4 * 16 + b / 16
                    && values_of(s)[2] == b % 16 * 4);
                assert((a % 4 * 16 + b / 16) % 16 * 16 + b % 16 * 4 / 4 == b);
                assert(groups_bytes(s) =~= bytes);
            } else {
                let c = bytes[2] as int;
                lemma_symbol(b % 16 * 4 + c / 64);
                lemma_symbol(c % 64);
                assert((a % 4 * 16 + b / 16) % 16 * 16 + (b % 16 * 4 + c / 64) / 4 == b);
                assert((b % 16 * 4 + c / 64) % 4 * 64 + c % 64 == c);
                lemma_values_four(s.take(4), 4);
                assert(s.skip(4) =~= encoded_bytes(bytes.skip(3)));
                lemma_groups(bytes.skip(3));
                assert(groups_bytes(s) =~= bytes);
            }
        }
    }
}

/// Bytes that are encoded are decoded to themselves.
pub proof fn base64_round_trip(bytes: Seq<u8>)
    ensures
        decoded(encoded(bytes)) == bytes,
{
    lemma_encoded_ascii(bytes);
    is_ascii_chars_encode_utf8(encoded(bytes));
    assert(encode_utf8(encoded(bytes)) =~= ascii_bytes(encoded(bytes)));
    lemma_significant_encoded(bytes);
    lemma_groups(bytes);
}

/// The alphabet is the usual one: capital letters, small letters, digits, plus and slash.
pub proof fn the_alphabet_is_the_usual_one(v: int)
    requires
        0 <= v < 64,
    ensures
        symbol(v)
            == "ABCDEFGHIJKLMNOPQRSTUVWXYZabcdefghijklmnopqrstuvwxyz0123456789+/"@[v],
{
    reveal_strlit("ABCDEFGHIJKLMNOPQRSTUVWXYZabcdefghijklmnopqrstuvwxyz0123456789+/");
}

/// Three bytes are written as four characters, six bits in each, the highest first; one
/// or two bytes at the end are filled up with zeros, and the rest with padding.
#[verifier::rlimit(30)]
pub proof fn bytes_are_written_in_threes(a: u8, b: u8, c: u8, rest: Seq<u8>)
    ensures
        ({
            let v = a * 65536 + b * 256 + c;
            encoded(seq![a, b, c] + rest) == seq![
                symbol(v / 262144),
                symbol(v / 4096 % 64),
                symbol(v / 64 % 64),
                symbol(v % 64),
            ] + encoded(rest)
        }),
        encoded(seq![a, b]) == seq![
            symbol((a * 256 + b) / 1024),
            symbol((a * 256 + b) / 16 % 64),
            symbol((a * 256 + b) * 4 % 64),
            '=',
        ],
        encoded(seq![a]) == seq![symbol(a as int / 4), symbol(a as int * 16 % 64), '=', '='],
        encoded(Seq::empty()).len() == 0,
{
    let s = seq![a, b, c] + rest;
    assert(s.skip(3) =~= rest);
    lemma_six_bits(a as int, b as int, c as int);
    lemma_last_bits(a as int, b as int);
}

#[verifier::rlimit(30)]
proof fn lemma_six_bits(a: int, b: int, c: int)
    requires
        0 <= a < 256,
        0 <= b < 256,
        0 <= c < 256,
    ensures
        (a * 65536 + b * 256 + c) / 262144 == a / 4,
        (a * 65536 + b * 256 + c) / 4096 % 64 == a % 4 * 16 + b / 16,
        (a * 65536 + b * 256 + c) / 64 % 64 == b % 16 * 4 + c / 64,
        (a * 65536 + b * 256 + c) % 64 == c % 64,
{
    let v = a * 65536 + b * 256 + c;
    let first = a / 4;
    let second = a % 4 * 16 + b / 16;
    let third = b % 16 * 4 + c / 64;
    let fourth = c % 64;
    assert(v == 262144 * first + 4096 * second + 64 * third + fourth);
    assert(v / 64 == 4096 * first + 64 * second + third);
    assert(v / 4096 == 64 * first + second);
}

proof fn lemma_last_bits(a: int, b: int)
    requires
        0 <= a < 256,
        0 <= b < 256,
    ensures
        (a * 256 + b) / 1024 == a / 4,
        (a * 256 + b) / 16 % 64 == a % 4 * 16 + b / 16,
        (a * 256 + b) * 4 % 64 == b % 16 * 4,
        a * 16 % 64 == a % 4 * 16,
{
    let v = a * 256 + b;
    let first = a / 4;
    let second = a % 4 * 16 + b / 16;
    assert(v == 1024 * first + 16 * second + b % 16);
    assert(v / 16 == 64 * first + second);
    assert(v * 4 == 64 * (64 * first + second) + b % 16 * 4);
    assert(a * 16 == 64 * first + a % 4 * 16);
}

/// White space and padding make no difference, wherever they stand.
pub proof fn space_makes_no_difference(front: Seq<char>, c: char, rest: Seq<char>)
    requires
        c == ' ' || c == '\t' || c == '\n' || c == '\r' || c == '=',
    ensures
        decoded(front + seq![c] + rest) == decoded(front + rest),
{
    lemma_char_len(c);
    lemma_encode_concat(front + seq![c], rest);
    lemma_encode_concat(front, seq![c]);
    lemma_encode_concat(front, rest);
    let one = encode_utf8(seq![c]);
    assert(one.len() == 1 && one[0] == c as u8);
    assert(one.drop_last() =~= Seq::<u8>::empty());
    reveal_with_fuel(significant, 2);
    assert(is_passed_over(one.last()));
    assert(significant(one) =~= Seq::<u8>::empty());
    let a = encode_utf8(front);
    let b = encode_utf8(rest);
    lemma_significant_concat(a + one, b);
    lemma_significant_concat(a, one);
    lemma_significant_concat(a, b);
    assert(significant(a) + significant(one) =~= significant(a));
}


} // verus!
