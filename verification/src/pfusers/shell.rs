//! Text for `/bin/sh` command lines.

use crate::text::{chars_of, flat_map, lemma_flat_map_first, lemma_flat_map_step};
use vstd::prelude::*;
use vstd::string::*;

verus! {

/// What stands between single quotes for `c`: a quote is written outside of
/// them.
pub open spec fn shell_char(c: char) -> Seq<char> {
    if c == '\'' {
        "'\\''"@
    } else {
        seq![c]
    }
}

/// `s` as one word of a command line.
pub open spec fn shell_escaped(s: Seq<char>) -> Seq<char> {
    seq!['\''] + flat_map(s, |c: char| shell_char(c)) + seq!['\'']
}

/// Quotes a string for embedding in a command line.
pub fn shell_escape(s: &str) -> (out: String)
    ensures
        out@ == shell_escaped(s@),
{
    let chars = chars_of(s);
    let ghost f = |c: char| shell_char(c);
    let mut out = String::new();
    out.push('\'');
    assert(out@ =~= seq!['\''] + flat_map(s@.take(0), f));
    for i in 0..chars.len()
        invariant
            chars@ == s@,
            f == (|c: char| shell_char(c)),
            out@ == seq!['\''] + flat_map(s@.take(i as int), f),
    {
        proof {
            lemma_flat_map_step(s@, f, i as int);
        }
        let c = chars[i];
        if c == '\'' {
            out.append("'\\''");
        } else {
            out.push(c);
        }
        assert(out@ =~= seq!['\''] + flat_map(s@.take(i + 1), f));
    }
    assert(s@.take(s@.len() as int) =~= s@);
    out.push('\'');
    assert(out@ =~= shell_escaped(s@));
    out
}

/// The word that the shell makes of `s`, made of quoted parts and of characters
/// behind backslashes; `None` where `s` holds anything that the shell would
/// treat otherwise. `quoted` tells whether `s` starts between single quotes.
pub open spec fn shell_word(s: Seq<char>, quoted: bool) -> Option<Seq<char>>
    decreases s.len(),
{
    if s.len() == 0 {
        if quoted {
            None
        } else {
            Some(Seq::empty())
        }
    } else if s[0] == '\'' {
        shell_word(s.drop_first(), !quoted)
    } else if quoted {
        match shell_word(s.drop_first(), true) {
            Some(rest) => Some(seq![s[0]] + rest),
            None => None,
        }
    } else if s[0] == '\\' && s.len() >= 2 {
        match shell_word(s.skip(2), false) {
            Some(rest) => Some(seq![s[1]] + rest),
            None => None,
        }
    } else {
        None
    }
}

proof fn lemma_quoted(s: Seq<char>)
    ensures
        shell_word(flat_map(s, |c: char| shell_char(c)) + seq!['\''], true) == Some(s),
    decreases s.len(),
{
    let f = |c: char| shell_char(c);
    let end = seq!['\''];
    reveal_with_fuel(shell_word, 4);
    if s.len() == 0 {
        let all = flat_map(s, f) + end;
        assert(all =~= end);
        assert(all.drop_first() =~= Seq::<char>::empty());
        assert(s =~= Seq::<char>::empty());
    } else {
        let c = s[0];
        let rest = s.drop_first();
        lemma_flat_map_first(s, f);
        lemma_quoted(rest);
        let tail = flat_map(rest, f) + end;
        let all = flat_map(s, f) + end;
        assert(all =~= shell_char(c) + tail);
        assert(seq![c] + rest =~= s);
        if c == '\'' {
            reveal_strlit("'\\''");
            let one = all.drop_first();
            assert(one[0] == '\\' && one[1] == '\'');
            assert(one.skip(2)[0] == '\'');
            assert(one.skip(2).drop_first() =~= tail);
            assert(shell_word(one.skip(2), false) == shell_word(tail, true));
            assert(shell_word(one, false) == Some(seq!['\''] + rest));
            assert(shell_word(all, true) == shell_word(one, false));
        } else {
            assert(all.drop_first() =~= tail);
        }
    }
}

/// The shell reads an escaped string as one word, which is the string.
pub proof fn shell_escape_round_trip(s: Seq<char>)
    ensures
        shell_word(shell_escaped(s), false) == Some(s),
{
    lemma_quoted(s);
    let f = |c: char| shell_char(c);
    assert(shell_escaped(s).drop_first() =~= flat_map(s, f) + seq!['\'']);
}

} // verus!
