//! Texts for the system's script language.

use crate::text::{
    chars_of, concat2, concat3, flat_map, lemma_flat_map_first, lemma_flat_map_step, same_text,
    trim, trimmed,
};
use vstd::prelude::*;
use vstd::string::*;

verus! {

/// What stands in a string literal for `c`.
pub open spec fn script_char(c: char) -> Seq<char> {
    if c == '\\' {
        "\\\\"@
    } else if c == '"' {
        "\\\""@
    } else if c == '\n' {
        "\\n"@
    } else if c == '\r' {
        "\\r"@
    } else {
        seq![c]
    }
}

/// `s` as it stands between the quotes of a string literal.
pub open spec fn script_escaped(s: Seq<char>) -> Seq<char> {
    flat_map(s, |c: char| script_char(c))
}

/// Escapes text for a string literal of a script.
pub fn applescript_escape(s: &str) -> (out: String)
    ensures
        out@ == script_escaped(s@),
{
    let chars = chars_of(s);
    let ghost f = |c: char| script_char(c);
    let mut out = String::new();
    assert(out@ =~= flat_map(s@.take(0), f));
    for i in 0..chars.len()
        invariant
            chars@ == s@,
            f == (|c: char| script_char(c)),
            out@ == flat_map(s@.take(i as int), f),
    {
        proof {
            lemma_flat_map_step(s@, f, i as int);
        }
        let c = chars[i];
        if c == '\\' {
            out.append("\\\\");
        } else if c == '"' {
            out.append("\\\"");
        } else if c == '\n' {
            out.append("\\n");
        } else if c == '\r' {
            out.append("\\r");
        } else {
            out.push(c);
            assert(out@ =~= flat_map(s@.take(i + 1), f));
        }
    }
    assert(s@.take(s@.len() as int) =~= s@);
    out
}

/// The text that a string literal stands for, given what stands between its
/// quotes; none where the literal would end early or break.
pub open spec fn script_value(s: Seq<char>) -> Option<Seq<char>>
    decreases s.len(),
{
    if s.len() == 0 {
        Some(Seq::empty())
    } else if s[0] == '"' || s[0] == '\n' || s[0] == '\r' {
        None
    } else if s[0] != '\\' {
        match script_value(s.drop_first()) {
            Some(rest) => Some(seq![s[0]] + rest),
            None => None,
        }
    } else if s.len() == 1 {
        None
    } else {
        let c = if s[1] == 'n' {
            Some('\n')
        } else if s[1] == 'r' {
            Some('\r')
        } else if s[1] == '\\' || s[1] == '"' {
            Some(s[1])
        } else {
            None
        };
        match (c, script_value(s.skip(2))) {
            (Some(c), Some(rest)) => Some(seq![c] + rest),
            _ => None,
        }
    }
}

/// A string literal made of escaped text stands for that text.
pub proof fn applescript_escape_round_trip(s: Seq<char>)
    ensures
        script_value(script_escaped(s)) == Some(s),
    decreases s.len(),
{
    let f = |c: char| script_char(c);
    if s.len() == 0 {
        assert(script_escaped(s) =~= Seq::<char>::empty());
        assert(s =~= Seq::<char>::empty());
    } else {
        let c = s[0];
        let rest = s.drop_first();
        lemma_flat_map_first(s, f);
        applescript_escape_round_trip(rest);
        reveal_strlit("\\\\");
        reveal_strlit("\\\"");
        reveal_strlit("\\n");
        reveal_strlit("\\r");
        let head = script_char(c);
        let all = head + script_escaped(rest);
        assert(script_escaped(s) == all);
        assert(head.len() == 2 ==> all.skip(2) =~= script_escaped(rest));
        assert(head.len() == 1 ==> all.drop_first() =~= script_escaped(rest));
        assert(seq![c] + rest =~= s);
    }
}

// ---------- Scripts ----------

/// The script that shows a message and waits.
pub fn alert_script(title: &str, body: &str) -> (out: String)
    ensures
        out@ == "display alert \""@ + script_escaped(title@) + "\" message \""@ + script_escaped(
            body@,
        ) + "\" as critical buttons {\"OK\"} default button \"OK\""@,
{
    let mut out = concat2("display alert \"", applescript_escape(title).as_str());
    out.append("\" message \"");
    out.append(applescript_escape(body).as_str());
    out.append("\" as critical buttons {\"OK\"} default button \"OK\"");
    out
}

/// The script that asks whether to do something.
pub fn confirm_script(title: &str, body: &str, action: &str) -> (out: String)
    ensures
        out@ == "set r to display alert \""@ + script_escaped(title@) + "\" message \""@
            + script_escaped(body@) + "\" buttons {\"Cancel\", \""@ + script_escaped(action@)
            + "\"} default button \"Cancel\" cancel button \"Cancel\" as critical\nreturn button returned of r"@,
{
    let mut out = concat2("set r to display alert \"", applescript_escape(title).as_str());
    out.append("\" message \"");
    out.append(applescript_escape(body).as_str());
    out.append("\" buttons {\"Cancel\", \"");
    out.append(applescript_escape(action).as_str());
    out.append("\"} default button \"Cancel\" cancel button \"Cancel\" as critical\nreturn button returned of r");
    out
}

/// Whether the answer to a question is the offered action.
pub fn is_confirmed(answer: &str, action: &str) -> (res: bool)
    ensures
        res == (trimmed(answer@) == action@),
{
    same_text(trim(answer).as_str(), action)
}

/// The script that shows a notification.
pub fn notification_script(title: &str, body: &str) -> (out: String)
    ensures
        out@ == "display notification \""@ + script_escaped(body@) + "\" with title \""@
            + script_escaped(title@) + "\""@,
{
    let mut out = concat2("display notification \"", applescript_escape(body).as_str());
    out.append("\" with title \"");
    out.append(applescript_escape(title).as_str());
    out.append("\"");
    out
}

/// The script that moves a file to the Trash.
pub fn trash_script(path: &str) -> (out: String)
    ensures
        out@ == "tell application \"Finder\" to delete POSIX file \""@ + script_escaped(path@)
            + "\""@,
{
    concat3(
        "tell application \"Finder\" to delete POSIX file \"",
        applescript_escape(path).as_str(),
        "\"",
    )
}

/// The script that runs a command in a new terminal window.
pub fn terminal_script(command: &str) -> (out: String)
    ensures
        out@ == "tell application \"Terminal\"\n    activate\n    do script \""@ + script_escaped(
            command@,
        ) + "\"\nend tell"@,
{
    concat3(
        "tell application \"Terminal\"\n    activate\n    do script \"",
        applescript_escape(command).as_str(),
        "\"\nend tell",
    )
}

} // verus!
