//! Starting the program at login, by an agent that the system reads from a file.

use crate::numbers::{decimal, decimal_injective, decimal_text};
use crate::text::{
    chars_of, concat2, concat3, ends_in, flat_map, lemma_flat_map_first, lemma_flat_map_step,
    stands_at,
};
use crate::tree::plain_unescape;
use vstd::prelude::*;
use vstd::string::*;

verus! {

/// The name of the agent.
pub const LABEL: &'static str = "io.celestialtech.BelkaTunnel";

// ---------- Paths ----------

/// A path below a directory.
pub open spec fn below(dir: Seq<char>, rest: Seq<char>) -> Seq<char> {
    if dir.len() == 0 {
        rest
    } else if dir.last() == '/' {
        dir + rest
    } else {
        dir + "/"@ + rest
    }
}

/// The path of `rest` below a directory.
pub fn join_path(dir: &str, rest: &str) -> (out: String)
    ensures
        out@ == below(dir@, rest@),
{
    let chars = chars_of(dir);
    if chars.len() == 0 {
        rest.to_owned()
    } else if chars[chars.len() - 1] == '/' {
        concat2(dir, rest)
    } else {
        concat3(dir, "/", rest)
    }
}

/// Where the agent of a user stands.
pub open spec fn agent_path(home: Seq<char>) -> Seq<char> {
    below(home, "Library/LaunchAgents/io.celestialtech.BelkaTunnel.plist"@)
}

/// The path of the agent; none where the home directory is not known.
pub fn plist_path(home: Option<&str>) -> (res: Option<String>)
    ensures
        match (res, home) {
            (Some(path), Some(h)) => path@ == agent_path(h@),
            (None, None) => true,
            _ => false,
        },
{
    match home {
        Some(h) => Some(join_path(h, "Library/LaunchAgents/io.celestialtech.BelkaTunnel.plist")),
        None => None,
    }
}

/// Whether the program starts at login: the agent is there. `exists` says so of the
/// path of the agent.
pub fn is_enabled(path: &Option<String>, exists: bool) -> (res: bool)
    ensures
        res == (path is Some && exists),
{
    path.is_some() && exists
}

/// The name of the file that is written first and then renamed.
pub open spec fn temporary_name(name: Seq<char>, pid: u32) -> Seq<char> {
    "."@ + name + ".tmp."@ + decimal(pid as nat)
}

/// The name of the file that is written first, beside the one it will replace.
pub fn temp_file_name(name: &str, pid: u32) -> (out: String)
    ensures
        out@ == temporary_name(name@, pid),
{
    let mut out = concat3(".", name, ".tmp.");
    out.append(decimal_text(pid as u64).as_str());
    out
}

/// The agent, as the system's tools name it.
pub fn agent_target(uid: u32) -> (out: String)
    ensures
        out@ == "gui/"@ + decimal(uid as nat) + "/"@ + LABEL@,
{
    let mut out = concat2("gui/", decimal_text(uid as u64).as_str());
    out.append("/");
    out.append(LABEL);
    out
}

// ---------- The agent ----------

/// What stands in the file for `c`.
pub open spec fn xml_char(c: char) -> Seq<char> {
    if c == '&' {
        "&amp;"@
    } else if c == '<' {
        "&lt;"@
    } else if c == '>' {
        "&gt;"@
    } else if c == '"' {
        "&quot;"@
    } else {
        seq![c]
    }
}

/// `s` as it is written to the file.
pub open spec fn xml_escaped(s: Seq<char>) -> Seq<char> {
    flat_map(s, |c: char| xml_char(c))
}

/// Replaces the characters that mean something in XML.
pub fn xml_escape(s: &str) -> (out: String)
    ensures
        out@ == xml_escaped(s@),
{
    let chars = chars_of(s);
    let ghost f = |c: char| xml_char(c);
    let mut out = String::new();
    assert(out@ =~= flat_map(s@.take(0), f));
    for i in 0..chars.len()
        invariant
            chars@ == s@,
            f == (|c: char| xml_char(c)),
            out@ == flat_map(s@.take(i as int), f),
    {
        proof {
            lemma_flat_map_step(s@, f, i as int);
        }
        let c = chars[i];
        if c == '&' {
            out.append("&amp;");
        } else if c == '<' {
            out.append("&lt;");
        } else if c == '>' {
            out.append("&gt;");
        } else if c == '"' {
            out.append("&quot;");
        } else {
            out.push(c);
            assert(out@ =~= flat_map(s@.take(i + 1), f));
        }
    }
    assert(s@.take(s@.len() as int) =~= s@);
    out
}

/// The agent that runs the program at the given path: at login, and again where it
/// ends in failure.
pub open spec fn agent(path: Seq<char>) -> Seq<char> {
    "<?xml version=\"1.0\" encoding=\"UTF-8\"?>\n<!DOCTYPE plist PUBLIC \"-//Apple//DTD PLIST 1.0//EN\" \"http://www.apple.com/DTDs/PropertyList-1.0.dtd\">\n<plist version=\"1.0\">\n<dict>\n    <key>Label</key>\n    <string>io.celestialtech.BelkaTunnel</string>\n    <key>ProgramArguments</key>\n    <array>\n        <string>"@
        + xml_escaped(path)
        + "</string>\n    </array>\n    <key>RunAtLoad</key>\n    <true/>\n    <key>KeepAlive</key>\n    <dict>\n        <key>SuccessfulExit</key>\n        <false/>\n    </dict>\n    <key>StandardOutPath</key>\n    <string>/tmp/belka-tunnel.out</string>\n    <key>StandardErrorPath</key>\n    <string>/tmp/belka-tunnel.err</string>\n</dict>\n</plist>\n"@
}

/// Writes the agent that runs the program at the given path.
pub fn build_plist(binary_path: &str) -> (out: String)
    ensures
        out@ == agent(binary_path@),
{
    let mut out = "<?xml version=\"1.0\" encoding=\"UTF-8\"?>\n<!DOCTYPE plist PUBLIC \"-//Apple//DTD PLIST 1.0//EN\" \"http://www.apple.com/DTDs/PropertyList-1.0.dtd\">\n<plist version=\"1.0\">\n<dict>\n    <key>Label</key>\n    <string>io.celestialtech.BelkaTunnel</string>\n    <key>ProgramArguments</key>\n    <array>\n        <string>".to_owned();
    out.append(xml_escape(binary_path).as_str());
    out.append("</string>\n    </array>\n    <key>RunAtLoad</key>\n    <true/>\n    <key>KeepAlive</key>\n    <dict>\n        <key>SuccessfulExit</key>\n        <false/>\n    </dict>\n    <key>StandardOutPath</key>\n    <string>/tmp/belka-tunnel.out</string>\n    <key>StandardErrorPath</key>\n    <string>/tmp/belka-tunnel.err</string>\n</dict>\n</plist>\n");
    out
}

// ---------- Laws ----------

/// Escaped text holds no markup, and reads as the text.
pub proof fn xml_escape_round_trip(s: Seq<char>)
    ensures
        !xml_escaped(s).contains('<'),
        !xml_escaped(s).contains('>'),
        !xml_escaped(s).contains('"'),
        plain_unescape(xml_escaped(s)) == Some(s),
    decreases s.len(),
{
    let f = |c: char| xml_char(c);
    if s.len() == 0 {
        assert(xml_escaped(s) =~= Seq::<char>::empty());
        assert(s =~= Seq::<char>::empty());
    } else {
        let c = s[0];
        let rest = s.drop_first();
        lemma_flat_map_first(s, f);
        xml_escape_round_trip(rest);
        reveal_strlit("&amp;");
        reveal_strlit("&lt;");
        reveal_strlit("&gt;");
        reveal_strlit("&quot;");
        let head = xml_char(c);
        let all = head + xml_escaped(rest);
        assert(xml_escaped(s) == all);
        assert(all.skip(head.len() as int) =~= xml_escaped(rest));
        assert(head.len() == 1 ==> all.drop_first() =~= xml_escaped(rest));
        assert(plain_unescape(all) == Some(seq![c] + rest));
        assert(seq![c] + rest =~= s);
        assert forall|i: int| 0 <= i < all.len() implies all[i] != '<' && all[i] != '>' && all[i]
            != '"' by {
            if i >= head.len() {
                let d = xml_escaped(rest)[i - head.len()];
                assert(all[i] == d);
                assert(xml_escaped(rest).contains(d));
            }
        }
    }
}

/// A path below a directory is the directory and the rest, with a slash between them
/// whether or not the directory ends in one.
pub proof fn paths_are_joined(dir: Seq<char>, rest: Seq<char>)
    ensures
        below(Seq::empty(), rest) == rest,
        dir.len() > 0 && dir.last() != '/' ==> below(dir, rest) == dir.push('/') + rest,
        below(dir.push('/'), rest) == dir.push('/') + rest,
{
    reveal_strlit("/");
    assert(dir + "/"@ =~= dir.push('/'));
}

/// The file that is written first stands beside the other one under another name,
/// which is hidden, and differs between processes.
pub proof fn temporary_names_differ(name: Seq<char>, pid: u32, other: u32)
    ensures
        temporary_name(name, pid) != name,
        temporary_name(name, pid)[0] == '.',
        temporary_name(name, pid) == temporary_name(name, other) <==> pid == other,
{
    reveal_strlit(".");
    reveal_strlit(".tmp.");
    let front = "."@ + name + ".tmp."@;
    assert(temporary_name(name, pid).skip(front.len() as int) =~= decimal(pid as nat));
    assert(temporary_name(name, other).skip(front.len() as int) =~= decimal(other as nat));
    if decimal(pid as nat) == decimal(other as nat) {
        decimal_injective(pid as nat, other as nat);
    }
}

/// Between the first `<string>` of the arguments and its end stands the path of the
/// program, whatever it holds, and nothing else in the agent depends on it.
pub proof fn agents_run_their_program(path: Seq<char>, other: Seq<char>)
    ensures
        exists|front: Seq<char>, back: Seq<char>|
            #![trigger front + xml_escaped(path) + back]
            agent(path) == front + xml_escaped(path) + back && agent(other) == front + xml_escaped(
                other,
            ) + back && ends_in(front, "<array>\n        <string>"@) && stands_at(
                back,
                "</string>\n    </array>"@,
                0,
            ),
        plain_unescape(xml_escaped(path)) == Some(path),
        agent(path) == agent(other) <==> path == other,
{
    xml_escape_round_trip(path);
    xml_escape_round_trip(other);
    let front =
        "<?xml version=\"1.0\" encoding=\"UTF-8\"?>\n<!DOCTYPE plist PUBLIC \"-//Apple//DTD PLIST 1.0//EN\" \"http://www.apple.com/DTDs/PropertyList-1.0.dtd\">\n<plist version=\"1.0\">\n<dict>\n    <key>Label</key>\n    <string>io.celestialtech.BelkaTunnel</string>\n    <key>ProgramArguments</key>\n    <array>\n        <string>"@;
    let back =
        "</string>\n    </array>\n    <key>RunAtLoad</key>\n    <true/>\n    <key>KeepAlive</key>\n    <dict>\n        <key>SuccessfulExit</key>\n        <false/>\n    </dict>\n    <key>StandardOutPath</key>\n    <string>/tmp/belka-tunnel.out</string>\n    <key>StandardErrorPath</key>\n    <string>/tmp/belka-tunnel.err</string>\n</dict>\n</plist>\n"@;
    assert(ends_in(front, "<array>\n        <string>"@)) by {
        reveal_strlit("<?xml version=\"1.0\" encoding=\"UTF-8\"?>\n<!DOCTYPE plist PUBLIC \"-//Apple//DTD PLIST 1.0//EN\" \"http://www.apple.com/DTDs/PropertyList-1.0.dtd\">\n<plist version=\"1.0\">\n<dict>\n    <key>Label</key>\n    <string>io.celestialtech.BelkaTunnel</string>\n    <key>ProgramArguments</key>\n    <array>\n        <string>");
        reveal_strlit("<array>\n        <string>");
        let pat = "<array>\n        <string>"@;
        assert(front.subrange(front.len() - pat.len(), front.len() as int) =~= pat);
    }
    assert(stands_at(back, "</string>\n    </array>"@, 0)) by {
        reveal_strlit("</string>\n    </array>\n    <key>RunAtLoad</key>\n    <true/>\n    <key>KeepAlive</key>\n    <dict>\n        <key>SuccessfulExit</key>\n        <false/>\n    </dict>\n    <key>StandardOutPath</key>\n    <string>/tmp/belka-tunnel.out</string>\n    <key>StandardErrorPath</key>\n    <string>/tmp/belka-tunnel.err</string>\n</dict>\n</plist>\n");
        reveal_strlit("</string>\n    </array>");
        let pat = "</string>\n    </array>"@;
        assert(back.subrange(0, pat.len() as int) =~= pat);
    }
    assert(agent(path) == front + xml_escaped(path) + back);
    assert(agent(other) == front + xml_escaped(other) + back);
    if agent(path) == agent(other) {
        let all = agent(path);
        assert(xml_escaped(path) =~= all.subrange(front.len() as int, all.len() - back.len()));
        assert(xml_escaped(other) =~= all.subrange(front.len() as int, all.len() - back.len()));
    }
}


} // verus!
