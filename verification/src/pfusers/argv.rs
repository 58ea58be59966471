//! What the shell of the router makes of the command lines: the words that each
//! program is run with.

use crate::numbers::{decimal, decimal_injective, decimal_is_digits, is_digit};
use crate::pfusers::commands::{
    key_directory, key_file, keys_line, lock_line, order_outcome, restore_line, snapshot_line,
    snapshot_name, useradd_line, userdel_line, usermod_line, Order,
};
use crate::pfusers::document::{next_uid_of, parsed, user_named};
use crate::pfusers::errors::Failure;
use crate::pfusers::operations::{
    add_outcome, delete_outcome, update_outcome, updated_row, AddUserReq, UpdateUserReq,
};
use crate::pfusers::pfsense::{is_username_char, shell_for, username_failure};
use crate::pfusers::shell::{shell_char, shell_escaped};
use crate::pfusers::users::grants_shell;
use crate::text::{flat_map, lemma_flat_map_first, texts, trimmed};
use vstd::prelude::*;
use vstd::string::*;

verus! {

// ---------- Words ----------

/// Characters that mean nothing to the shell.
pub open spec fn is_plain(c: char) -> bool {
    ||| 'a' <= c <= 'z'
    ||| 'A' <= c <= 'Z'
    ||| '0' <= c <= '9'
    ||| c == '/'
    ||| c == '.'
    ||| c == '-'
    ||| c == '_'
    ||| c == ':'
}

pub open spec fn all_plain(s: Seq<char>) -> bool {
    forall|i: int| 0 <= i < s.len() ==> is_plain(#[trigger] s[i])
}

/// A first word in front of others.
pub open spec fn with_word(word: Seq<char>, rest: Option<Seq<Seq<char>>>) -> Option<
    Seq<Seq<char>>,
> {
    match rest {
        Some(list) => Some(seq![word] + list),
        None => None,
    }
}

/// A word that has begun, or nothing yet.
pub open spec fn begun(word: Option<Seq<char>>) -> Seq<char> {
    match word {
        Some(w) => w,
        None => Seq::empty(),
    }
}

/// The words that the shell reads in `s`, behind the word that has begun, if any, and
/// between single quotes or not; none where `s` holds anything that is more to the
/// shell than a word.
pub open spec fn words_from(s: Seq<char>, word: Option<Seq<char>>, quoted: bool) -> Option<
    Seq<Seq<char>>,
>
    decreases s.len(),
{
    if s.len() == 0 {
        if quoted {
            None
        } else {
            match word {
                Some(w) => Some(seq![w]),
                None => Some(Seq::empty()),
            }
        }
    } else if s[0] == '\'' {
        words_from(s.drop_first(), Some(begun(word)), !quoted)
    } else if quoted {
        words_from(s.drop_first(), Some(begun(word).push(s[0])), true)
    } else if s[0] == '\\' && s.len() >= 2 {
        words_from(s.skip(2), Some(begun(word).push(s[1])), false)
    } else if s[0] == ' ' {
        match word {
            Some(w) => with_word(w, words_from(s.drop_first(), None, false)),
            None => words_from(s.drop_first(), None, false),
        }
    } else if is_plain(s[0]) {
        words_from(s.drop_first(), Some(begun(word).push(s[0])), false)
    } else {
        None
    }
}

/// The words that the shell reads in a command line.
pub open spec fn words(line: Seq<char>) -> Option<Seq<Seq<char>>> {
    words_from(line, None, false)
}

proof fn lemma_plain_part(p: Seq<char>, rest: Seq<char>, word: Option<Seq<char>>)
    requires
        all_plain(p),
        p.len() > 0 || word is Some,
    ensures
        words_from(p + rest, word, false) == words_from(rest, Some(begun(word) + p), false),
    decreases p.len(),
{
    if p.len() == 0 {
        assert(p + rest =~= rest);
        assert(begun(word) + p =~= begun(word));
    } else {
        let tail = p.drop_first();
        assert(is_plain(p[0]));
        assert((p + rest)[0] == p[0]);
        assert((p + rest).drop_first() =~= tail + rest);
        assert forall|i: int| 0 <= i < tail.len() implies is_plain(#[trigger] tail[i]) by {
            assert(tail[i] == p[i + 1]);
        }
        let next = begun(word).push(p[0]);
        lemma_plain_part(tail, rest, Some(next));
        assert(next + tail =~= begun(word) + p);
    }
}

#[verifier::rlimit(30)]
proof fn lemma_inside_quotes(x: Seq<char>, rest: Seq<char>, w: Seq<char>)
    ensures
        words_from(
            flat_map(x, |c: char| shell_char(c)) + seq!['\''] + rest,
            Some(w),
            true,
        ) == words_from(rest, Some(w + x), false),
    decreases x.len(),
{
    let f = |c: char| shell_char(c);
    reveal_with_fuel(words_from, 5);
    let all = flat_map(x, f) + seq!['\''] + rest;
    if x.len() == 0 {
        assert(all[0] == '\'');
        assert(all.drop_first() =~= rest);
        assert(w + x =~= w);
    } else {
        let c = x[0];
        let tail = x.drop_first();
        lemma_flat_map_first(x, f);
        let after = flat_map(tail, f) + seq!['\''] + rest;
        assert(all =~= shell_char(c) + after);
        lemma_inside_quotes(tail, rest, w.push(c));
        assert(w.push(c) + tail =~= w + x);
        if c == '\'' {
            reveal_strlit("'\\''");
            let one = all.drop_first();
            assert(all[0] == '\'' && one[0] == '\\' && one[1] == '\'');
            let two = one.skip(2);
            assert(two[0] == '\'');
            assert(two.drop_first() =~= after);
            assert(words_from(two, Some(w.push(c)), false) == words_from(
                after,
                Some(w.push(c)),
                true,
            ));
            assert(words_from(one, Some(w), false) == words_from(two, Some(w.push(c)), false));
            assert(words_from(all, Some(w), true) == words_from(one, Some(w), false));
        } else {
            assert(all[0] == c);
            assert(all.drop_first() =~= after);
        }
    }
}

proof fn lemma_quoted_part(x: Seq<char>, rest: Seq<char>, word: Option<Seq<char>>)
    ensures
        words_from(shell_escaped(x) + rest, word, false) == words_from(
            rest,
            Some(begun(word) + x),
            false,
        ),
{
    let f = |c: char| shell_char(c);
    let all = shell_escaped(x) + rest;
    assert(all[0] == '\'');
    assert(all.drop_first() =~= flat_map(x, f) + seq!['\''] + rest);
    lemma_inside_quotes(x, rest, begun(word));
}

/// A plain word and a space.
proof fn lemma_plain_word(p: Seq<char>, rest: Seq<char>)
    requires
        all_plain(p),
        p.len() > 0,
    ensures
        words(p + seq![' '] + rest) == with_word(p, words(rest)),
        words(p) == Some(seq![p]),
{
    let tail = seq![' '] + rest;
    assert(p + seq![' '] + rest =~= p + tail);
    lemma_plain_part(p, tail, None);
    assert(begun(None) + p =~= p);
    assert(tail.drop_first() =~= rest);
    lemma_plain_part(p, Seq::empty(), None);
    assert(p + Seq::<char>::empty() =~= p);
}

/// A quoted word and a space.
proof fn lemma_quoted_word(x: Seq<char>, rest: Seq<char>)
    ensures
        words(shell_escaped(x) + seq![' '] + rest) == with_word(x, words(rest)),
        words(shell_escaped(x)) == Some(seq![x]),
{
    let tail = seq![' '] + rest;
    assert(shell_escaped(x) + seq![' '] + rest =~= shell_escaped(x) + tail);
    lemma_quoted_part(x, tail, None);
    assert(begun(None) + x =~= x);
    assert(tail.drop_first() =~= rest);
    lemma_quoted_part(x, Seq::empty(), None);
    assert(shell_escaped(x) + Seq::<char>::empty() =~= shell_escaped(x));
}

// ---------- Accounts ----------

/// A program, what it is to do, an option, and what follows.
proof fn lemma_command(program: Seq<char>, verb: Seq<char>, option: Seq<char>, rest: Seq<char>)
    requires
        all_plain(program) && program.len() > 0,
        all_plain(verb) && verb.len() > 0,
        all_plain(option) && option.len() > 0,
    ensures
        words(program + seq![' '] + verb + seq![' '] + option + seq![' '] + rest) == match words(
            rest,
        ) {
            Some(list) => Some(seq![program, verb, option] + list),
            None => None,
        },
{
    let b = option + seq![' '] + rest;
    let a = verb + seq![' '] + b;
    assert(program + seq![' '] + verb + seq![' '] + option + seq![' '] + rest =~= program + seq![
        ' ',
    ] + a);
    lemma_plain_word(program, a);
    lemma_plain_word(verb, b);
    lemma_plain_word(option, rest);
    if let Some(list) = words(rest) {
        assert(seq![program] + (seq![verb] + (seq![option] + list)) =~= seq![program, verb, option]
            + list);
    }
}

/// A user is locked, or unlocked, by its name.
pub proof fn accounts_are_locked(name: Seq<char>, locked: bool)
    ensures
        words(lock_line(name, locked)) == Some(
            seq![
                "/usr/sbin/pw"@,
                if locked {
                    "lock"@
                } else {
                    "unlock"@
                },
                "-n"@,
                name,
            ],
        ),
{
    reveal_strlit("/usr/sbin/pw lock -n ");
    reveal_strlit("/usr/sbin/pw unlock -n ");
    reveal_strlit("/usr/sbin/pw");
    reveal_strlit("lock");
    reveal_strlit("unlock");
    reveal_strlit("-n");
    let verb = if locked {
        "lock"@
    } else {
        "unlock"@
    };
    lemma_command("/usr/sbin/pw"@, verb, "-n"@, shell_escaped(name));
    lemma_quoted_word(name, Seq::empty());
    assert(lock_line(name, locked) =~= "/usr/sbin/pw"@ + seq![' '] + verb + seq![' '] + "-n"@ + seq![
        ' ',
    ] + shell_escaped(name));
    assert(seq!["/usr/sbin/pw"@, verb, "-n"@] + seq![name] =~= seq![
        "/usr/sbin/pw"@,
        verb,
        "-n"@,
        name,
    ]);
}

/// A user is removed by its name, with its home directory.
pub proof fn accounts_are_removed(name: Seq<char>)
    ensures
        words(userdel_line(name)) == Some(
            seq!["/usr/sbin/pw"@, "userdel"@, "-n"@, name, "-r"@],
        ),
{
    reveal_strlit("/usr/sbin/pw userdel -n ");
    reveal_strlit(" -r");
    reveal_strlit("/usr/sbin/pw");
    reveal_strlit("userdel");
    reveal_strlit("-n");
    reveal_strlit("-r");
    let tail = shell_escaped(name) + seq![' '] + "-r"@;
    lemma_command("/usr/sbin/pw"@, "userdel"@, "-n"@, tail);
    lemma_quoted_word(name, "-r"@);
    lemma_plain_word("-r"@, Seq::empty());
    assert(userdel_line(name) =~= "/usr/sbin/pw"@ + seq![' '] + "userdel"@ + seq![' '] + "-n"@
        + seq![' '] + tail);
    assert(seq!["/usr/sbin/pw"@, "userdel"@, "-n"@] + (seq![name] + seq!["-r"@]) =~= seq![
        "/usr/sbin/pw"@,
        "userdel"@,
        "-n"@,
        name,
        "-r"@,
    ]);
}

/// A user gets the login shell by its name.
pub proof fn shells_are_set(name: Seq<char>, shell: Seq<char>)
    ensures
        words(usermod_line(name, shell)) == Some(
            seq!["/usr/sbin/pw"@, "usermod"@, "-n"@, name, "-s"@, shell],
        ),
{
    reveal_strlit("/usr/sbin/pw usermod -n ");
    reveal_strlit(" -s ");
    reveal_strlit("/usr/sbin/pw");
    reveal_strlit("usermod");
    reveal_strlit("-n");
    reveal_strlit("-s");
    let end = "-s"@ + seq![' '] + shell_escaped(shell);
    let tail = shell_escaped(name) + seq![' '] + end;
    lemma_command("/usr/sbin/pw"@, "usermod"@, "-n"@, tail);
    lemma_quoted_word(name, end);
    lemma_plain_word("-s"@, shell_escaped(shell));
    lemma_quoted_word(shell, Seq::empty());
    assert(usermod_line(name, shell) =~= "/usr/sbin/pw"@ + seq![' '] + "usermod"@ + seq![' ']
        + "-n"@ + seq![' '] + tail);
    assert(seq!["/usr/sbin/pw"@, "usermod"@, "-n"@] + (seq![name] + (seq!["-s"@] + seq![shell]))
        =~= seq!["/usr/sbin/pw"@, "usermod"@, "-n"@, name, "-s"@, shell]);
}

/// A user is created with its name, its uid, a home directory, its login shell and its
/// description, and in no further groups.
pub proof fn accounts_are_created(name: Seq<char>, uid: u32, shell: Seq<char>, descr: Seq<char>)
    ensures
        words(useradd_line(name, uid, shell, descr)) == Some(
            seq![
                "/usr/sbin/pw"@,
                "useradd"@,
                "-n"@,
                name,
                "-u"@,
                decimal(uid as nat),
                "-m"@,
                "-s"@,
                shell,
                "-c"@,
                descr,
                "-G"@,
                Seq::empty(),
            ],
        ),
{
    lemma_useradd_text();
    let number = decimal(uid as nat);
    decimal_is_digits(uid as nat);
    assert forall|i: int| 0 <= i < number.len() implies is_plain(#[trigger] number[i]) by {
        assert(is_digit(number[i]));
    }
    let sp = seq![' '];
    let none = Seq::<char>::empty();
    let front = seq![name, "-u"@, number, "-m"@];
    let back = seq!["-s"@, shell, "-c"@, descr, "-G"@, none];
    let d = "-s"@ + sp + (shell_escaped(shell) + sp + ("-c"@ + sp + (shell_escaped(descr) + sp + (
    "-G"@ + sp + shell_escaped(none)))));
    let tail = shell_escaped(name) + sp + ("-u"@ + sp + (number + sp + ("-m"@ + sp + d)));
    lemma_details("-s"@, shell, "-c"@, descr, "-G"@);
    lemma_subject(name, "-u"@, number, "-m"@, d, back);
    lemma_command("/usr/sbin/pw"@, "useradd"@, "-n"@, tail);
    lemma_joined(
        "/usr/sbin/pw"@ + sp + "useradd"@ + sp + "-n"@ + sp,
        shell_escaped(name),
        "-u"@,
        number,
        "-m"@,
        d,
    );
    lemma_joined_details(
        "-s"@,
        shell_escaped(shell),
        "-c"@,
        shell_escaped(descr),
        "-G"@,
        shell_escaped(none),
    );
    lemma_line(
        "/usr/sbin/pw"@ + sp + "useradd"@ + sp + "-n"@ + sp + shell_escaped(name) + (sp + "-u"@
            + sp) + number,
        sp + "-m"@ + sp,
        "-s"@ + sp,
        shell_escaped(shell),
        sp + "-c"@ + sp,
        shell_escaped(descr),
        sp + "-G"@ + sp + shell_escaped(none),
    );
    assert(seq!["/usr/sbin/pw"@, "useradd"@, "-n"@] + (front + back) =~= seq![
        "/usr/sbin/pw"@,
        "useradd"@,
        "-n"@,
        name,
        "-u"@,
        number,
        "-m"@,
        "-s"@,
        shell,
        "-c"@,
        descr,
        "-G"@,
        none,
    ]);
}

/// The pieces of the command that creates an account.
proof fn lemma_useradd_text()
    ensures
        "/usr/sbin/pw useradd -n "@ == "/usr/sbin/pw"@ + seq![' '] + "useradd"@ + seq![' '] + "-n"@
            + seq![' '],
        " -u "@ == seq![' '] + "-u"@ + seq![' '],
        " -m -s "@ == seq![' '] + "-m"@ + seq![' '] + ("-s"@ + seq![' ']),
        " -c "@ == seq![' '] + "-c"@ + seq![' '],
        " -G ''"@ == seq![' '] + "-G"@ + seq![' '] + shell_escaped(Seq::empty()),
        all_plain("/usr/sbin/pw"@) && "/usr/sbin/pw"@.len() > 0,
        all_plain("useradd"@) && "useradd"@.len() > 0,
        all_plain("-n"@) && "-n"@.len() > 0,
        all_plain("-u"@) && "-u"@.len() > 0,
        all_plain("-m"@) && "-m"@.len() > 0,
        all_plain("-s"@) && "-s"@.len() > 0,
        all_plain("-c"@) && "-c"@.len() > 0,
        all_plain("-G"@) && "-G"@.len() > 0,
{
    reveal_strlit("/usr/sbin/pw useradd -n ");
    reveal_strlit(" -u ");
    reveal_strlit(" -m -s ");
    reveal_strlit(" -c ");
    reveal_strlit(" -G ''");
    reveal_strlit("/usr/sbin/pw");
    reveal_strlit("useradd");
    reveal_strlit("-n");
    reveal_strlit("-u");
    reveal_strlit("-m");
    reveal_strlit("-s");
    reveal_strlit("-c");
    reveal_strlit("-G");
    assert(shell_escaped(Seq::empty()) =~= seq!['\'', '\'']);
}

proof fn lemma_joined(
    p: Seq<char>,
    x: Seq<char>,
    a: Seq<char>,
    n: Seq<char>,
    b: Seq<char>,
    rest: Seq<char>,
)
    ensures
        p + x + (seq![' '] + a + seq![' ']) + n + (seq![' '] + b + seq![' ']) + rest == p + (x
            + seq![' '] + (a + seq![' '] + (n + seq![' '] + (b + seq![' '] + rest)))),
{
    let sp = seq![' '];
    let r3 = b + sp + rest;
    let r2 = n + sp + r3;
    let r1 = a + sp + r2;
    assert(n + (sp + b + sp) + rest =~= r2);
    assert((sp + a + sp) + r2 =~= sp + r1);
    assert(x + (sp + r1) =~= x + sp + r1);
    let q = p + x;
    let u = sp + a + sp;
    assert(q + u + n + (sp + b + sp) + rest =~= q + u + (n + (sp + b + sp) + rest));
    assert(q + u + r2 =~= q + (u + r2));
    assert(p + x + (sp + r1) =~= p + (x + (sp + r1)));
}

proof fn lemma_joined_details(
    a: Seq<char>,
    x: Seq<char>,
    b: Seq<char>,
    y: Seq<char>,
    c: Seq<char>,
    z: Seq<char>,
)
    ensures
        (a + seq![' ']) + x + (seq![' '] + b + seq![' ']) + y + (seq![' '] + c + seq![' '] + z)
            == a + seq![' '] + (x + seq![' '] + (b + seq![' '] + (y + seq![' '] + (c + seq![' ']
            + z)))),
{
    let sp = seq![' '];
    let r3 = c + sp + z;
    let r2 = y + sp + r3;
    let r1 = b + sp + r2;
    assert(y + (sp + c + sp + z) =~= r2);
    assert((sp + b + sp) + r2 =~= sp + r1);
    assert(x + (sp + r1) =~= x + sp + r1);
    let q = a + sp + x;
    let u = sp + b + sp;
    assert(q + u + y + (sp + c + sp + z) =~= q + u + (y + (sp + c + sp + z)));
    assert(q + u + r2 =~= q + (u + r2));
    assert(a + sp + x + (sp + r1) =~= a + sp + (x + (sp + r1)));
}

proof fn lemma_line(
    front: Seq<char>,
    m: Seq<char>,
    s: Seq<char>,
    x: Seq<char>,
    c: Seq<char>,
    y: Seq<char>,
    g: Seq<char>,
)
    ensures
        front + (m + s) + x + c + y + g == front + m + (s + x + c + y + g),
{
    assert(front + (m + s) =~= front + m + s);
    let f = front + m;
    assert(f + s + x =~= f + (s + x));
    assert(f + (s + x) + c =~= f + (s + x + c));
    assert(f + (s + x + c) + y =~= f + (s + x + c + y));
    assert(f + (s + x + c + y) + g =~= f + (s + x + c + y + g));
}

/// Two options with what they are given, and one that is given nothing.
proof fn lemma_details(a: Seq<char>, x: Seq<char>, b: Seq<char>, y: Seq<char>, c: Seq<char>)
    requires
        all_plain(a) && a.len() > 0,
        all_plain(b) && b.len() > 0,
        all_plain(c) && c.len() > 0,
    ensures
        words(
            a + seq![' '] + (shell_escaped(x) + seq![' '] + (b + seq![' '] + (shell_escaped(y)
                + seq![' '] + (c + seq![' '] + shell_escaped(Seq::empty()))))),
        ) == Some(seq![a, x, b, y, c, Seq::empty()]),
{
    let sp = seq![' '];
    let none = Seq::<char>::empty();
    let h = c + sp + shell_escaped(none);
    let g = shell_escaped(y) + sp + h;
    let f = b + sp + g;
    let e = shell_escaped(x) + sp + f;
    lemma_quoted_word(none, none);
    lemma_plain_word(c, shell_escaped(none));
    lemma_quoted_word(y, h);
    lemma_plain_word(b, g);
    lemma_quoted_word(x, f);
    lemma_plain_word(a, e);
    assert(seq![a] + (seq![x] + (seq![b] + (seq![y] + (seq![c] + seq![none])))) =~= seq![
        a,
        x,
        b,
        y,
        c,
        none,
    ]);
}

/// What a command is about, an option with a plain word, an option that takes none,
/// and what follows.
proof fn lemma_subject(
    x: Seq<char>,
    a: Seq<char>,
    n: Seq<char>,
    b: Seq<char>,
    rest: Seq<char>,
    list: Seq<Seq<char>>,
)
    requires
        all_plain(a) && a.len() > 0,
        all_plain(n) && n.len() > 0,
        all_plain(b) && b.len() > 0,
        words(rest) == Some(list),
    ensures
        words(
            shell_escaped(x) + seq![' '] + (a + seq![' '] + (n + seq![' '] + (b + seq![' ']
                + rest))),
        ) == Some(seq![x, a, n, b] + list),
{
    let sp = seq![' '];
    let p = b + sp + rest;
    let q = n + sp + p;
    let r = a + sp + q;
    lemma_plain_word(b, rest);
    lemma_plain_word(n, p);
    lemma_plain_word(a, q);
    lemma_quoted_word(x, r);
    assert(seq![x] + (seq![a] + (seq![n] + (seq![b] + list))) =~= seq![x, a, n, b] + list);
}

// ---------- Snapshots ----------

proof fn lemma_copy(from: Seq<char>, to: Seq<char>)
    requires
        all_plain(from) && from.len() > 0,
        all_plain(to) && to.len() > 0,
    ensures
        words("/bin/cp"@ + seq![' '] + from + seq![' '] + to) == Some(seq!["/bin/cp"@, from, to]),
{
    reveal_strlit("/bin/cp");
    let tail = from + seq![' '] + to;
    assert("/bin/cp"@ + seq![' '] + from + seq![' '] + to =~= "/bin/cp"@ + seq![' '] + tail);
    lemma_plain_word("/bin/cp"@, tail);
    lemma_plain_word(from, to);
    lemma_plain_word(to, Seq::empty());
    assert(seq!["/bin/cp"@] + (seq![from] + seq![to]) =~= seq!["/bin/cp"@, from, to]);
}

/// A snapshot is a copy of the document, and is put back by copying it the other way;
/// snapshots of different times stand in different places, and none of them is the
/// document.
pub proof fn snapshots_are_put_back(seconds: nat, other: nat)
    ensures
        words(snapshot_line(snapshot_name(seconds))) == Some(
            seq!["/bin/cp"@, "/cf/conf/config.xml"@, snapshot_name(seconds)],
        ),
        words(restore_line(snapshot_name(seconds))) == Some(
            seq!["/bin/cp"@, snapshot_name(seconds), "/cf/conf/config.xml"@],
        ),
        snapshot_name(seconds) == snapshot_name(other) <==> seconds == other,
        snapshot_name(seconds) != "/cf/conf/config.xml"@,
{
    reveal_strlit("/bin/cp /cf/conf/config.xml ");
    reveal_strlit("/bin/cp ");
    reveal_strlit(" /cf/conf/config.xml");
    reveal_strlit("/cf/conf/config.xml");
    reveal_strlit("/bin/cp");
    reveal_strlit("/cf/conf/backup/config-");
    reveal_strlit("-pfusers.xml");
    let number = decimal(seconds);
    decimal_is_digits(seconds);
    let path = snapshot_name(seconds);
    let front = "/cf/conf/backup/config-"@;
    let back = "-pfusers.xml"@;
    assert forall|i: int| 0 <= i < path.len() implies is_plain(#[trigger] path[i]) by {
        if front.len() <= i < front.len() + number.len() {
            assert(is_digit(number[i - front.len()]));
            assert(path[i] == number[i - front.len()]);
        }
    }
    lemma_copy("/cf/conf/config.xml"@, path);
    lemma_copy(path, "/cf/conf/config.xml"@);
    assert(snapshot_line(path) =~= "/bin/cp"@ + seq![' '] + "/cf/conf/config.xml"@ + seq![' ']
        + path);
    assert(restore_line(path) =~= "/bin/cp"@ + seq![' '] + path + seq![' ']
        + "/cf/conf/config.xml"@);
    let b = snapshot_name(other);
    if path == b {
        assert(number =~= path.subrange(front.len() as int, path.len() - back.len()));
        assert(decimal(other) =~= b.subrange(front.len() as int, b.len() - back.len()));
        decimal_injective(seconds, other);
    }
    assert(path.len() > "/cf/conf/config.xml"@.len());
}

// ---------- Keys ----------

/// Public keys are written from the input of the command to the file in the home
/// directory of the user, which nobody else can read; the directory is made first,
/// and all of it belongs to the user afterwards.
#[verifier::rlimit(30)]
pub proof fn keys_go_to_their_user(name: Seq<char>)
    requires
        name.len() > 0,
        username_failure(name) is None,
    ensures
        ({
            let dir = "/home/"@ + name + "/.ssh"@;
            let file = dir + "/authorized_keys"@;
            exists|a: Seq<char>, b: Seq<char>, c: Seq<char>, d: Seq<char>|
                keys_line(name) == #[trigger] (a + " && "@ + b + " && "@ + "/bin/cat > "@ + file
                    + " && "@ + c + " && "@ + d) && words(a) == Some(
                    seq!["/bin/mkdir"@, "-p"@, dir],
                ) && words(b) == Some(seq!["/bin/chmod"@, "700"@, dir]) && words(c) == Some(
                    seq!["/bin/chmod"@, "600"@, file],
                ) && words(d) == Some(
                    seq!["/usr/sbin/chown"@, "-R"@, name + seq![':'] + name, dir],
                )
        }),
{
    reveal_strlit("/home/");
    reveal_strlit("/.ssh");
    reveal_strlit("/authorized_keys");
    reveal_strlit("/bin/mkdir -p ");
    reveal_strlit(" && /bin/chmod 700 ");
    reveal_strlit(" && /bin/cat > ");
    reveal_strlit(" && /bin/chmod 600 ");
    reveal_strlit(" && /usr/sbin/chown -R ");
    reveal_strlit(":");
    reveal_strlit(" ");
    reveal_strlit(" && ");
    reveal_strlit("/bin/cat > ");
    reveal_strlit("/bin/mkdir");
    reveal_strlit("-p");
    reveal_strlit("/bin/chmod");
    reveal_strlit("700");
    reveal_strlit("600");
    reveal_strlit("/usr/sbin/chown");
    reveal_strlit("-R");
    let sp = seq![' '];
    let dir = "/home/"@ + name + "/.ssh"@;
    let file = dir + "/authorized_keys"@;
    assert(dir == key_directory(name));
    assert(file == key_file(name));
    assert forall|i: int| 0 <= i < name.len() implies is_plain(#[trigger] name[i]) by {
        assert(is_username_char(name[i]));
    }
    assert forall|i: int| 0 <= i < dir.len() implies is_plain(#[trigger] dir[i]) by {
        if 6 <= i < 6 + name.len() {
            assert(dir[i] == name[i - 6]);
        }
    }
    assert forall|i: int| 0 <= i < file.len() implies is_plain(#[trigger] file[i]) by {
        if i < dir.len() {
            assert(file[i] == dir[i]);
        }
    }
    let a = "/bin/mkdir"@ + sp + "-p"@ + sp + dir;
    let b = "/bin/chmod"@ + sp + "700"@ + sp + dir;
    let c = "/bin/chmod"@ + sp + "600"@ + sp + file;
    let owner = shell_escaped(name);
    let d = "/usr/sbin/chown"@ + sp + "-R"@ + sp + (owner + seq![':'] + owner + sp + dir);
    lemma_three("/bin/mkdir"@, "-p"@, dir);
    lemma_three("/bin/chmod"@, "700"@, dir);
    lemma_three("/bin/chmod"@, "600"@, file);
    lemma_owner("/usr/sbin/chown"@, "-R"@, name, dir);
    assert(keys_line(name) =~= a + " && "@ + b + " && "@ + "/bin/cat > "@ + file + " && "@ + c
        + " && "@ + d);
}

proof fn lemma_three(x: Seq<char>, y: Seq<char>, z: Seq<char>)
    requires
        all_plain(x) && x.len() > 0,
        all_plain(y) && y.len() > 0,
        all_plain(z) && z.len() > 0,
    ensures
        words(x + seq![' '] + y + seq![' '] + z) == Some(seq![x, y, z]),
{
    let tail = y + seq![' '] + z;
    assert(x + seq![' '] + y + seq![' '] + z =~= x + seq![' '] + tail);
    lemma_plain_word(x, tail);
    lemma_plain_word(y, z);
    lemma_plain_word(z, Seq::empty());
    assert(seq![x] + (seq![y] + seq![z]) =~= seq![x, y, z]);
}

proof fn lemma_owner(x: Seq<char>, y: Seq<char>, name: Seq<char>, dir: Seq<char>)
    requires
        all_plain(x) && x.len() > 0,
        all_plain(y) && y.len() > 0,
        all_plain(dir) && dir.len() > 0,
    ensures
        words(
            x + seq![' '] + y + seq![' '] + (shell_escaped(name) + seq![':'] + shell_escaped(name)
                + seq![' '] + dir),
        ) == Some(seq![x, y, name + seq![':'] + name, dir]),
{
    let sp = seq![' '];
    let owner = shell_escaped(name);
    let last = sp + dir;
    let two = owner + last;
    let one = seq![':'] + two;
    let all = owner + one;
    assert(owner + seq![':'] + owner + sp + dir =~= all);
    lemma_quoted_part(name, one, None);
    assert(begun(None) + name =~= name);
    assert(is_plain(':'));
    lemma_plain_part(seq![':'], two, Some(name));
    lemma_quoted_part(name, last, Some(name + seq![':']));
    let word = name + seq![':'] + name;
    assert(last.drop_first() =~= dir);
    lemma_plain_word(dir, Seq::empty());
    assert(words(all) == with_word(word, words(dir)));
    assert(x + sp + y + sp + all =~= x + sp + (y + sp + all));
    lemma_plain_word(x, y + sp + all);
    lemma_plain_word(y, all);
    assert(seq![x] + (seq![y] + (seq![word] + seq![dir])) =~= seq![x, y, word, dir]);
}

// ---------- What follows an operation ----------

/// The login shell goes with the privileges: one for a shell where there is access to
/// one or to all pages, otherwise the shells that let files be copied or a tunnel be
/// opened, otherwise none; in which order the privileges stand, and whether one is
/// given twice, makes no difference.
pub proof fn shells_go_with_privileges(list: Seq<Seq<char>>, same: Seq<Seq<char>>)
    requires
        forall|p: Seq<char>| list.contains(p) <==> #[trigger] same.contains(p),
    ensures
        shell_for(list) == shell_for(same),
        shell_for(list) == "/bin/tcsh"@ <==> list.contains("user-shell-access"@) || list.contains(
            "page-all"@,
        ),
        shell_for(list) == "/sbin/nologin"@ <==> !list.contains("user-shell-access"@)
            && !list.contains("page-all"@) && !list.contains("user-copy-files-chroot"@)
            && !list.contains("user-copy-files"@) && !list.contains("user-ssh-tunnel"@),
        shell_for(list) == "/usr/local/sbin/ssh_tunnel_shell"@ <==> list.contains(
            "user-ssh-tunnel"@,
        ) && !list.contains("user-shell-access"@) && !list.contains("page-all"@) && !list.contains(
            "user-copy-files-chroot"@,
        ) && !list.contains("user-copy-files"@),
        shell_for(list) == "/usr/local/sbin/scponlyc"@ <==> list.contains("user-copy-files-chroot"@)
            && !list.contains("user-shell-access"@) && !list.contains("page-all"@),
        shell_for(list) == "/usr/local/bin/scponly"@ <==> list.contains("user-copy-files"@)
            && !list.contains("user-copy-files-chroot"@) && !list.contains("user-shell-access"@)
            && !list.contains("page-all"@),
{
    reveal_strlit("/bin/tcsh");
    reveal_strlit("/sbin/nologin");
    reveal_strlit("/usr/local/sbin/ssh_tunnel_shell");
    reveal_strlit("/usr/local/sbin/scponlyc");
    reveal_strlit("/usr/local/bin/scponly");
    assert("/bin/tcsh"@.len() == 9);
    assert("/sbin/nologin"@.len() == 13);
    assert("/usr/local/sbin/ssh_tunnel_shell"@.len() == 32);
    assert("/usr/local/sbin/scponlyc"@.len() == 24);
    assert("/usr/local/bin/scponly"@.len() == 22);
}

/// Names of users are made of letters, digits and three signs, and do not begin with a
/// dash: exactly these are accepted, and to the shell they are words as they stand.
pub proof fn names_are_words(name: Seq<char>)
    requires
        name.len() > 0,
    ensures
        username_failure(name) is None <==> name[0] != '-' && forall|i: int|
            0 <= i < name.len() ==> (('a' <= #[trigger] name[i] <= 'z') || ('A' <= name[i] <= 'Z')
                || ('0' <= name[i] <= '9') || name[i] == '_' || name[i] == '-' || name[i] == '.'),
        username_failure(name) is None ==> words(name) == Some(seq![name]),
{
    if username_failure(name) is None {
        assert forall|i: int| 0 <= i < name.len() implies (('a' <= #[trigger] name[i] <= 'z') || (
        'A' <= name[i] <= 'Z') || ('0' <= name[i] <= '9') || name[i] == '_' || name[i] == '-'
            || name[i] == '.') by {
            assert(is_username_char(name[i]));
        }
        assert forall|i: int| 0 <= i < name.len() implies is_plain(#[trigger] name[i]) by {
        }
        lemma_plain_word(name, Seq::empty());
    }
    if name[0] != '-' && forall|i: int|
        0 <= i < name.len() ==> (('a' <= #[trigger] name[i] <= 'z') || ('A' <= name[i] <= 'Z') || (
        '0' <= name[i] <= '9') || name[i] == '_' || name[i] == '-' || name[i] == '.') {
        assert forall|i: int| 0 <= i < name.len() implies is_username_char(#[trigger] name[i]) by {
        }
    }
}

/// A user that is added gets an account of the same name, uid and description, with
/// the login shell of its privileges; and, where keys were given, these keys.
pub proof fn added_users_get_accounts<'a>(xml: Seq<char>, req: AddUserReq<'a>, hash: Seq<char>)
    requires
        add_outcome(xml, req, hash) is Ok,
    ensures
        ({
            let outline = add_outcome(xml, req, hash)->Ok_0;
            let uid = next_uid_of(parsed(xml)->Ok_0)->Ok_0;
            let privileges = req.priv_list@.map_values(|s: String| s@);
            let orders = outline.commands;
            &&& orders.len() == if req.authorized_keys@.len() == 0 {
                1nat
            } else {
                2
            }
            &&& orders[0] matches Order::Required(line) && words(line) == Some(
                seq![
                    "/usr/sbin/pw"@,
                    "useradd"@,
                    "-n"@,
                    req.name@,
                    "-u"@,
                    decimal(uid as nat),
                    "-m"@,
                    "-s"@,
                    shell_for(privileges),
                    "-c"@,
                    req.descr@,
                    "-G"@,
                    Seq::empty(),
                ],
            )
            &&& req.authorized_keys@.len() > 0 ==> orders[1] == Order::Keys(
                keys_line(req.name@),
                req.authorized_keys@,
            )
        }),
{
    let uid = next_uid_of(parsed(xml)->Ok_0)->Ok_0;
    assert(texts(req.priv_list@) =~= req.priv_list@.map_values(|s: String| s@));
    accounts_are_created(
        req.name@,
        uid,
        shell_for(texts(req.priv_list@)),
        req.descr@,
    );
}

/// A user that is changed gets the login shell of the privileges that it has then;
/// the keys that were given, where any were; and is locked or unlocked, where that was
/// asked for.
pub proof fn changed_users_keep_their_accounts<'a>(xml: Seq<char>, req: UpdateUserReq<'a>)
    requires
        update_outcome(xml, req) is Ok,
    ensures
        ({
            let orders = update_outcome(xml, req)->Ok_0.commands;
            let old = user_named(parsed(xml)->Ok_0, req.name@)->0;
            let privileges = match req.priv_list {
                Some(p) => p@.map_values(|s: String| s@),
                None => old.priv_list,
            };
            let k: int = if req.authorized_keys is Some {
                1
            } else {
                0
            };
            &&& orders.len() == 1 + k + if req.disabled is Some {
                1int
            } else {
                0
            }
            &&& orders[0] matches Order::Required(line) && words(line) == Some(
                seq!["/usr/sbin/pw"@, "usermod"@, "-n"@, old.name, "-s"@, shell_for(privileges)],
            )
            &&& req.authorized_keys matches Some(keys) ==> orders[1] == Order::Keys(
                keys_line(old.name),
                keys@,
            )
            &&& req.disabled matches Some(d) ==> orders[1 + k] matches Order::Ignored(line)
                && words(line) == Some(
                seq![
                    "/usr/sbin/pw"@,
                    if d {
                        "lock"@
                    } else {
                        "unlock"@
                    },
                    "-n"@,
                    old.name,
                ],
            )
        }),
{
    let old = user_named(parsed(xml)->Ok_0, req.name@)->0;
    let row = updated_row(old, req);
    if let Some(p) = req.priv_list {
        assert(texts(p@) =~= p@.map_values(|s: String| s@));
    }
    shells_are_set(old.name, shell_for(row.priv_list));
    if let Some(d) = req.disabled {
        accounts_are_locked(old.name, d);
    }
}

/// A user that is deleted loses its account, and whether it had one makes no
/// difference.
pub proof fn deleted_users_lose_their_accounts(xml: Seq<char>, name: Seq<char>)
    requires
        delete_outcome(xml, name) is Ok,
    ensures
        ({
            let orders = delete_outcome(xml, name)->Ok_0.commands;
            &&& orders.len() == 1
            &&& orders[0] matches Order::Ignored(line) && words(line) == Some(
                seq!["/usr/sbin/pw"@, "userdel"@, "-n"@, name, "-r"@],
            )
        }),
{
    accounts_are_removed(name);
}

/// A command that says nothing has succeeded. One that complains has failed with its
/// complaint, unless its failure does not matter.
pub proof fn complaints_are_failures(line: Seq<char>, keys: Seq<char>, stderr: Seq<char>)
    ensures
        trimmed(stderr).len() == 0 ==> order_outcome(Order::Required(line), stderr) is None
            && order_outcome(Order::Keys(line, keys), stderr) is None,
        trimmed(stderr).len() > 0 ==> order_outcome(Order::Required(line), stderr) == Some(
            Failure::CommandReported(line, trimmed(stderr)),
        ) && order_outcome(Order::Keys(line, keys), stderr) == Some(
            Failure::KeysReported(trimmed(stderr)),
        ),
        order_outcome(Order::Ignored(line), stderr) is None,
{
}

/// A user has access to a shell, as it is shown, exactly where its account has one.
pub proof fn shown_shells_are_had(list: Seq<Seq<char>>)
    ensures
        grants_shell(list) <==> shell_for(list) == "/bin/tcsh"@,
{
    shells_go_with_privileges(list, list);
}


} // verus!
