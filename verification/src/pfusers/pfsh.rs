//! Driving `pfSsh.php`: the scripts it is handed, and the reading of what it
//! prints.
//!
//! The shell evaluates a script without reporting errors in its exit status, so
//! a script marks its result and its error in the output.

use crate::base64::{base64_encode, encoded};
use crate::text::{
    chars_of, concat2, concat3, contains_seq, ends_in, find_chars, first_line, flat_map, index_of,
    lemma_flat_map_first, lemma_flat_map_step, lemma_index_from, lemma_index_of, lines_are_split,
    stands_at, string_of, take_first_line, texts, trim, trimmed,
};
use vstd::prelude::*;
use vstd::string::*;
use vstd::utf8::*;

verus! {

/// Marks the result of a script.
pub const OK_SENTINEL: &'static str = "<<<PFUSERS-OK-7e3f1a>>>";

/// Marks the error message of a script.
pub const ERR_SENTINEL: &'static str = "<<<PFUSERS-ERR-7e3f1a>>>";

// ---------- Literals ----------

/// What stands in a double-quoted PHP literal for `c`.
pub open spec fn php_char(c: char) -> Seq<char> {
    if c == '\\' {
        "\\\\"@
    } else if c == '"' {
        "\\\""@
    } else if c == '$' {
        "\\$"@
    } else if c == '\n' {
        "\\n"@
    } else if c == '\r' {
        "\\r"@
    } else if c == '\t' {
        "\\t"@
    } else {
        seq![c]
    }
}

/// `s` as a double-quoted PHP literal.
pub open spec fn php_literal(s: Seq<char>) -> Seq<char> {
    seq!['"'] + flat_map(s, |c: char| php_char(c)) + seq!['"']
}

/// Quotes a string as a PHP literal.
pub fn php_string(s: &str) -> (out: String)
    ensures
        out@ == php_literal(s@),
{
    let chars = chars_of(s);
    let ghost f = |c: char| php_char(c);
    let mut out = String::new();
    out.push('"');
    assert(out@ =~= seq!['"'] + flat_map(s@.take(0), f));
    for i in 0..chars.len()
        invariant
            chars@ == s@,
            f == (|c: char| php_char(c)),
            out@ == seq!['"'] + flat_map(s@.take(i as int), f),
    {
        proof {
            lemma_flat_map_step(s@, f, i as int);
        }
        let c = chars[i];
        if c == '\\' {
            out.append("\\\\");
        } else if c == '"' {
            out.append("\\\"");
        } else if c == '$' {
            out.append("\\$");
        } else if c == '\n' {
            out.append("\\n");
        } else if c == '\r' {
            out.append("\\r");
        } else if c == '\t' {
            out.append("\\t");
        } else {
            out.push(c);
        }
        assert(out@ =~= seq!['"'] + flat_map(s@.take(i + 1), f));
    }
    assert(s@.take(s@.len() as int) =~= s@);
    out.push('"');
    assert(out@ =~= php_literal(s@));
    out
}

/// The character that PHP makes of a backslash and `c`.
pub open spec fn php_escape(c: char) -> Option<char> {
    if c == '\\' || c == '"' || c == '$' {
        Some(c)
    } else if c == 'n' {
        Some('\n')
    } else if c == 'r' {
        Some('\r')
    } else if c == 't' {
        Some('\t')
    } else {
        None
    }
}

/// The value of the rest `s` of a double-quoted literal, up to its closing quote
/// at the end of `s`; `None` where `s` holds a variable, or an escape other than
/// the six.
pub open spec fn php_value(s: Seq<char>) -> Option<Seq<char>>
    decreases s.len(),
{
    if s.len() == 0 || s[0] == '$' {
        None
    } else if s[0] == '"' {
        if s.len() == 1 {
            Some(Seq::empty())
        } else {
            None
        }
    } else if s[0] == '\\' {
        if s.len() < 2 || php_escape(s[1]) is None {
            None
        } else {
            match php_value(s.skip(2)) {
                Some(rest) => Some(seq![php_escape(s[1])->0] + rest),
                None => None,
            }
        }
    } else {
        match php_value(s.drop_first()) {
            Some(rest) => Some(seq![s[0]] + rest),
            None => None,
        }
    }
}

proof fn lemma_php_value(s: Seq<char>)
    ensures
        php_value(flat_map(s, |c: char| php_char(c)) + seq!['"']) == Some(s),
    decreases s.len(),
{
    let f = |c: char| php_char(c);
    let end = seq!['"'];
    if s.len() == 0 {
        assert(flat_map(s, f) + end =~= end);
        assert(s =~= Seq::<char>::empty());
    } else {
        let c = s[0];
        let rest = s.drop_first();
        lemma_flat_map_first(s, f);
        lemma_php_value(rest);
        reveal_strlit("\\\\");
        reveal_strlit("\\\"");
        reveal_strlit("\\$");
        reveal_strlit("\\n");
        reveal_strlit("\\r");
        reveal_strlit("\\t");
        let tail = flat_map(rest, f) + end;
        let all = flat_map(s, f) + end;
        assert(all =~= php_char(c) + tail);
        assert(seq![c] + rest =~= s);
        if php_char(c).len() == 2 {
            assert(all.skip(2) =~= tail);
        } else {
            assert(all.drop_first() =~= tail);
        }
    }
}

/// PHP reads a quoted string as the string.
pub proof fn php_string_round_trip(s: Seq<char>)
    ensures
        php_literal(s)[0] == '"',
        php_value(php_literal(s).drop_first()) == Some(s),
{
    lemma_php_value(s);
    assert(php_literal(s).drop_first() =~= flat_map(s, |c: char| php_char(c)) + seq!['"']);
}

/// Literals with commas between them.
pub open spec fn php_items(items: Seq<Seq<char>>) -> Seq<char>
    decreases items.len(),
{
    if items.len() == 0 {
        Seq::empty()
    } else if items.len() == 1 {
        php_literal(items[0])
    } else {
        php_items(items.drop_last()) + ", "@ + php_literal(items.last())
    }
}

/// An array of string literals.
pub open spec fn php_array(items: Seq<Seq<char>>) -> Seq<char> {
    "["@ + php_items(items) + "]"@
}

/// Writes strings as a PHP array.
pub fn php_string_array(items: &[String]) -> (out: String)
    ensures
        out@ == php_array(texts(items@)),
{
    let ghost all = texts(items@);
    let mut body = String::new();
    for i in 0..items.len()
        invariant
            all == texts(items@),
            body@ == php_items(all.take(i as int)),
    {
        let ghost next = all.take(i + 1);
        assert(next.drop_last() =~= all.take(i as int));
        if i > 0 {
            body.append(", ");
        }
        let item = php_string(items[i].as_str());
        let ghost so_far = body@;
        body.append(item.as_str());
        assert(next.last() == items@[i as int]@);
        assert(i == 0 ==> so_far + item@ =~= item@);
    }
    assert(all.take(all.len() as int) =~= all);
    concat3("[", body.as_str(), "]")
}

// ---------- Scripts ----------

/// The command that runs a script.
pub open spec fn wrapped(body: Seq<char>) -> Seq<char> {
    "/usr/local/sbin/pfSsh.php <<'EOF'\nrequire_once(\"auth.inc\"); global $config, $userindex, $groupindex;\ntry {\n"@ + body + "\n} catch (Throwable $e) {\n  fwrite(STDERR, \"<<<PFUSERS-ERR-7e3f1a>>>\".$e->getMessage().\"\\n\");\n  exit(1);\n}\nexec\nexit\nEOF\n"@
}

/// Builds the command that runs `body` in `pfSsh.php`, with its errors marked.
pub fn wrap_for_pfsh(body: &str) -> (out: String)
    ensures
        out@ == wrapped(body@),
{
    let mut out = "/usr/local/sbin/pfSsh.php <<'EOF'\nrequire_once(\"auth.inc\"); global $config, $userindex, $groupindex;\ntry {\n".to_owned();
    out.append(body);
    out.append("\n} catch (Throwable $e) {\n  fwrite(STDERR, \"<<<PFUSERS-ERR-7e3f1a>>>\".$e->getMessage().\"\\n\");\n  exit(1);\n}\nexec\nexit\nEOF\n");
    out
}

/// The script that lists the users.
pub fn list_users_php() -> (out: String)
    ensures
        out@ == "$out = [];\nforeach ($config[\"system\"][\"user\"] as $u) {\n  $out[] = [\n    \"name\"  => $u[\"name\"],\n    \"descr\" => $u[\"descr\"] ?? \"\",\n    \"uid\"   => (int)$u[\"uid\"],\n    \"scope\" => $u[\"scope\"] ?? \"user\",\n    \"expires\" => $u[\"expires\"] ?? null,\n    \"disabled\" => isset($u[\"disabled\"]),\n    \"groups\" => function_exists(\"local_user_get_groups\") ? local_user_get_groups($u, true) : [],\n    \"priv_list\" => $u[\"priv\"] ?? [],\n    \"authorized_keys\" => isset($u[\"authorizedkeys\"]) ? base64_decode($u[\"authorizedkeys\"]) : \"\",\n    \"has_bcrypt\" => !empty($u[\"bcrypt-hash\"]),\n    \"has_sha512\" => !empty($u[\"sha512-hash\"]),\n    \"has_legacy_md5\" => !empty($u[\"md5-hash\"]),\n  ];\n}\necho \"<<<PFUSERS-OK-7e3f1a>>>\".json_encode($out).\"\\n\";"@,
{
    "$out = [];\nforeach ($config[\"system\"][\"user\"] as $u) {\n  $out[] = [\n    \"name\"  => $u[\"name\"],\n    \"descr\" => $u[\"descr\"] ?? \"\",\n    \"uid\"   => (int)$u[\"uid\"],\n    \"scope\" => $u[\"scope\"] ?? \"user\",\n    \"expires\" => $u[\"expires\"] ?? null,\n    \"disabled\" => isset($u[\"disabled\"]),\n    \"groups\" => function_exists(\"local_user_get_groups\") ? local_user_get_groups($u, true) : [],\n    \"priv_list\" => $u[\"priv\"] ?? [],\n    \"authorized_keys\" => isset($u[\"authorizedkeys\"]) ? base64_decode($u[\"authorizedkeys\"]) : \"\",\n    \"has_bcrypt\" => !empty($u[\"bcrypt-hash\"]),\n    \"has_sha512\" => !empty($u[\"sha512-hash\"]),\n    \"has_legacy_md5\" => !empty($u[\"md5-hash\"]),\n  ];\n}\necho \"<<<PFUSERS-OK-7e3f1a>>>\".json_encode($out).\"\\n\";".to_owned()
}

/// The script that creates a user; `keys` are its keys in base64.
pub open spec fn add_user_script(
    name: Seq<char>,
    descr: Seq<char>,
    password: Seq<char>,
    priv_list: Seq<Seq<char>>,
    groups: Seq<Seq<char>>,
    keys: Seq<char>,
) -> Seq<char> {
    "$nextuid = (int)config_get_path('system/nextuid');\n$user = [\n  \"scope\" => \"user\",\n  \"name\" => "@ + php_literal(name) + ",\n  \"descr\" => "@ + php_literal(descr) + ",\n  \"uid\" => (string)$nextuid,\n  \"expires\" => \"\",\n  \"dashboardcolumns\" => \"2\",\n  \"authorizedkeys\" => "@ + php_literal(keys) + ",\n  \"ipsecpsk\" => \"\",\n  \"webguicss\" => \"pfSense.css\",\n  \"priv\" => "@ + php_array(priv_list) + ",\n];\n$wrap = [\"item\" => &$user];\nlocal_user_set_password($wrap, "@ + php_literal(password) + ");\nconfig_set_path('system/nextuid', $nextuid + 1);\n$users = config_get_path('system/user', []);\n$users[] = $user;\nconfig_set_path('system/user', $users);\n$groups = config_get_path('system/group', []);\nforeach ($groups as &$g) { if ($g['name'] == 'all') { $g['member'][] = $user['uid']; break; } }\nunset($g);\nconfig_set_path('system/group', $groups);\nlocal_user_set_groups($user, "@ + php_array(groups) + ");\nlocal_user_set($user);\n$userindex = index_users();\nwrite_config(\"pfUsers: created user \" . "@ + php_literal(name) + ");\necho \"<<<PFUSERS-OK-7e3f1a>>>{}\\n\";"@
}

/// Builds the script that creates a user.
pub fn add_user_body(
    name: &str,
    descr: &str,
    password: &str,
    priv_list: &[String],
    extra_groups: &[String],
    authorized_keys: &str,
) -> (out: String)
    ensures
        out@ == add_user_script(
            name@,
            descr@,
            password@,
            texts(priv_list@),
            texts(extra_groups@),
            encoded(encode_utf8(authorized_keys@)),
        ),
{
    let name_lit = php_string(name);
    let descr_lit = php_string(descr);
    let password_lit = php_string(password);
    let priv_arr = php_string_array(priv_list);
    let groups_arr = php_string_array(extra_groups);
    let keys_b64 = base64_encode(authorized_keys.as_bytes());
    let keys_lit = php_string(keys_b64.as_str());
    let mut out = "$nextuid = (int)config_get_path('system/nextuid');\n$user = [\n  \"scope\" => \"user\",\n  \"name\" => ".to_owned();
    out.append(name_lit.as_str());
    out.append(",\n  \"descr\" => ");
    out.append(descr_lit.as_str());
    out.append(",\n  \"uid\" => (string)$nextuid,\n  \"expires\" => \"\",\n  \"dashboardcolumns\" => \"2\",\n  \"authorizedkeys\" => ");
    out.append(keys_lit.as_str());
    out.append(",\n  \"ipsecpsk\" => \"\",\n  \"webguicss\" => \"pfSense.css\",\n  \"priv\" => ");
    out.append(priv_arr.as_str());
    out.append(",\n];\n$wrap = [\"item\" => &$user];\nlocal_user_set_password($wrap, ");
    out.append(password_lit.as_str());
    out.append(");\nconfig_set_path('system/nextuid', $nextuid + 1);\n$users = config_get_path('system/user', []);\n$users[] = $user;\nconfig_set_path('system/user', $users);\n$groups = config_get_path('system/group', []);\nforeach ($groups as &$g) { if ($g['name'] == 'all') { $g['member'][] = $user['uid']; break; } }\nunset($g);\nconfig_set_path('system/group', $groups);\nlocal_user_set_groups($user, ");
    out.append(groups_arr.as_str());
    out.append(");\nlocal_user_set($user);\n$userindex = index_users();\nwrite_config(\"pfUsers: created user \" . ");
    out.append(name_lit.as_str());
    out.append(");\necho \"<<<PFUSERS-OK-7e3f1a>>>{}\\n\";");
    out
}

/// The script that deletes a user.
pub open spec fn delete_user_script(name: Seq<char>) -> Seq<char> {
    "$idx = null;\nforeach (config_get_path('system/user', []) as $i => $u) {\n  if ($u['name'] === "@ + php_literal(name) + ") { $idx = $i; break; }\n}\nif ($idx === null) throw new Exception(\"user not found: \" . "@ + php_literal(name) + ");\n$u = config_get_path(\"system/user/{$idx}\");\nif ((int)$u['uid'] === 0) throw new Exception(\"refusing to delete uid 0\");\nlocal_user_del($u);\nconfig_del_path(\"system/user/{$idx}\");\n$users = array_values(config_get_path('system/user', []));\nconfig_set_path('system/user', $users);\nwrite_config(\"pfUsers: deleted user \" . "@ + php_literal(name) + ");\necho \"<<<PFUSERS-OK-7e3f1a>>>{}\\n\";"@
}

/// Builds the script that deletes a user.
pub fn delete_user_body(name: &str) -> (out: String)
    ensures
        out@ == delete_user_script(name@),
{
    let name_lit = php_string(name);
    let mut out = "$idx = null;\nforeach (config_get_path('system/user', []) as $i => $u) {\n  if ($u['name'] === ".to_owned();
    out.append(name_lit.as_str());
    out.append(") { $idx = $i; break; }\n}\nif ($idx === null) throw new Exception(\"user not found: \" . ");
    out.append(name_lit.as_str());
    out.append(");\n$u = config_get_path(\"system/user/{$idx}\");\nif ((int)$u['uid'] === 0) throw new Exception(\"refusing to delete uid 0\");\nlocal_user_del($u);\nconfig_del_path(\"system/user/{$idx}\");\n$users = array_values(config_get_path('system/user', []));\nconfig_set_path('system/user', $users);\nwrite_config(\"pfUsers: deleted user \" . ");
    out.append(name_lit.as_str());
    out.append(");\necho \"<<<PFUSERS-OK-7e3f1a>>>{}\\n\";");
    out
}

/// The line that sets or clears the mark of a disabled user, which is the
/// presence of a key.
pub open spec fn disabled_line(disabled: bool) -> Seq<char> {
    if disabled {
        "$u['disabled'] = \"\";"@
    } else {
        "unset($u['disabled']);"@
    }
}

/// The script that changes a user.
pub open spec fn update_user_script(
    name: Seq<char>,
    descr: Seq<char>,
    priv_list: Seq<Seq<char>>,
    groups: Seq<Seq<char>>,
    keys: Seq<char>,
    disabled: bool,
) -> Seq<char> {
    "$idx = null;\nforeach (config_get_path('system/user', []) as $i => $row) {\n  if ($row['name'] === "@ + php_literal(name) + ") { $idx = $i; break; }\n}\nif ($idx === null) throw new Exception(\"user not found: \" . "@ + php_literal(name) + ");\n$u = config_get_path(\"system/user/{$idx}\");\n$u['descr'] = "@ + php_literal(descr) + ";\n$u['priv'] = "@ + php_array(priv_list) + ";\n$u['authorizedkeys'] = "@ + php_literal(keys) + ";\n"@ + disabled_line(disabled) + "\nconfig_set_path(\"system/user/{$idx}\", $u);\nlocal_user_set_groups($u, "@ + php_array(groups) + ");\nlocal_user_set($u);\nwrite_config(\"pfUsers: updated user \" . "@ + php_literal(name) + ");\necho \"<<<PFUSERS-OK-7e3f1a>>>{}\\n\";"@
}

/// Builds the script that changes a user.
pub fn update_user_body(
    name: &str,
    descr: &str,
    priv_list: &[String],
    groups: &[String],
    authorized_keys: &str,
    disabled: bool,
) -> (out: String)
    ensures
        out@ == update_user_script(
            name@,
            descr@,
            texts(priv_list@),
            texts(groups@),
            encoded(encode_utf8(authorized_keys@)),
            disabled,
        ),
{
    let name_lit = php_string(name);
    let descr_lit = php_string(descr);
    let priv_arr = php_string_array(priv_list);
    let groups_arr = php_string_array(groups);
    let keys_b64 = base64_encode(authorized_keys.as_bytes());
    let keys_lit = php_string(keys_b64.as_str());
    let disabled_kv: &str = if disabled {
        "$u['disabled'] = \"\";"
    } else {
        "unset($u['disabled']);"
    };
    let mut out = "$idx = null;\nforeach (config_get_path('system/user', []) as $i => $row) {\n  if ($row['name'] === ".to_owned();
    out.append(name_lit.as_str());
    out.append(") { $idx = $i; break; }\n}\nif ($idx === null) throw new Exception(\"user not found: \" . ");
    out.append(name_lit.as_str());
    out.append(");\n$u = config_get_path(\"system/user/{$idx}\");\n$u['descr'] = ");
    out.append(descr_lit.as_str());
    out.append(";\n$u['priv'] = ");
    out.append(priv_arr.as_str());
    out.append(";\n$u['authorizedkeys'] = ");
    out.append(keys_lit.as_str());
    out.append(";\n");
    out.append(disabled_kv);
    out.append("\nconfig_set_path(\"system/user/{$idx}\", $u);\nlocal_user_set_groups($u, ");
    out.append(groups_arr.as_str());
    out.append(");\nlocal_user_set($u);\nwrite_config(\"pfUsers: updated user \" . ");
    out.append(name_lit.as_str());
    out.append(");\necho \"<<<PFUSERS-OK-7e3f1a>>>{}\\n\";");
    out
}

/// The script that sets a password.
pub open spec fn set_password_script(name: Seq<char>, password: Seq<char>) -> Seq<char> {
    "$idx = null;\nforeach (config_get_path('system/user', []) as $i => $row) {\n  if ($row['name'] === "@ + php_literal(name) + ") { $idx = $i; break; }\n}\nif ($idx === null) throw new Exception(\"user not found: \" . "@ + php_literal(name) + ");\n$u = config_get_path(\"system/user/{$idx}\");\n$wrap = [\"item\" => &$u, \"idx\" => $idx];\nlocal_user_set_password($wrap, "@ + php_literal(password) + ");\nconfig_set_path(\"system/user/{$idx}\", $u);\nlocal_user_set($u);\nwrite_config(\"pfUsers: password reset for \" . "@ + php_literal(name) + ");\necho \"<<<PFUSERS-OK-7e3f1a>>>{}\\n\";"@
}

/// Builds the script that sets a password.
pub fn set_password_body(name: &str, password: &str) -> (out: String)
    ensures
        out@ == set_password_script(name@, password@),
{
    let name_lit = php_string(name);
    let password_lit = php_string(password);
    let mut out = "$idx = null;\nforeach (config_get_path('system/user', []) as $i => $row) {\n  if ($row['name'] === ".to_owned();
    out.append(name_lit.as_str());
    out.append(") { $idx = $i; break; }\n}\nif ($idx === null) throw new Exception(\"user not found: \" . ");
    out.append(name_lit.as_str());
    out.append(");\n$u = config_get_path(\"system/user/{$idx}\");\n$wrap = [\"item\" => &$u, \"idx\" => $idx];\nlocal_user_set_password($wrap, ");
    out.append(password_lit.as_str());
    out.append(");\nconfig_set_path(\"system/user/{$idx}\", $u);\nlocal_user_set($u);\nwrite_config(\"pfUsers: password reset for \" . ");
    out.append(name_lit.as_str());
    out.append(");\necho \"<<<PFUSERS-OK-7e3f1a>>>{}\\n\";");
    out
}

// ---------- Results ----------

/// How a script failed, as text.
pub enum ScriptFailure {
    Reported(Seq<char>),
    NoResult(Seq<char>),
}

/// How a script failed.
#[derive(Debug, PartialEq, Eq)]
pub enum ScriptError {
    /// The script marked an error.
    Reported(String),
    /// Nothing was marked; what stood on the error stream.
    NoResult(String),
}

impl View for ScriptError {
    type V = ScriptFailure;

    open spec fn view(&self) -> ScriptFailure {
        match *self {
            ScriptError::Reported(s) => ScriptFailure::Reported(s@),
            ScriptError::NoResult(s) => ScriptFailure::NoResult(s@),
        }
    }
}

/// What follows the first `mark` in `s`.
pub open spec fn behind_mark(s: Seq<char>, mark: Seq<char>) -> Option<Seq<char>> {
    match index_of(s, mark) {
        Some(i) => Some(s.skip(i + mark.len())),
        None => None,
    }
}

/// The result of a script: an error that is marked on either stream, else the
/// rest of the line behind the mark of a result.
pub open spec fn script_outcome(stdout: Seq<char>, stderr: Seq<char>) -> Result<
    Seq<char>,
    ScriptFailure,
> {
    match behind_mark(stdout, ERR_SENTINEL@) {
        Some(rest) => Err(ScriptFailure::Reported(trimmed(first_line(rest)))),
        None => match behind_mark(stderr, ERR_SENTINEL@) {
            Some(rest) => Err(ScriptFailure::Reported(trimmed(first_line(rest)))),
            None => match behind_mark(stdout, OK_SENTINEL@) {
                Some(rest) => Ok(first_line(rest)),
                None => Err(ScriptFailure::NoResult(trimmed(stderr))),
            },
        },
    }
}

fn after_mark(s: &str, mark: &str) -> (res: Option<String>)
    ensures
        match (res, behind_mark(s@, mark@)) {
            (Some(out), Some(rest)) => out@ == rest,
            (None, None) => true,
            _ => false,
        },
{
    let chars = chars_of(s);
    let pat = chars_of(mark);
    match find_chars(&chars, &pat, 0) {
        Some(i) => {
            let out = string_of(&chars[i + pat.len()..chars.len()]);
            assert(out@ =~= s@.skip(i + mark@.len()));
            Some(out)
        },
        None => None,
    }
}

/// Reads the result of a script off its output.
pub fn script_result(stdout: &str, stderr: &str) -> (res: Result<String, ScriptError>)
    ensures
        match (res, script_outcome(stdout@, stderr@)) {
            (Ok(s), Ok(t)) => s@ == t,
            (Err(e), Err(f)) => e@ == f,
            _ => false,
        },
{
    if let Some(rest) = after_mark(stdout, ERR_SENTINEL) {
        let line = take_first_line(rest.as_str());
        return Err(ScriptError::Reported(trim(line.as_str())));
    }
    if let Some(rest) = after_mark(stderr, ERR_SENTINEL) {
        let line = take_first_line(rest.as_str());
        return Err(ScriptError::Reported(trim(line.as_str())));
    }
    match after_mark(stdout, OK_SENTINEL) {
        Some(rest) => Ok(take_first_line(rest.as_str())),
        None => Err(ScriptError::NoResult(trim(stderr))),
    }
}

/// The message of a script failure.
pub open spec fn script_failure_text(f: ScriptFailure) -> Seq<char> {
    match f {
        ScriptFailure::Reported(s) => "pfSsh.php error: "@ + s,
        ScriptFailure::NoResult(s) => if s.len() == 0 {
            "pfSsh.php produced no OK sentinel"@
        } else {
            "pfSsh.php produced no OK sentinel (stderr: "@ + s + ")"@
        },
    }
}

impl ScriptError {
    /// The message of the error.
    pub fn message(&self) -> (out: String)
        ensures
            out@ == script_failure_text(self@),
    {
        match self {
            ScriptError::Reported(s) => concat2("pfSsh.php error: ", s.as_str()),
            ScriptError::NoResult(s) => {
                if s.as_str().is_empty() {
                    "pfSsh.php produced no OK sentinel".to_owned()
                } else {
                    concat3("pfSsh.php produced no OK sentinel (stderr: ", s.as_str(), ")")
                }
            },
        }
    }
}

/// `s` cut to `max` bytes, with an ellipsis where anything was cut off.
pub open spec fn cut(s: Seq<char>, max: int) -> Seq<char> {
    if encode_utf8(s).len() <= max {
        s
    } else {
        decode_utf8(encode_utf8(s).subrange(0, max)) + "…"@
    }
}

/// Cuts `s` to `max` bytes, with an ellipsis where anything was cut off.
pub fn truncate(s: &str, max: usize) -> (out: String)
    requires
        max < encode_utf8(s@).len() ==> is_char_boundary(encode_utf8(s@), max as int),
    ensures
        out@ == cut(s@, max as int),
{
    if s.as_bytes().len() <= max {
        return s.to_owned();
    }
    let (head, _) = s.split_at(max);
    proof {
        encode_utf8_decode_utf8(head@);
    }
    concat2(head, "…")
}

// ---------- Laws ----------

/// A script has succeeded exactly where its result is marked and no error is, on
/// either stream.
pub proof fn marks_decide(stdout: Seq<char>, stderr: Seq<char>)
    ensures
        script_outcome(stdout, stderr) is Ok <==> contains_seq(stdout, "<<<PFUSERS-OK-7e3f1a>>>"@)
            && !contains_seq(stdout, "<<<PFUSERS-ERR-7e3f1a>>>"@) && !contains_seq(
            stderr,
            "<<<PFUSERS-ERR-7e3f1a>>>"@,
        ),
        script_outcome(stdout, stderr) matches Err(ScriptFailure::Reported(_)) <==> contains_seq(
            stdout,
            "<<<PFUSERS-ERR-7e3f1a>>>"@,
        ) || contains_seq(stderr, "<<<PFUSERS-ERR-7e3f1a>>>"@),
        script_outcome(stdout, stderr) matches Err(ScriptFailure::NoResult(text)) ==> text
            == trimmed(stderr),
{
    lemma_index_of(stdout, ERR_SENTINEL@);
    lemma_index_of(stderr, ERR_SENTINEL@);
    lemma_index_of(stdout, OK_SENTINEL@);
}

/// The result is what follows the mark on its line.
pub proof fn results_follow_their_mark(
    front: Seq<char>,
    result: Seq<char>,
    rest: Seq<char>,
    stderr: Seq<char>,
)
    requires
        !result.contains('\n'),
        result.len() > 0 ==> result.last() != '\r',
        ({
            let stdout = front + "<<<PFUSERS-OK-7e3f1a>>>"@ + result + seq!['\n'] + rest;
            &&& script_outcome(stdout, stderr) is Ok
            &&& forall|i: int|
                0 <= i < front.len() ==> !#[trigger] stands_at(
                    stdout,
                    "<<<PFUSERS-OK-7e3f1a>>>"@,
                    i,
                )
        }),
    ensures
        script_outcome(
            front + "<<<PFUSERS-OK-7e3f1a>>>"@ + result + seq!['\n'] + rest,
            stderr,
        ) == Ok::<Seq<char>, ScriptFailure>(result),
{
    let mark = "<<<PFUSERS-OK-7e3f1a>>>"@;
    let stdout = front + mark + result + seq!['\n'] + rest;
    lemma_index_from(stdout, mark, 0);
    assert(stdout.subrange(front.len() as int, (front + mark).len() as int) =~= mark);
    assert(stands_at(stdout, mark, front.len() as int));
    assert(stdout.skip((front + mark).len() as int) =~= result + seq!['\n'] + rest);
    lines_are_split(result, rest);
}


/// A place where `pat` stands is there in a longer text too.
proof fn lemma_more(s: Seq<char>, more: Seq<char>, pat: Seq<char>)
    requires
        contains_seq(s, pat),
    ensures
        contains_seq(s + more, pat),
{
    let i = choose|i: int| stands_at(s, pat, i);
    assert((s + more).subrange(i, i + pat.len()) =~= s.subrange(i, i + pat.len()));
    assert(stands_at(s + more, pat, i));
}

/// What follows a text that ends in `mark` stands behind `mark`.
proof fn lemma_marked(front: Seq<char>, text: Seq<char>, mark: Seq<char>, value: Seq<char>)
    requires
        ends_in(text, mark),
    ensures
        contains_seq(front + text + value, mark + value),
{
    let all = front + text + value;
    let at = front.len() + text.len() - mark.len();
    let pat = mark + value;
    assert(text.subrange(text.len() - mark.len(), text.len() as int) =~= mark);
    assert forall|i: int| 0 <= i < mark.len() implies all[at + i] == mark[i] by {
        assert(text.subrange(text.len() - mark.len(), text.len() as int)[i] == mark[i]);
    }
    assert(all.subrange(at, at + pat.len()) =~= pat);
    assert(stands_at(all, pat, at));
}

/// The script that creates a user gives it the name, the description, the keys, the
/// privileges, the password and the groups that were asked for, each in its place.
pub proof fn added_users_are_named(
    name: Seq<char>,
    descr: Seq<char>,
    password: Seq<char>,
    priv_list: Seq<Seq<char>>,
    groups: Seq<Seq<char>>,
    keys: Seq<char>,
)
    ensures
        contains_seq(add_user_script(name, descr, password, priv_list, groups, keys), "\"name\" => "@ + php_literal(name)),
        contains_seq(add_user_script(name, descr, password, priv_list, groups, keys), "\"descr\" => "@ + php_literal(descr)),
        contains_seq(add_user_script(name, descr, password, priv_list, groups, keys), "\"authorizedkeys\" => "@ + php_literal(keys)),
        contains_seq(add_user_script(name, descr, password, priv_list, groups, keys), "\"priv\" => "@ + php_array(priv_list)),
        contains_seq(add_user_script(name, descr, password, priv_list, groups, keys), "local_user_set_password($wrap, "@ + php_literal(password)),
        contains_seq(add_user_script(name, descr, password, priv_list, groups, keys), "local_user_set_groups($user, "@ + php_array(groups)),
{
    let e = Seq::<char>::empty();
    let s1 = e + "$nextuid = (int)config_get_path('system/nextuid');\n$user = [\n  \"scope\" => \"user\",\n  \"name\" => "@ + php_literal(name);
    assert(ends_in("$nextuid = (int)config_get_path('system/nextuid');\n$user = [\n  \"scope\" => \"user\",\n  \"name\" => "@, "\"name\" => "@)) by {
        reveal_strlit("$nextuid = (int)config_get_path('system/nextuid');\n$user = [\n  \"scope\" => \"user\",\n  \"name\" => ");
        reveal_strlit("\"name\" => ");
        let all = "$nextuid = (int)config_get_path('system/nextuid');\n$user = [\n  \"scope\" => \"user\",\n  \"name\" => "@;
        let mark = "\"name\" => "@;
        assert(all.subrange(all.len() - mark.len(), all.len() as int) =~= mark);
    }
    lemma_marked(e, "$nextuid = (int)config_get_path('system/nextuid');\n$user = [\n  \"scope\" => \"user\",\n  \"name\" => "@, "\"name\" => "@, php_literal(name));
    let s2 = s1 + ",\n  \"descr\" => "@ + php_literal(descr);
    lemma_more(s1, ",\n  \"descr\" => "@, "\"name\" => "@ + php_literal(name));
    lemma_more(s1 + ",\n  \"descr\" => "@, php_literal(descr), "\"name\" => "@ + php_literal(name));
    assert(ends_in(",\n  \"descr\" => "@, "\"descr\" => "@)) by {
        reveal_strlit(",\n  \"descr\" => ");
        reveal_strlit("\"descr\" => ");
        let all = ",\n  \"descr\" => "@;
        let mark = "\"descr\" => "@;
        assert(all.subrange(all.len() - mark.len(), all.len() as int) =~= mark);
    }
    lemma_marked(s1, ",\n  \"descr\" => "@, "\"descr\" => "@, php_literal(descr));
    let s3 = s2 + ",\n  \"uid\" => (string)$nextuid,\n  \"expires\" => \"\",\n  \"dashboardcolumns\" => \"2\",\n  \"authorizedkeys\" => "@ + php_literal(keys);
    lemma_more(s2, ",\n  \"uid\" => (string)$nextuid,\n  \"expires\" => \"\",\n  \"dashboardcolumns\" => \"2\",\n  \"authorizedkeys\" => "@, "\"name\" => "@ + php_literal(name));
    lemma_more(s2 + ",\n  \"uid\" => (string)$nextuid,\n  \"expires\" => \"\",\n  \"dashboardcolumns\" => \"2\",\n  \"authorizedkeys\" => "@, php_literal(keys), "\"name\" => "@ + php_literal(name));
    lemma_more(s2, ",\n  \"uid\" => (string)$nextuid,\n  \"expires\" => \"\",\n  \"dashboardcolumns\" => \"2\",\n  \"authorizedkeys\" => "@, "\"descr\" => "@ + php_literal(descr));
    lemma_more(s2 + ",\n  \"uid\" => (string)$nextuid,\n  \"expires\" => \"\",\n  \"dashboardcolumns\" => \"2\",\n  \"authorizedkeys\" => "@, php_literal(keys), "\"descr\" => "@ + php_literal(descr));
    assert(ends_in(",\n  \"uid\" => (string)$nextuid,\n  \"expires\" => \"\",\n  \"dashboardcolumns\" => \"2\",\n  \"authorizedkeys\" => "@, "\"authorizedkeys\" => "@)) by {
        reveal_strlit(",\n  \"uid\" => (string)$nextuid,\n  \"expires\" => \"\",\n  \"dashboardcolumns\" => \"2\",\n  \"authorizedkeys\" => ");
        reveal_strlit("\"authorizedkeys\" => ");
        let all = ",\n  \"uid\" => (string)$nextuid,\n  \"expires\" => \"\",\n  \"dashboardcolumns\" => \"2\",\n  \"authorizedkeys\" => "@;
        let mark = "\"authorizedkeys\" => "@;
        assert(all.subrange(all.len() - mark.len(), all.len() as int) =~= mark);
    }
    lemma_marked(s2, ",\n  \"uid\" => (string)$nextuid,\n  \"expires\" => \"\",\n  \"dashboardcolumns\" => \"2\",\n  \"authorizedkeys\" => "@, "\"authorizedkeys\" => "@, php_literal(keys));
    let s4 = s3 + ",\n  \"ipsecpsk\" => \"\",\n  \"webguicss\" => \"pfSense.css\",\n  \"priv\" => "@ + php_array(priv_list);
    lemma_more(s3, ",\n  \"ipsecpsk\" => \"\",\n  \"webguicss\" => \"pfSense.css\",\n  \"priv\" => "@, "\"name\" => "@ + php_literal(name));
    lemma_more(s3 + ",\n  \"ipsecpsk\" => \"\",\n  \"webguicss\" => \"pfSense.css\",\n  \"priv\" => "@, php_array(priv_list), "\"name\" => "@ + php_literal(name));
    lemma_more(s3, ",\n  \"ipsecpsk\" => \"\",\n  \"webguicss\" => \"pfSense.css\",\n  \"priv\" => "@, "\"descr\" => "@ + php_literal(descr));
    lemma_more(s3 + ",\n  \"ipsecpsk\" => \"\",\n  \"webguicss\" => \"pfSense.css\",\n  \"priv\" => "@, php_array(priv_list), "\"descr\" => "@ + php_literal(descr));
    lemma_more(s3, ",\n  \"ipsecpsk\" => \"\",\n  \"webguicss\" => \"pfSense.css\",\n  \"priv\" => "@, "\"authorizedkeys\" => "@ + php_literal(keys));
    lemma_more(s3 + ",\n  \"ipsecpsk\" => \"\",\n  \"webguicss\" => \"pfSense.css\",\n  \"priv\" => "@, php_array(priv_list), "\"authorizedkeys\" => "@ + php_literal(keys));
    assert(ends_in(",\n  \"ipsecpsk\" => \"\",\n  \"webguicss\" => \"pfSense.css\",\n  \"priv\" => "@, "\"priv\" => "@)) by {
        reveal_strlit(",\n  \"ipsecpsk\" => \"\",\n  \"webguicss\" => \"pfSense.css\",\n  \"priv\" => ");
        reveal_strlit("\"priv\" => ");
        let all = ",\n  \"ipsecpsk\" => \"\",\n  \"webguicss\" => \"pfSense.css\",\n  \"priv\" => "@;
        let mark = "\"priv\" => "@;
        assert(all.subrange(all.len() - mark.len(), all.len() as int) =~= mark);
    }
    lemma_marked(s3, ",\n  \"ipsecpsk\" => \"\",\n  \"webguicss\" => \"pfSense.css\",\n  \"priv\" => "@, "\"priv\" => "@, php_array(priv_list));
    let s5 = s4 + ",\n];\n$wrap = [\"item\" => &$user];\nlocal_user_set_password($wrap, "@ + php_literal(password);
    lemma_more(s4, ",\n];\n$wrap = [\"item\" => &$user];\nlocal_user_set_password($wrap, "@, "\"name\" => "@ + php_literal(name));
    lemma_more(s4 + ",\n];\n$wrap = [\"item\" => &$user];\nlocal_user_set_password($wrap, "@, php_literal(password), "\"name\" => "@ + php_literal(name));
    lemma_more(s4, ",\n];\n$wrap = [\"item\" => &$user];\nlocal_user_set_password($wrap, "@, "\"descr\" => "@ + php_literal(descr));
    lemma_more(s4 + ",\n];\n$wrap = [\"item\" => &$user];\nlocal_user_set_password($wrap, "@, php_literal(password), "\"descr\" => "@ + php_literal(descr));
    lemma_more(s4, ",\n];\n$wrap = [\"item\" => &$user];\nlocal_user_set_password($wrap, "@, "\"authorizedkeys\" => "@ + php_literal(keys));
    lemma_more(s4 + ",\n];\n$wrap = [\"item\" => &$user];\nlocal_user_set_password($wrap, "@, php_literal(password), "\"authorizedkeys\" => "@ + php_literal(keys));
    lemma_more(s4, ",\n];\n$wrap = [\"item\" => &$user];\nlocal_user_set_password($wrap, "@, "\"priv\" => "@ + php_array(priv_list));
    lemma_more(s4 + ",\n];\n$wrap = [\"item\" => &$user];\nlocal_user_set_password($wrap, "@, php_literal(password), "\"priv\" => "@ + php_array(priv_list));
    assert(ends_in(",\n];\n$wrap = [\"item\" => &$user];\nlocal_user_set_password($wrap, "@, "local_user_set_password($wrap, "@)) by {
        reveal_strlit(",\n];\n$wrap = [\"item\" => &$user];\nlocal_user_set_password($wrap, ");
        reveal_strlit("local_user_set_password($wrap, ");
        let all = ",\n];\n$wrap = [\"item\" => &$user];\nlocal_user_set_password($wrap, "@;
        let mark = "local_user_set_password($wrap, "@;
        assert(all.subrange(all.len() - mark.len(), all.len() as int) =~= mark);
    }
    lemma_marked(s4, ",\n];\n$wrap = [\"item\" => &$user];\nlocal_user_set_password($wrap, "@, "local_user_set_password($wrap, "@, php_literal(password));
    let s6 = s5 + ");\nconfig_set_path('system/nextuid', $nextuid + 1);\n$users = config_get_path('system/user', []);\n$users[] = $user;\nconfig_set_path('system/user', $users);\n$groups = config_get_path('system/group', []);\nforeach ($groups as &$g) { if ($g['name'] == 'all') { $g['member'][] = $user['uid']; break; } }\nunset($g);\nconfig_set_path('system/group', $groups);\nlocal_user_set_groups($user, "@ + php_array(groups);
    lemma_more(s5, ");\nconfig_set_path('system/nextuid', $nextuid + 1);\n$users = config_get_path('system/user', []);\n$users[] = $user;\nconfig_set_path('system/user', $users);\n$groups = config_get_path('system/group', []);\nforeach ($groups as &$g) { if ($g['name'] == 'all') { $g['member'][] = $user['uid']; break; } }\nunset($g);\nconfig_set_path('system/group', $groups);\nlocal_user_set_groups($user, "@, "\"name\" => "@ + php_literal(name));
    lemma_more(s5 + ");\nconfig_set_path('system/nextuid', $nextuid + 1);\n$users = config_get_path('system/user', []);\n$users[] = $user;\nconfig_set_path('system/user', $users);\n$groups = config_get_path('system/group', []);\nforeach ($groups as &$g) { if ($g['name'] == 'all') { $g['member'][] = $user['uid']; break; } }\nunset($g);\nconfig_set_path('system/group', $groups);\nlocal_user_set_groups($user, "@, php_array(groups), "\"name\" => "@ + php_literal(name));
    lemma_more(s5, ");\nconfig_set_path('system/nextuid', $nextuid + 1);\n$users = config_get_path('system/user', []);\n$users[] = $user;\nconfig_set_path('system/user', $users);\n$groups = config_get_path('system/group', []);\nforeach ($groups as &$g) { if ($g['name'] == 'all') { $g['member'][] = $user['uid']; break; } }\nunset($g);\nconfig_set_path('system/group', $groups);\nlocal_user_set_groups($user, "@, "\"descr\" => "@ + php_literal(descr));
    lemma_more(s5 + ");\nconfig_set_path('system/nextuid', $nextuid + 1);\n$users = config_get_path('system/user', []);\n$users[] = $user;\nconfig_set_path('system/user', $users);\n$groups = config_get_path('system/group', []);\nforeach ($groups as &$g) { if ($g['name'] == 'all') { $g['member'][] = $user['uid']; break; } }\nunset($g);\nconfig_set_path('system/group', $groups);\nlocal_user_set_groups($user, "@, php_array(groups), "\"descr\" => "@ + php_literal(descr));
    lemma_more(s5, ");\nconfig_set_path('system/nextuid', $nextuid + 1);\n$users = config_get_path('system/user', []);\n$users[] = $user;\nconfig_set_path('system/user', $users);\n$groups = config_get_path('system/group', []);\nforeach ($groups as &$g) { if ($g['name'] == 'all') { $g['member'][] = $user['uid']; break; } }\nunset($g);\nconfig_set_path('system/group', $groups);\nlocal_user_set_groups($user, "@, "\"authorizedkeys\" => "@ + php_literal(keys));
    lemma_more(s5 + ");\nconfig_set_path('system/nextuid', $nextuid + 1);\n$users = config_get_path('system/user', []);\n$users[] = $user;\nconfig_set_path('system/user', $users);\n$groups = config_get_path('system/group', []);\nforeach ($groups as &$g) { if ($g['name'] == 'all') { $g['member'][] = $user['uid']; break; } }\nunset($g);\nconfig_set_path('system/group', $groups);\nlocal_user_set_groups($user, "@, php_array(groups), "\"authorizedkeys\" => "@ + php_literal(keys));
    lemma_more(s5, ");\nconfig_set_path('system/nextuid', $nextuid + 1);\n$users = config_get_path('system/user', []);\n$users[] = $user;\nconfig_set_path('system/user', $users);\n$groups = config_get_path('system/group', []);\nforeach ($groups as &$g) { if ($g['name'] == 'all') { $g['member'][] = $user['uid']; break; } }\nunset($g);\nconfig_set_path('system/group', $groups);\nlocal_user_set_groups($user, "@, "\"priv\" => "@ + php_array(priv_list));
    lemma_more(s5 + ");\nconfig_set_path('system/nextuid', $nextuid + 1);\n$users = config_get_path('system/user', []);\n$users[] = $user;\nconfig_set_path('system/user', $users);\n$groups = config_get_path('system/group', []);\nforeach ($groups as &$g) { if ($g['name'] == 'all') { $g['member'][] = $user['uid']; break; } }\nunset($g);\nconfig_set_path('system/group', $groups);\nlocal_user_set_groups($user, "@, php_array(groups), "\"priv\" => "@ + php_array(priv_list));
    lemma_more(s5, ");\nconfig_set_path('system/nextuid', $nextuid + 1);\n$users = config_get_path('system/user', []);\n$users[] = $user;\nconfig_set_path('system/user', $users);\n$groups = config_get_path('system/group', []);\nforeach ($groups as &$g) { if ($g['name'] == 'all') { $g['member'][] = $user['uid']; break; } }\nunset($g);\nconfig_set_path('system/group', $groups);\nlocal_user_set_groups($user, "@, "local_user_set_password($wrap, "@ + php_literal(password));
    lemma_more(s5 + ");\nconfig_set_path('system/nextuid', $nextuid + 1);\n$users = config_get_path('system/user', []);\n$users[] = $user;\nconfig_set_path('system/user', $users);\n$groups = config_get_path('system/group', []);\nforeach ($groups as &$g) { if ($g['name'] == 'all') { $g['member'][] = $user['uid']; break; } }\nunset($g);\nconfig_set_path('system/group', $groups);\nlocal_user_set_groups($user, "@, php_array(groups), "local_user_set_password($wrap, "@ + php_literal(password));
    assert(ends_in(");\nconfig_set_path('system/nextuid', $nextuid + 1);\n$users = config_get_path('system/user', []);\n$users[] = $user;\nconfig_set_path('system/user', $users);\n$groups = config_get_path('system/group', []);\nforeach ($groups as &$g) { if ($g['name'] == 'all') { $g['member'][] = $user['uid']; break; } }\nunset($g);\nconfig_set_path('system/group', $groups);\nlocal_user_set_groups($user, "@, "local_user_set_groups($user, "@)) by {
        reveal_strlit(");\nconfig_set_path('system/nextuid', $nextuid + 1);\n$users = config_get_path('system/user', []);\n$users[] = $user;\nconfig_set_path('system/user', $users);\n$groups = config_get_path('system/group', []);\nforeach ($groups as &$g) { if ($g['name'] == 'all') { $g['member'][] = $user['uid']; break; } }\nunset($g);\nconfig_set_path('system/group', $groups);\nlocal_user_set_groups($user, ");
        reveal_strlit("local_user_set_groups($user, ");
        let all = ");\nconfig_set_path('system/nextuid', $nextuid + 1);\n$users = config_get_path('system/user', []);\n$users[] = $user;\nconfig_set_path('system/user', $users);\n$groups = config_get_path('system/group', []);\nforeach ($groups as &$g) { if ($g['name'] == 'all') { $g['member'][] = $user['uid']; break; } }\nunset($g);\nconfig_set_path('system/group', $groups);\nlocal_user_set_groups($user, "@;
        let mark = "local_user_set_groups($user, "@;
        assert(all.subrange(all.len() - mark.len(), all.len() as int) =~= mark);
    }
    lemma_marked(s5, ");\nconfig_set_path('system/nextuid', $nextuid + 1);\n$users = config_get_path('system/user', []);\n$users[] = $user;\nconfig_set_path('system/user', $users);\n$groups = config_get_path('system/group', []);\nforeach ($groups as &$g) { if ($g['name'] == 'all') { $g['member'][] = $user['uid']; break; } }\nunset($g);\nconfig_set_path('system/group', $groups);\nlocal_user_set_groups($user, "@, "local_user_set_groups($user, "@, php_array(groups));
    let s7 = s6 + ");\nlocal_user_set($user);\n$userindex = index_users();\nwrite_config(\"pfUsers: created user \" . "@ + php_literal(name);
    lemma_more(s6, ");\nlocal_user_set($user);\n$userindex = index_users();\nwrite_config(\"pfUsers: created user \" . "@, "\"name\" => "@ + php_literal(name));
    lemma_more(s6 + ");\nlocal_user_set($user);\n$userindex = index_users();\nwrite_config(\"pfUsers: created user \" . "@, php_literal(name), "\"name\" => "@ + php_literal(name));
    lemma_more(s6, ");\nlocal_user_set($user);\n$userindex = index_users();\nwrite_config(\"pfUsers: created user \" . "@, "\"descr\" => "@ + php_literal(descr));
    lemma_more(s6 + ");\nlocal_user_set($user);\n$userindex = index_users();\nwrite_config(\"pfUsers: created user \" . "@, php_literal(name), "\"descr\" => "@ + php_literal(descr));
    lemma_more(s6, ");\nlocal_user_set($user);\n$userindex = index_users();\nwrite_config(\"pfUsers: created user \" . "@, "\"authorizedkeys\" => "@ + php_literal(keys));
    lemma_more(s6 + ");\nlocal_user_set($user);\n$userindex = index_users();\nwrite_config(\"pfUsers: created user \" . "@, php_literal(name), "\"authorizedkeys\" => "@ + php_literal(keys));
    lemma_more(s6, ");\nlocal_user_set($user);\n$userindex = index_users();\nwrite_config(\"pfUsers: created user \" . "@, "\"priv\" => "@ + php_array(priv_list));
    lemma_more(s6 + ");\nlocal_user_set($user);\n$userindex = index_users();\nwrite_config(\"pfUsers: created user \" . "@, php_literal(name), "\"priv\" => "@ + php_array(priv_list));
    lemma_more(s6, ");\nlocal_user_set($user);\n$userindex = index_users();\nwrite_config(\"pfUsers: created user \" . "@, "local_user_set_password($wrap, "@ + php_literal(password));
    lemma_more(s6 + ");\nlocal_user_set($user);\n$userindex = index_users();\nwrite_config(\"pfUsers: created user \" . "@, php_literal(name), "local_user_set_password($wrap, "@ + php_literal(password));
    lemma_more(s6, ");\nlocal_user_set($user);\n$userindex = index_users();\nwrite_config(\"pfUsers: created user \" . "@, "local_user_set_groups($user, "@ + php_array(groups));
    lemma_more(s6 + ");\nlocal_user_set($user);\n$userindex = index_users();\nwrite_config(\"pfUsers: created user \" . "@, php_literal(name), "local_user_set_groups($user, "@ + php_array(groups));
    let s8 = s7 + ");\necho \"<<<PFUSERS-OK-7e3f1a>>>{}\\n\";"@;
    lemma_more(s7, ");\necho \"<<<PFUSERS-OK-7e3f1a>>>{}\\n\";"@, "\"name\" => "@ + php_literal(name));
    lemma_more(s7, ");\necho \"<<<PFUSERS-OK-7e3f1a>>>{}\\n\";"@, "\"descr\" => "@ + php_literal(descr));
    lemma_more(s7, ");\necho \"<<<PFUSERS-OK-7e3f1a>>>{}\\n\";"@, "\"authorizedkeys\" => "@ + php_literal(keys));
    lemma_more(s7, ");\necho \"<<<PFUSERS-OK-7e3f1a>>>{}\\n\";"@, "\"priv\" => "@ + php_array(priv_list));
    lemma_more(s7, ");\necho \"<<<PFUSERS-OK-7e3f1a>>>{}\\n\";"@, "local_user_set_password($wrap, "@ + php_literal(password));
    lemma_more(s7, ");\necho \"<<<PFUSERS-OK-7e3f1a>>>{}\\n\";"@, "local_user_set_groups($user, "@ + php_array(groups));
    assert(s8 =~= add_user_script(name, descr, password, priv_list, groups, keys));
}

/// The script that deletes a user looks for the user with the given name.
pub proof fn deleted_users_are_named(name: Seq<char>)
    ensures
        contains_seq(delete_user_script(name), "if ($u['name'] === "@ + php_literal(name)),
{
    let e = Seq::<char>::empty();
    let s1 = e + "$idx = null;\nforeach (config_get_path('system/user', []) as $i => $u) {\n  if ($u['name'] === "@ + php_literal(name);
    assert(ends_in("$idx = null;\nforeach (config_get_path('system/user', []) as $i => $u) {\n  if ($u['name'] === "@, "if ($u['name'] === "@)) by {
        reveal_strlit("$idx = null;\nforeach (config_get_path('system/user', []) as $i => $u) {\n  if ($u['name'] === ");
        reveal_strlit("if ($u['name'] === ");
        let all = "$idx = null;\nforeach (config_get_path('system/user', []) as $i => $u) {\n  if ($u['name'] === "@;
        let mark = "if ($u['name'] === "@;
        assert(all.subrange(all.len() - mark.len(), all.len() as int) =~= mark);
    }
    lemma_marked(e, "$idx = null;\nforeach (config_get_path('system/user', []) as $i => $u) {\n  if ($u['name'] === "@, "if ($u['name'] === "@, php_literal(name));
    let s2 = s1 + ") { $idx = $i; break; }\n}\nif ($idx === null) throw new Exception(\"user not found: \" . "@ + php_literal(name);
    lemma_more(s1, ") { $idx = $i; break; }\n}\nif ($idx === null) throw new Exception(\"user not found: \" . "@, "if ($u['name'] === "@ + php_literal(name));
    lemma_more(s1 + ") { $idx = $i; break; }\n}\nif ($idx === null) throw new Exception(\"user not found: \" . "@, php_literal(name), "if ($u['name'] === "@ + php_literal(name));
    let s3 = s2 + ");\n$u = config_get_path(\"system/user/{$idx}\");\nif ((int)$u['uid'] === 0) throw new Exception(\"refusing to delete uid 0\");\nlocal_user_del($u);\nconfig_del_path(\"system/user/{$idx}\");\n$users = array_values(config_get_path('system/user', []));\nconfig_set_path('system/user', $users);\nwrite_config(\"pfUsers: deleted user \" . "@ + php_literal(name);
    lemma_more(s2, ");\n$u = config_get_path(\"system/user/{$idx}\");\nif ((int)$u['uid'] === 0) throw new Exception(\"refusing to delete uid 0\");\nlocal_user_del($u);\nconfig_del_path(\"system/user/{$idx}\");\n$users = array_values(config_get_path('system/user', []));\nconfig_set_path('system/user', $users);\nwrite_config(\"pfUsers: deleted user \" . "@, "if ($u['name'] === "@ + php_literal(name));
    lemma_more(s2 + ");\n$u = config_get_path(\"system/user/{$idx}\");\nif ((int)$u['uid'] === 0) throw new Exception(\"refusing to delete uid 0\");\nlocal_user_del($u);\nconfig_del_path(\"system/user/{$idx}\");\n$users = array_values(config_get_path('system/user', []));\nconfig_set_path('system/user', $users);\nwrite_config(\"pfUsers: deleted user \" . "@, php_literal(name), "if ($u['name'] === "@ + php_literal(name));
    let s4 = s3 + ");\necho \"<<<PFUSERS-OK-7e3f1a>>>{}\\n\";"@;
    lemma_more(s3, ");\necho \"<<<PFUSERS-OK-7e3f1a>>>{}\\n\";"@, "if ($u['name'] === "@ + php_literal(name));
    assert(s4 =~= delete_user_script(name));
}

/// The script that changes a user looks for the user with the given name, and sets the
/// description, the privileges, the keys and the groups that were asked for, each in its
/// place.
pub proof fn changed_users_are_named(
    name: Seq<char>,
    descr: Seq<char>,
    priv_list: Seq<Seq<char>>,
    groups: Seq<Seq<char>>,
    keys: Seq<char>,
    disabled: bool,
)
    ensures
        contains_seq(update_user_script(name, descr, priv_list, groups, keys, disabled), "if ($row['name'] === "@ + php_literal(name)),
        contains_seq(update_user_script(name, descr, priv_list, groups, keys, disabled), "$u['descr'] = "@ + php_literal(descr)),
        contains_seq(update_user_script(name, descr, priv_list, groups, keys, disabled), "$u['priv'] = "@ + php_array(priv_list)),
        contains_seq(update_user_script(name, descr, priv_list, groups, keys, disabled), "$u['authorizedkeys'] = "@ + php_literal(keys)),
        contains_seq(update_user_script(name, descr, priv_list, groups, keys, disabled), ";\n"@ + disabled_line(disabled)),
        contains_seq(update_user_script(name, descr, priv_list, groups, keys, disabled), "local_user_set_groups($u, "@ + php_array(groups)),
{
    let e = Seq::<char>::empty();
    let s1 = e + "$idx = null;\nforeach (config_get_path('system/user', []) as $i => $row) {\n  if ($row['name'] === "@ + php_literal(name);
    assert(ends_in("$idx = null;\nforeach (config_get_path('system/user', []) as $i => $row) {\n  if ($row['name'] === "@, "if ($row['name'] === "@)) by {
        reveal_strlit("$idx = null;\nforeach (config_get_path('system/user', []) as $i => $row) {\n  if ($row['name'] === ");
        reveal_strlit("if ($row['name'] === ");
        let all = "$idx = null;\nforeach (config_get_path('system/user', []) as $i => $row) {\n  if ($row['name'] === "@;
        let mark = "if ($row['name'] === "@;
        assert(all.subrange(all.len() - mark.len(), all.len() as int) =~= mark);
    }
    lemma_marked(e, "$idx = null;\nforeach (config_get_path('system/user', []) as $i => $row) {\n  if ($row['name'] === "@, "if ($row['name'] === "@, php_literal(name));
    let s2 = s1 + ") { $idx = $i; break; }\n}\nif ($idx === null) throw new Exception(\"user not found: \" . "@ + php_literal(name);
    lemma_more(s1, ") { $idx = $i; break; }\n}\nif ($idx === null) throw new Exception(\"user not found: \" . "@, "if ($row['name'] === "@ + php_literal(name));
    lemma_more(s1 + ") { $idx = $i; break; }\n}\nif ($idx === null) throw new Exception(\"user not found: \" . "@, php_literal(name), "if ($row['name'] === "@ + php_literal(name));
    let s3 = s2 + ");\n$u = config_get_path(\"system/user/{$idx}\");\n$u['descr'] = "@ + php_literal(descr);
    lemma_more(s2, ");\n$u = config_get_path(\"system/user/{$idx}\");\n$u['descr'] = "@, "if ($row['name'] === "@ + php_literal(name));
    lemma_more(s2 + ");\n$u = config_get_path(\"system/user/{$idx}\");\n$u['descr'] = "@, php_literal(descr), "if ($row['name'] === "@ + php_literal(name));
    assert(ends_in(");\n$u = config_get_path(\"system/user/{$idx}\");\n$u['descr'] = "@, "$u['descr'] = "@)) by {
        reveal_strlit(");\n$u = config_get_path(\"system/user/{$idx}\");\n$u['descr'] = ");
        reveal_strlit("$u['descr'] = ");
        let all = ");\n$u = config_get_path(\"system/user/{$idx}\");\n$u['descr'] = "@;
        let mark = "$u['descr'] = "@;
        assert(all.subrange(all.len() - mark.len(), all.len() as int) =~= mark);
    }
    lemma_marked(s2, ");\n$u = config_get_path(\"system/user/{$idx}\");\n$u['descr'] = "@, "$u['descr'] = "@, php_literal(descr));
    let s4 = s3 + ";\n$u['priv'] = "@ + php_array(priv_list);
    lemma_more(s3, ";\n$u['priv'] = "@, "if ($row['name'] === "@ + php_literal(name));
    lemma_more(s3 + ";\n$u['priv'] = "@, php_array(priv_list), "if ($row['name'] === "@ + php_literal(name));
    lemma_more(s3, ";\n$u['priv'] = "@, "$u['descr'] = "@ + php_literal(descr));
    lemma_more(s3 + ";\n$u['priv'] = "@, php_array(priv_list), "$u['descr'] = "@ + php_literal(descr));
    assert(ends_in(";\n$u['priv'] = "@, "$u['priv'] = "@)) by {
        reveal_strlit(";\n$u['priv'] = ");
        reveal_strlit("$u['priv'] = ");
        let all = ";\n$u['priv'] = "@;
        let mark = "$u['priv'] = "@;
        assert(all.subrange(all.len() - mark.len(), all.len() as int) =~= mark);
    }
    lemma_marked(s3, ";\n$u['priv'] = "@, "$u['priv'] = "@, php_array(priv_list));
    let s5 = s4 + ";\n$u['authorizedkeys'] = "@ + php_literal(keys);
    lemma_more(s4, ";\n$u['authorizedkeys'] = "@, "if ($row['name'] === "@ + php_literal(name));
    lemma_more(s4 + ";\n$u['authorizedkeys'] = "@, php_literal(keys), "if ($row['name'] === "@ + php_literal(name));
    lemma_more(s4, ";\n$u['authorizedkeys'] = "@, "$u['descr'] = "@ + php_literal(descr));
    lemma_more(s4 + ";\n$u['authorizedkeys'] = "@, php_literal(keys), "$u['descr'] = "@ + php_literal(descr));
    lemma_more(s4, ";\n$u['authorizedkeys'] = "@, "$u['priv'] = "@ + php_array(priv_list));
    lemma_more(s4 + ";\n$u['authorizedkeys'] = "@, php_literal(keys), "$u['priv'] = "@ + php_array(priv_list));
    assert(ends_in(";\n$u['authorizedkeys'] = "@, "$u['authorizedkeys'] = "@)) by {
        reveal_strlit(";\n$u['authorizedkeys'] = ");
        reveal_strlit("$u['authorizedkeys'] = ");
        let all = ";\n$u['authorizedkeys'] = "@;
        let mark = "$u['authorizedkeys'] = "@;
        assert(all.subrange(all.len() - mark.len(), all.len() as int) =~= mark);
    }
    lemma_marked(s4, ";\n$u['authorizedkeys'] = "@, "$u['authorizedkeys'] = "@, php_literal(keys));
    let s6 = s5 + ";\n"@ + disabled_line(disabled);
    lemma_more(s5, ";\n"@, "if ($row['name'] === "@ + php_literal(name));
    lemma_more(s5 + ";\n"@, disabled_line(disabled), "if ($row['name'] === "@ + php_literal(name));
    lemma_more(s5, ";\n"@, "$u['descr'] = "@ + php_literal(descr));
    lemma_more(s5 + ";\n"@, disabled_line(disabled), "$u['descr'] = "@ + php_literal(descr));
    lemma_more(s5, ";\n"@, "$u['priv'] = "@ + php_array(priv_list));
    lemma_more(s5 + ";\n"@, disabled_line(disabled), "$u['priv'] = "@ + php_array(priv_list));
    lemma_more(s5, ";\n"@, "$u['authorizedkeys'] = "@ + php_literal(keys));
    lemma_more(s5 + ";\n"@, disabled_line(disabled), "$u['authorizedkeys'] = "@ + php_literal(keys));
    assert(ends_in(";\n"@, ";\n"@)) by {
        reveal_strlit(";\n");
        let all = ";\n"@;
        let mark = ";\n"@;
        assert(all.subrange(all.len() - mark.len(), all.len() as int) =~= mark);
    }
    lemma_marked(s5, ";\n"@, ";\n"@, disabled_line(disabled));
    let s7 = s6 + "\nconfig_set_path(\"system/user/{$idx}\", $u);\nlocal_user_set_groups($u, "@ + php_array(groups);
    lemma_more(s6, "\nconfig_set_path(\"system/user/{$idx}\", $u);\nlocal_user_set_groups($u, "@, "if ($row['name'] === "@ + php_literal(name));
    lemma_more(s6 + "\nconfig_set_path(\"system/user/{$idx}\", $u);\nlocal_user_set_groups($u, "@, php_array(groups), "if ($row['name'] === "@ + php_literal(name));
    lemma_more(s6, "\nconfig_set_path(\"system/user/{$idx}\", $u);\nlocal_user_set_groups($u, "@, "$u['descr'] = "@ + php_literal(descr));
    lemma_more(s6 + "\nconfig_set_path(\"system/user/{$idx}\", $u);\nlocal_user_set_groups($u, "@, php_array(groups), "$u['descr'] = "@ + php_literal(descr));
    lemma_more(s6, "\nconfig_set_path(\"system/user/{$idx}\", $u);\nlocal_user_set_groups($u, "@, "$u['priv'] = "@ + php_array(priv_list));
    lemma_more(s6 + "\nconfig_set_path(\"system/user/{$idx}\", $u);\nlocal_user_set_groups($u, "@, php_array(groups), "$u['priv'] = "@ + php_array(priv_list));
    lemma_more(s6, "\nconfig_set_path(\"system/user/{$idx}\", $u);\nlocal_user_set_groups($u, "@, "$u['authorizedkeys'] = "@ + php_literal(keys));
    lemma_more(s6 + "\nconfig_set_path(\"system/user/{$idx}\", $u);\nlocal_user_set_groups($u, "@, php_array(groups), "$u['authorizedkeys'] = "@ + php_literal(keys));
    lemma_more(s6, "\nconfig_set_path(\"system/user/{$idx}\", $u);\nlocal_user_set_groups($u, "@, ";\n"@ + disabled_line(disabled));
    lemma_more(s6 + "\nconfig_set_path(\"system/user/{$idx}\", $u);\nlocal_user_set_groups($u, "@, php_array(groups), ";\n"@ + disabled_line(disabled));
    assert(ends_in("\nconfig_set_path(\"system/user/{$idx}\", $u);\nlocal_user_set_groups($u, "@, "local_user_set_groups($u, "@)) by {
        reveal_strlit("\nconfig_set_path(\"system/user/{$idx}\", $u);\nlocal_user_set_groups($u, ");
        reveal_strlit("local_user_set_groups($u, ");
        let all = "\nconfig_set_path(\"system/user/{$idx}\", $u);\nlocal_user_set_groups($u, "@;
        let mark = "local_user_set_groups($u, "@;
        assert(all.subrange(all.len() - mark.len(), all.len() as int) =~= mark);
    }
    lemma_marked(s6, "\nconfig_set_path(\"system/user/{$idx}\", $u);\nlocal_user_set_groups($u, "@, "local_user_set_groups($u, "@, php_array(groups));
    let s8 = s7 + ");\nlocal_user_set($u);\nwrite_config(\"pfUsers: updated user \" . "@ + php_literal(name);
    lemma_more(s7, ");\nlocal_user_set($u);\nwrite_config(\"pfUsers: updated user \" . "@, "if ($row['name'] === "@ + php_literal(name));
    lemma_more(s7 + ");\nlocal_user_set($u);\nwrite_config(\"pfUsers: updated user \" . "@, php_literal(name), "if ($row['name'] === "@ + php_literal(name));
    lemma_more(s7, ");\nlocal_user_set($u);\nwrite_config(\"pfUsers: updated user \" . "@, "$u['descr'] = "@ + php_literal(descr));
    lemma_more(s7 + ");\nlocal_user_set($u);\nwrite_config(\"pfUsers: updated user \" . "@, php_literal(name), "$u['descr'] = "@ + php_literal(descr));
    lemma_more(s7, ");\nlocal_user_set($u);\nwrite_config(\"pfUsers: updated user \" . "@, "$u['priv'] = "@ + php_array(priv_list));
    lemma_more(s7 + ");\nlocal_user_set($u);\nwrite_config(\"pfUsers: updated user \" . "@, php_literal(name), "$u['priv'] = "@ + php_array(priv_list));
    lemma_more(s7, ");\nlocal_user_set($u);\nwrite_config(\"pfUsers: updated user \" . "@, "$u['authorizedkeys'] = "@ + php_literal(keys));
    lemma_more(s7 + ");\nlocal_user_set($u);\nwrite_config(\"pfUsers: updated user \" . "@, php_literal(name), "$u['authorizedkeys'] = "@ + php_literal(keys));
    lemma_more(s7, ");\nlocal_user_set($u);\nwrite_config(\"pfUsers: updated user \" . "@, ";\n"@ + disabled_line(disabled));
    lemma_more(s7 + ");\nlocal_user_set($u);\nwrite_config(\"pfUsers: updated user \" . "@, php_literal(name), ";\n"@ + disabled_line(disabled));
    lemma_more(s7, ");\nlocal_user_set($u);\nwrite_config(\"pfUsers: updated user \" . "@, "local_user_set_groups($u, "@ + php_array(groups));
    lemma_more(s7 + ");\nlocal_user_set($u);\nwrite_config(\"pfUsers: updated user \" . "@, php_literal(name), "local_user_set_groups($u, "@ + php_array(groups));
    let s9 = s8 + ");\necho \"<<<PFUSERS-OK-7e3f1a>>>{}\\n\";"@;
    lemma_more(s8, ");\necho \"<<<PFUSERS-OK-7e3f1a>>>{}\\n\";"@, "if ($row['name'] === "@ + php_literal(name));
    lemma_more(s8, ");\necho \"<<<PFUSERS-OK-7e3f1a>>>{}\\n\";"@, "$u['descr'] = "@ + php_literal(descr));
    lemma_more(s8, ");\necho \"<<<PFUSERS-OK-7e3f1a>>>{}\\n\";"@, "$u['priv'] = "@ + php_array(priv_list));
    lemma_more(s8, ");\necho \"<<<PFUSERS-OK-7e3f1a>>>{}\\n\";"@, "$u['authorizedkeys'] = "@ + php_literal(keys));
    lemma_more(s8, ");\necho \"<<<PFUSERS-OK-7e3f1a>>>{}\\n\";"@, ";\n"@ + disabled_line(disabled));
    lemma_more(s8, ");\necho \"<<<PFUSERS-OK-7e3f1a>>>{}\\n\";"@, "local_user_set_groups($u, "@ + php_array(groups));
    assert(s9 =~= update_user_script(name, descr, priv_list, groups, keys, disabled));
}

/// The script that sets a password looks for the user with the given name, and sets the
/// given password.
pub proof fn passwords_are_set_by_name(name: Seq<char>, password: Seq<char>)
    ensures
        contains_seq(set_password_script(name, password), "if ($row['name'] === "@ + php_literal(name)),
        contains_seq(set_password_script(name, password), "local_user_set_password($wrap, "@ + php_literal(password)),
{
    let e = Seq::<char>::empty();
    let s1 = e + "$idx = null;\nforeach (config_get_path('system/user', []) as $i => $row) {\n  if ($row['name'] === "@ + php_literal(name);
    assert(ends_in("$idx = null;\nforeach (config_get_path('system/user', []) as $i => $row) {\n  if ($row['name'] === "@, "if ($row['name'] === "@)) by {
        reveal_strlit("$idx = null;\nforeach (config_get_path('system/user', []) as $i => $row) {\n  if ($row['name'] === ");
        reveal_strlit("if ($row['name'] === ");
        let all = "$idx = null;\nforeach (config_get_path('system/user', []) as $i => $row) {\n  if ($row['name'] === "@;
        let mark = "if ($row['name'] === "@;
        assert(all.subrange(all.len() - mark.len(), all.len() as int) =~= mark);
    }
    lemma_marked(e, "$idx = null;\nforeach (config_get_path('system/user', []) as $i => $row) {\n  if ($row['name'] === "@, "if ($row['name'] === "@, php_literal(name));
    let s2 = s1 + ") { $idx = $i; break; }\n}\nif ($idx === null) throw new Exception(\"user not found: \" . "@ + php_literal(name);
    lemma_more(s1, ") { $idx = $i; break; }\n}\nif ($idx === null) throw new Exception(\"user not found: \" . "@, "if ($row['name'] === "@ + php_literal(name));
    lemma_more(s1 + ") { $idx = $i; break; }\n}\nif ($idx === null) throw new Exception(\"user not found: \" . "@, php_literal(name), "if ($row['name'] === "@ + php_literal(name));
    let s3 = s2 + ");\n$u = config_get_path(\"system/user/{$idx}\");\n$wrap = [\"item\" => &$u, \"idx\" => $idx];\nlocal_user_set_password($wrap, "@ + php_literal(password);
    lemma_more(s2, ");\n$u = config_get_path(\"system/user/{$idx}\");\n$wrap = [\"item\" => &$u, \"idx\" => $idx];\nlocal_user_set_password($wrap, "@, "if ($row['name'] === "@ + php_literal(name));
    lemma_more(s2 + ");\n$u = config_get_path(\"system/user/{$idx}\");\n$wrap = [\"item\" => &$u, \"idx\" => $idx];\nlocal_user_set_password($wrap, "@, php_literal(password), "if ($row['name'] === "@ + php_literal(name));
    assert(ends_in(");\n$u = config_get_path(\"system/user/{$idx}\");\n$wrap = [\"item\" => &$u, \"idx\" => $idx];\nlocal_user_set_password($wrap, "@, "local_user_set_password($wrap, "@)) by {
        reveal_strlit(");\n$u = config_get_path(\"system/user/{$idx}\");\n$wrap = [\"item\" => &$u, \"idx\" => $idx];\nlocal_user_set_password($wrap, ");
        reveal_strlit("local_user_set_password($wrap, ");
        let all = ");\n$u = config_get_path(\"system/user/{$idx}\");\n$wrap = [\"item\" => &$u, \"idx\" => $idx];\nlocal_user_set_password($wrap, "@;
        let mark = "local_user_set_password($wrap, "@;
        assert(all.subrange(all.len() - mark.len(), all.len() as int) =~= mark);
    }
    lemma_marked(s2, ");\n$u = config_get_path(\"system/user/{$idx}\");\n$wrap = [\"item\" => &$u, \"idx\" => $idx];\nlocal_user_set_password($wrap, "@, "local_user_set_password($wrap, "@, php_literal(password));
    let s4 = s3 + ");\nconfig_set_path(\"system/user/{$idx}\", $u);\nlocal_user_set($u);\nwrite_config(\"pfUsers: password reset for \" . "@ + php_literal(name);
    lemma_more(s3, ");\nconfig_set_path(\"system/user/{$idx}\", $u);\nlocal_user_set($u);\nwrite_config(\"pfUsers: password reset for \" . "@, "if ($row['name'] === "@ + php_literal(name));
    lemma_more(s3 + ");\nconfig_set_path(\"system/user/{$idx}\", $u);\nlocal_user_set($u);\nwrite_config(\"pfUsers: password reset for \" . "@, php_literal(name), "if ($row['name'] === "@ + php_literal(name));
    lemma_more(s3, ");\nconfig_set_path(\"system/user/{$idx}\", $u);\nlocal_user_set($u);\nwrite_config(\"pfUsers: password reset for \" . "@, "local_user_set_password($wrap, "@ + php_literal(password));
    lemma_more(s3 + ");\nconfig_set_path(\"system/user/{$idx}\", $u);\nlocal_user_set($u);\nwrite_config(\"pfUsers: password reset for \" . "@, php_literal(name), "local_user_set_password($wrap, "@ + php_literal(password));
    let s5 = s4 + ");\necho \"<<<PFUSERS-OK-7e3f1a>>>{}\\n\";"@;
    lemma_more(s4, ");\necho \"<<<PFUSERS-OK-7e3f1a>>>{}\\n\";"@, "if ($row['name'] === "@ + php_literal(name));
    lemma_more(s4, ");\necho \"<<<PFUSERS-OK-7e3f1a>>>{}\\n\";"@, "local_user_set_password($wrap, "@ + php_literal(password));
    assert(s5 =~= set_password_script(name, password));
}

/// A user is marked as disabled by a key that is there, and not by its value.
pub proof fn disabled_users_are_marked(disabled: bool)
    ensures
        disabled_line(disabled) == if disabled {
            "$u['disabled'] = \"\";"@
        } else {
            "unset($u['disabled']);"@
        },
{
}


} // verus!
