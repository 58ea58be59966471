//! Users as rows, and the `<user>` blocks they are written as.

use crate::numbers::{decimal, decimal_text};
use crate::text::{
    chars_of, concat2, concat3, copy_opt, copy_texts, flat_map, lemma_flat_map_step, opt_text,
    texts,
};
use vstd::prelude::*;
use vstd::string::*;

verus! {

// ---------- Users ----------

/// One `<user>` of the document.
pub struct UserRow {
    pub name: String,
    pub descr: String,
    pub uid: u32,
    pub scope: String,
    pub expires: Option<String>,
    pub disabled: bool,
    pub priv_list: Vec<String>,
    pub authorized_keys_b64: String,
    pub bcrypt_hash: Option<String>,
    pub sha512_hash: Option<String>,
    pub md5_hash: Option<String>,
}

/// A user, as text.
pub struct Row {
    pub name: Seq<char>,
    pub descr: Seq<char>,
    pub uid: u32,
    pub scope: Seq<char>,
    pub expires: Option<Seq<char>>,
    pub disabled: bool,
    pub priv_list: Seq<Seq<char>>,
    pub authorized_keys_b64: Seq<char>,
    pub bcrypt_hash: Option<Seq<char>>,
    pub sha512_hash: Option<Seq<char>>,
    pub md5_hash: Option<Seq<char>>,
}

impl View for UserRow {
    type V = Row;

    open spec fn view(&self) -> Row {
        Row {
            name: self.name@,
            descr: self.descr@,
            uid: self.uid,
            scope: self.scope@,
            expires: opt_text(self.expires),
            disabled: self.disabled,
            priv_list: texts(self.priv_list@),
            authorized_keys_b64: self.authorized_keys_b64@,
            bcrypt_hash: opt_text(self.bcrypt_hash),
            sha512_hash: opt_text(self.sha512_hash),
            md5_hash: opt_text(self.md5_hash),
        }
    }
}

impl UserRow {
    /// A copy of the row.
    pub fn duplicate(&self) -> (out: UserRow)
        ensures
            out@ == self@,
    {
        UserRow {
            name: self.name.clone(),
            descr: self.descr.clone(),
            uid: self.uid,
            scope: self.scope.clone(),
            expires: copy_opt(&self.expires),
            disabled: self.disabled,
            priv_list: copy_texts(&self.priv_list),
            authorized_keys_b64: self.authorized_keys_b64.clone(),
            bcrypt_hash: copy_opt(&self.bcrypt_hash),
            sha512_hash: copy_opt(&self.sha512_hash),
            md5_hash: copy_opt(&self.md5_hash),
        }
    }
}

// ---------- Text that is written ----------

/// What stands in character data for `c`.
pub open spec fn escaped_char(c: char) -> Seq<char> {
    if c == '&' {
        "&amp;"@
    } else if c == '<' {
        "&lt;"@
    } else if c == '>' {
        "&gt;"@
    } else {
        seq![c]
    }
}

/// `s` written as character data.
pub open spec fn escaped(s: Seq<char>) -> Seq<char> {
    flat_map(s, |c: char| escaped_char(c))
}

/// An element of a `<user>` block: its name, and its text; without text it is
/// written as an empty element.
pub struct Field {
    pub name: Seq<char>,
    pub text: Option<Seq<char>>,
}

pub open spec fn field(name: Seq<char>, text: Seq<char>) -> Field {
    Field { name, text: Some(text) }
}

/// A line with one element behind `indent`.
#[verifier::opaque]
pub open spec fn field_line(indent: Seq<char>, f: Field) -> Seq<char> {
    match f.text {
        Some(text) => indent + "<"@ + f.name + ">"@ + escaped(text) + "</"@ + f.name + ">\n"@,
        None => indent + "<"@ + f.name + "/>\n"@,
    }
}

/// One line for each element.
pub open spec fn field_lines(indent: Seq<char>, fields: Seq<Field>) -> Seq<char>
    decreases fields.len(),
{
    if fields.len() == 0 {
        Seq::empty()
    } else {
        field_lines(indent, fields.drop_last()) + field_line(indent, fields.last())
    }
}

/// An element that is there only where it has a text.
pub open spec fn optional_field(name: Seq<char>, text: Option<Seq<char>>) -> Seq<Field> {
    match text {
        Some(t) => seq![field(name, t)],
        None => Seq::empty(),
    }
}

/// The text of `expires`: nothing for a user that does not expire.
pub open spec fn expires_text(expires: Option<Seq<char>>) -> Seq<char> {
    match expires {
        Some(e) => e,
        None => Seq::empty(),
    }
}

/// One `<priv>` for each privilege.
pub open spec fn priv_fields(list: Seq<Seq<char>>) -> Seq<Field> {
    Seq::new(list.len(), |i: int| field("priv"@, list[i]))
}

/// The elements that every `<user>` block begins with.
pub open spec fn leading_fields(row: Row) -> Seq<Field> {
    seq![
        field("scope"@, row.scope),
        field("name"@, row.name),
        field("descr"@, row.descr),
        field("uid"@, decimal(row.uid as nat)),
        field("expires"@, expires_text(row.expires)),
        field("dashboardcolumns"@, "2"@),
        field("authorizedkeys"@, row.authorized_keys_b64),
        field("ipsecpsk"@, Seq::empty()),
        field("webguicss"@, "pfSense.css"@),
    ]
}

/// The elements of a `<user>` block.
pub open spec fn user_fields(row: Row) -> Seq<Field> {
    leading_fields(row) + optional_field("bcrypt-hash"@, row.bcrypt_hash) + optional_field(
        "sha512-hash"@,
        row.sha512_hash,
    ) + optional_field("md5-hash"@, row.md5_hash) + (if row.disabled {
        seq![Field { name: "disabled"@, text: None }]
    } else {
        Seq::empty()
    }) + priv_fields(row.priv_list)
}

/// A `<user>` block whose closing tag stands behind `indent`.
pub open spec fn user_block(row: Row, indent: Seq<char>) -> Seq<char> {
    "<user>\n"@ + field_lines(indent + "\t"@, user_fields(row)) + indent + "</user>\n"@
}

pub fn xml_escape_text(s: &str) -> (out: String)
    ensures
        out@ == escaped(s@),
{
    let chars = chars_of(s);
    let mut out = String::new();
    let ghost f = |c: char| escaped_char(c);
    for i in 0..chars.len()
        invariant
            chars@ == s@,
            f == (|c: char| escaped_char(c)),
            out@ == flat_map(s@.take(i as int), f),
    {
        proof {
            lemma_flat_map_step(s@, f, i as int);
        }
        let c = chars[i];
        let ghost before = out@;
        if c == '&' {
            out.append("&amp;");
        } else if c == '<' {
            out.append("&lt;");
        } else if c == '>' {
            out.append("&gt;");
        } else {
            out.push(c);
            assert(before.push(c) =~= before + seq![c]);
        }
    }
    assert(s@.take(s@.len() as int) =~= s@);
    out
}

/// Appends the line of an element with text.
fn push_elem(out: &mut String, indent: &str, name: &str, value: &str, Ghost(fields): Ghost<
    Seq<Field>,
>)
    requires
        old(out)@ == field_lines(indent@, fields),
    ensures
        final(out)@ == field_lines(indent@, fields.push(field(name@, value@))),
{
    let ghost start = out@;
    let ghost next = fields.push(field(name@, value@));
    reveal(field_line);
    out.append(indent);
    out.append("<");
    out.append(name);
    out.append(">");
    let text = xml_escape_text(value);
    out.append(text.as_str());
    out.append("</");
    out.append(name);
    out.append(">\n");
    assert(next.drop_last() =~= fields);
    assert(out@ =~= start + field_line(indent@, next.last()));
}

/// Appends the line of an element that is there only where it has a text.
fn push_optional(out: &mut String, indent: &str, name: &str, value: &Option<String>, Ghost(
    fields,
): Ghost<Seq<Field>>)
    requires
        old(out)@ == field_lines(indent@, fields),
    ensures
        final(out)@ == field_lines(indent@, fields + optional_field(name@, opt_text(*value))),
{
    match value {
        Some(v) => {
            push_elem(out, indent, name, v.as_str(), Ghost(fields));
            assert(fields.push(field(name@, v@)) =~= fields + optional_field(name@, Some(v@)));
        },
        None => {
            assert(fields + Seq::<Field>::empty() =~= fields);
        },
    }
}

/// Appends the lines that every `<user>` block begins with.
fn push_leading(out: &mut String, row: &UserRow, indent: &str)
    requires
        old(out)@.len() == 0,
    ensures
        final(out)@ == field_lines(indent@, leading_fields(row@)),
{
    proof {
        reveal_strlit("");
        assert(""@ =~= Seq::<char>::empty());
        assert(out@ =~= Seq::<char>::empty());
    }
    let ghost all = leading_fields(row@);
    assert(all.take(0) =~= Seq::<Field>::empty());
    push_elem(out, indent, "scope", row.scope.as_str(), Ghost(all.take(0)));
    assert(all.take(0).push(all[0]) =~= all.take(1));
    push_elem(out, indent, "name", row.name.as_str(), Ghost(all.take(1)));
    assert(all.take(1).push(all[1]) =~= all.take(2));
    push_elem(out, indent, "descr", row.descr.as_str(), Ghost(all.take(2)));
    assert(all.take(2).push(all[2]) =~= all.take(3));
    let uid = decimal_text(row.uid as u64);
    push_elem(out, indent, "uid", uid.as_str(), Ghost(all.take(3)));
    assert(all.take(3).push(all[3]) =~= all.take(4));
    let expires: &str = match &row.expires {
        Some(e) => e.as_str(),
        None => "",
    };
    push_elem(out, indent, "expires", expires, Ghost(all.take(4)));
    assert(all.take(4).push(all[4]) =~= all.take(5));
    push_elem(out, indent, "dashboardcolumns", "2", Ghost(all.take(5)));
    assert(all.take(5).push(all[5]) =~= all.take(6));
    push_elem(
        out,
        indent,
        "authorizedkeys",
        row.authorized_keys_b64.as_str(),
        Ghost(all.take(6)),
    );
    assert(all.take(6).push(all[6]) =~= all.take(7));
    push_elem(out, indent, "ipsecpsk", "", Ghost(all.take(7)));
    assert(all.take(7).push(all[7]) =~= all.take(8));
    push_elem(out, indent, "webguicss", "pfSense.css", Ghost(all.take(8)));
    assert(all.take(8).push(all[8]) =~= all);
}

/// Appends the line of `<disabled/>`.
fn push_disabled(out: &mut String, indent: &str, Ghost(fields): Ghost<Seq<Field>>)
    requires
        old(out)@ == field_lines(indent@, fields),
    ensures
        final(out)@ == field_lines(
            indent@,
            fields.push(Field { name: "disabled"@, text: None }),
        ),
{
    let ghost start = out@;
    let ghost next = fields.push(Field { name: "disabled"@, text: None });
    reveal(field_line);
    out.append(indent);
    out.append("<");
    out.append("disabled");
    out.append("/>\n");
    assert(next.drop_last() =~= fields);
    assert(out@ =~= start + field_line(indent@, next.last()));
}

/// Renders a `<user>` block.
pub fn generate_user_block(row: &UserRow, indent: &str) -> (out: String)
    ensures
        out@ == user_block(row@, indent@),
{
    let child_text = concat2(indent, "\t");
    let child = child_text.as_str();
    let mut body = String::new();
    push_leading(&mut body, row, child);
    let ghost f1 = leading_fields(row@);
    push_optional(&mut body, child, "bcrypt-hash", &row.bcrypt_hash, Ghost(f1));
    let ghost f2 = f1 + optional_field("bcrypt-hash"@, opt_text(row.bcrypt_hash));
    push_optional(&mut body, child, "sha512-hash", &row.sha512_hash, Ghost(f2));
    let ghost f3 = f2 + optional_field("sha512-hash"@, opt_text(row.sha512_hash));
    push_optional(&mut body, child, "md5-hash", &row.md5_hash, Ghost(f3));
    let ghost f4 = f3 + optional_field("md5-hash"@, opt_text(row.md5_hash));
    let ghost flag = if row.disabled {
        seq![Field { name: "disabled"@, text: None }]
    } else {
        Seq::empty()
    };
    if row.disabled {
        push_disabled(&mut body, child, Ghost(f4));
    }
    let ghost f5 = f4 + flag;
    assert(row.disabled ==> f4.push(Field { name: "disabled"@, text: None }) =~= f5);
    assert(!row.disabled ==> f5 =~= f4);
    let ghost list = texts(row.priv_list@);
    assert(f5 + priv_fields(list.take(0)) =~= f5);
    for i in 0..row.priv_list.len()
        invariant
            list == texts(row.priv_list@),
            body@ == field_lines(child@, f5 + priv_fields(list.take(i as int))),
    {
        let ghost so_far = f5 + priv_fields(list.take(i as int));
        push_elem(&mut body, child, "priv", row.priv_list[i].as_str(), Ghost(so_far));
        assert(so_far.push(field("priv"@, list[i as int])) =~= f5 + priv_fields(list.take(i + 1)));
    }
    assert(list.take(list.len() as int) =~= list);
    assert(f5 + priv_fields(list) =~= user_fields(row@));
    let mut out = concat3("<user>\n", body.as_str(), indent);
    out.append("</user>\n");
    out
}

// ---------- Laws ----------

/// Every user that is written gets the settings of the web interface that the router
/// gives to a new user, and no shared key.
pub proof fn users_get_the_usual_settings(row: Row)
    ensures
        user_fields(row).contains(Field { name: "dashboardcolumns"@, text: Some("2"@) }),
        user_fields(row).contains(Field { name: "webguicss"@, text: Some("pfSense.css"@) }),
        user_fields(row).contains(Field { name: "ipsecpsk"@, text: Some(Seq::empty()) }),
{
    let all = user_fields(row);
    assert(all[5] == leading_fields(row)[5]);
    assert(all[7] == leading_fields(row)[7]);
    assert(all[8] == leading_fields(row)[8]);
}


} // verus!
