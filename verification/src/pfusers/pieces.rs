//! A `<user>` block as events: it is read back as the row it was written for.

use crate::edit::{balanced, lemma_children, lemma_children_concat, lemma_children_shift,
    lemma_depth_part, lemma_text_shift, same_events, shifted_ranges};
use crate::numbers::{decimal, decimal_round_trip};
use crate::pfusers::document::{or_empty, user_at};
use crate::pfusers::mutation::tokens_of;
use crate::pfusers::rows::{
    escaped, escaped_char, expires_text, field_line, field_lines, leading_fields, optional_field,
    priv_fields, user_block, user_fields, Field, Row,
};
use crate::text::lemma_flat_map_first;
use crate::tree::{
    child_ranges, child_text, child_texts, close_from, depth_at, element_text, plain_unescape,
    text_between, text_value,
};
use crate::xml::{
    empty_tag, end_tag, is_name, lemma_empty_tag, lemma_end_tag, lemma_open_concat,
    lemma_placed_concat, lemma_placed_one, lemma_source_concat, lemma_start_tag, open_from, source,
    start_tag, text_piece, well_placed, Lexeme, Token,
};
use vstd::prelude::*;

verus! {

// ---------- Escaped text ----------

/// Text written as character data holds no markup, and is read back as it was.
pub proof fn escaped_round_trip(s: Seq<char>)
    ensures
        !escaped(s).contains('<'),
        plain_unescape(escaped(s)) == Some(s),
        text_value(escaped(s)) == s,
        s.len() == 0 <==> escaped(s).len() == 0,
    decreases s.len(),
{
    let f = |c: char| escaped_char(c);
    if s.len() > 0 {
        let c = s[0];
        let rest = s.drop_first();
        lemma_flat_map_first(s, f);
        escaped_round_trip(rest);
        reveal_strlit("&amp;");
        reveal_strlit("&lt;");
        reveal_strlit("&gt;");
        let head = escaped_char(c);
        let all = head + escaped(rest);
        assert(escaped(s) == all);
        assert(all.skip(head.len() as int) =~= escaped(rest));
        assert(head.len() == 1 ==> all.drop_first() =~= escaped(rest));
        assert(plain_unescape(all) == Some(seq![c] + rest));
        assert(seq![c] + rest =~= s);
        assert forall|i: int| 0 <= i < all.len() implies all[i] != '<' by {
            if i >= head.len() {
                assert(all[i] == escaped(rest)[i - head.len()]);
                if all[i] == '<' {
                    assert(escaped(rest).contains('<'));
                }
            }
        }
    }
}

// ---------- Stretches of events ----------

/// Events that fit together inside `base`, and leave the same elements open.
pub open spec fn whole(base: Seq<Seq<char>>, ls: Seq<Lexeme>) -> bool {
    &&& well_placed(base, ls)
    &&& open_from(base, ls, ls.len() as int) == base
    &&& balanced(tokens_of(ls))
}

pub proof fn lemma_tokens_concat(a: Seq<Lexeme>, b: Seq<Lexeme>)
    ensures
        tokens_of(a + b) == tokens_of(a) + tokens_of(b),
{
    assert(tokens_of(a + b) =~= tokens_of(a) + tokens_of(b));
}

pub proof fn lemma_balanced_concat(a: Seq<Token>, b: Seq<Token>)
    requires
        balanced(a),
        balanced(b),
    ensures
        balanced(a + b),
{
    let ab = a + b;
    assert(ab.subrange(0, a.len() as int) =~= a);
    assert(ab.subrange(a.len() as int, ab.len() as int) =~= b);
    assert forall|k: int| 0 <= k <= ab.len() implies #[trigger] depth_at(ab, k) >= 0 && (k
        == ab.len() ==> depth_at(ab, k) == 0) by {
        if k <= a.len() {
            lemma_depth_part(ab, 0, a.len() as int, k);
        }
        if k >= a.len() {
            lemma_depth_part(ab, 0, a.len() as int, a.len() as int);
            lemma_depth_part(ab, a.len() as int, ab.len() as int, k - a.len());
        }
    }
}

pub proof fn lemma_whole_concat(base: Seq<Seq<char>>, a: Seq<Lexeme>, b: Seq<Lexeme>)
    requires
        whole(base, a),
        whole(base, b),
        a.len() > 0 && b.len() > 0 ==> a.last().token !is Text || b[0].token !is Text,
    ensures
        whole(base, a + b),
{
    lemma_placed_concat(base, a, b);
    lemma_open_concat(base, a, b, b.len() as int);
    lemma_tokens_concat(a, b);
    lemma_balanced_concat(tokens_of(a), tokens_of(b));
}

pub proof fn lemma_whole_empty(base: Seq<Seq<char>>)
    ensures
        whole(base, Seq::empty()),
{
    reveal(well_placed);
}

pub proof fn lemma_whole_text(base: Seq<Seq<char>>, t: Seq<char>)
    requires
        t.len() > 0,
        !t.contains('<'),
    ensures
        whole(base, seq![text_piece(t)]),
        source(seq![text_piece(t)]) == t,
{
    lemma_placed_one(base, text_piece(t));
    let ts = tokens_of(seq![text_piece(t)]);
    reveal_with_fuel(depth_at, 2);
    assert forall|k: int| 0 <= k <= ts.len() implies #[trigger] depth_at(ts, k) == 0 by {
        if k == 1 {
            assert(ts[0] == Token::Text(t));
        }
    }
}

pub proof fn lemma_whole_empty_tag(base: Seq<Seq<char>>, name: Seq<char>)
    requires
        is_name(name),
    ensures
        whole(base, seq![empty_tag(name)]),
        source(seq![empty_tag(name)]) == empty_tag(name).raw,
{
    lemma_empty_tag(name, base);
    lemma_placed_one(base, empty_tag(name));
    let ts = tokens_of(seq![empty_tag(name)]);
    reveal_with_fuel(depth_at, 2);
    assert forall|k: int| 0 <= k <= ts.len() implies #[trigger] depth_at(ts, k) == 0 by {
        if k == 1 {
            assert(ts[0] == Token::Empty(name));
        }
    }
}

/// An element with its content.
pub open spec fn enclosed(name: Seq<char>, inner: Seq<Lexeme>) -> Seq<Lexeme> {
    seq![start_tag(name)] + inner + seq![end_tag(name)]
}

pub proof fn lemma_whole_enclosed(base: Seq<Seq<char>>, name: Seq<char>, inner: Seq<Lexeme>)
    requires
        is_name(name),
        whole(base.push(name), inner),
    ensures
        whole(base, enclosed(name, inner)),
        source(enclosed(name, inner)) == start_tag(name).raw + source(inner) + end_tag(name).raw,
{
    let a = seq![start_tag(name)];
    let z = seq![end_tag(name)];
    let all = enclosed(name, inner);
    lemma_start_tag(name, base);
    lemma_placed_one(base, start_tag(name));
    lemma_placed_concat(base, a, inner);
    lemma_open_concat(base, a, inner, inner.len() as int);
    lemma_end_tag(name, base.push(name));
    lemma_placed_one(base.push(name), end_tag(name));
    lemma_placed_concat(base, a + inner, z);
    lemma_open_concat(base, a + inner, z, 1);
    assert(base.push(name).drop_last() =~= base);
    lemma_source_concat(a, inner);
    lemma_source_concat(a + inner, z);
    let ts = tokens_of(all);
    let n = inner.len() as int;
    assert(ts.len() == n + 2);
    assert(ts[0] == Token::Start(name));
    assert(ts[n + 1] == Token::End(name));
    assert(ts.subrange(1, n + 1) =~= tokens_of(inner));
    assert forall|k: int| 0 <= k <= ts.len() implies #[trigger] depth_at(ts, k) >= 0 && (k
        == ts.len() ==> depth_at(ts, k) == 0) by {
        reveal_with_fuel(depth_at, 2);
        assert(depth_at(ts, 1) == 1);
        if 1 <= k <= n + 1 {
            lemma_depth_part(ts, 1, n + 1, k - 1);
            assert(depth_at(tokens_of(inner), k - 1) >= 0);
        }
        if k == n + 2 {
            lemma_depth_part(ts, 1, n + 1, n);
            assert(depth_at(tokens_of(inner), n) == 0);
        }
    }
}

// ---------- The events of a block ----------

/// Text as events: none for no text.
pub open spec fn text_pieces(text: Seq<char>) -> Seq<Lexeme> {
    if text.len() == 0 {
        Seq::empty()
    } else {
        seq![text_piece(text)]
    }
}

/// The events of one element of a block.
pub open spec fn element_pieces(f: Field) -> Seq<Lexeme> {
    match f.text {
        Some(text) => enclosed(f.name, text_pieces(escaped(text))),
        None => seq![empty_tag(f.name)],
    }
}

/// The events of one line: the line break and indentation in front of the
/// element, and the element.
pub open spec fn line_pieces(child: Seq<char>, f: Field) -> Seq<Lexeme> {
    seq![text_piece(seq!['\n'] + child)] + element_pieces(f)
}

/// The events of all lines.
pub open spec fn lines_pieces(child: Seq<char>, fields: Seq<Field>) -> Seq<Lexeme>
    decreases fields.len(),
{
    if fields.len() == 0 {
        Seq::empty()
    } else {
        lines_pieces(child, fields.drop_last()) + line_pieces(child, fields.last())
    }
}

/// The events of a `<user>` block, without the line break behind it.
pub open spec fn block_pieces(row: Row, indent: Seq<char>) -> Seq<Lexeme> {
    enclosed(
        "user"@,
        lines_pieces(indent + "\t"@, user_fields(row)) + seq![text_piece(seq!['\n'] + indent)],
    )
}

/// Spaces and tabs.
pub open spec fn is_indent(s: Seq<char>) -> bool {
    forall|i: int| 0 <= i < s.len() ==> #[trigger] s[i] == ' ' || s[i] == '\t'
}

/// All elements have names that can be written as bare tags.
pub open spec fn plain_fields(fields: Seq<Field>) -> bool {
    forall|i: int| 0 <= i < fields.len() ==> is_name((#[trigger] fields[i]).name)
}

proof fn lemma_break(indent: Seq<char>)
    requires
        is_indent(indent),
    ensures
        (seq!['\n'] + indent).len() > 0,
        !(seq!['\n'] + indent).contains('<'),
{
    let t = seq!['\n'] + indent;
    assert forall|i: int| 0 <= i < t.len() implies t[i] != '<' by {
        if i > 0 {
            assert(t[i] == indent[i - 1]);
        }
    }
}

proof fn lemma_element(base: Seq<Seq<char>>, f: Field)
    requires
        is_name(f.name),
    ensures
        whole(base, element_pieces(f)),
        element_pieces(f).len() > 0,
        element_pieces(f)[0].token !is Text,
        element_pieces(f).last().token !is Text,
        match f.text {
            Some(text) => source(element_pieces(f)) == start_tag(f.name).raw + escaped(text)
                + end_tag(f.name).raw,
            None => source(element_pieces(f)) == empty_tag(f.name).raw,
        },
{
    match f.text {
        Some(text) => {
            escaped_round_trip(text);
            let inner = text_pieces(escaped(text));
            if escaped(text).len() == 0 {
                lemma_whole_empty(base.push(f.name));
                assert(source(inner) =~= escaped(text));
            } else {
                lemma_whole_text(base.push(f.name), escaped(text));
            }
            lemma_whole_enclosed(base, f.name, inner);
        },
        None => {
            lemma_whole_empty_tag(base, f.name);
        },
    }
}

proof fn lemma_line(base: Seq<Seq<char>>, child: Seq<char>, f: Field)
    requires
        is_name(f.name),
        is_indent(child),
    ensures
        whole(base, line_pieces(child, f)),
        line_pieces(child, f)[0].token is Text,
        line_pieces(child, f).last().token !is Text,
        source(line_pieces(child, f)) + seq!['\n'] == seq!['\n'] + field_line(child, f),
{
    lemma_break(child);
    lemma_whole_text(base, seq!['\n'] + child);
    lemma_element(base, f);
    lemma_whole_concat(base, seq![text_piece(seq!['\n'] + child)], element_pieces(f));
    lemma_source_concat(seq![text_piece(seq!['\n'] + child)], element_pieces(f));
    reveal(field_line);
    reveal_strlit("<");
    reveal_strlit(">");
    reveal_strlit("</");
    reveal_strlit(">\n");
    reveal_strlit("/>\n");
    assert(source(line_pieces(child, f)) + seq!['\n'] =~= seq!['\n'] + field_line(child, f));
}

proof fn lemma_lines(base: Seq<Seq<char>>, child: Seq<char>, fields: Seq<Field>)
    requires
        plain_fields(fields),
        is_indent(child),
    ensures
        whole(base, lines_pieces(child, fields)),
        fields.len() > 0 ==> lines_pieces(child, fields).len() > 0 && lines_pieces(
            child,
            fields,
        ).last().token !is Text,
        source(lines_pieces(child, fields)) + seq!['\n'] == seq!['\n'] + field_lines(child, fields),
    decreases fields.len(),
{
    if fields.len() == 0 {
        lemma_whole_empty(base);
        assert(source(lines_pieces(child, fields)) + seq!['\n'] =~= seq!['\n'] + field_lines(
            child,
            fields,
        ));
    } else {
        let rest = fields.drop_last();
        let f = fields.last();
        assert(plain_fields(rest)) by {
            assert forall|i: int| 0 <= i < rest.len() implies is_name((#[trigger] rest[i]).name) by {
                assert(rest[i] == fields[i]);
            }
        }
        lemma_lines(base, child, rest);
        lemma_line(base, child, f);
        lemma_whole_concat(base, lines_pieces(child, rest), line_pieces(child, f));
        lemma_source_concat(lines_pieces(child, rest), line_pieces(child, f));
        let a = source(lines_pieces(child, rest));
        let b = source(line_pieces(child, f));
        assert((a + b) + seq!['\n'] =~= a + (b + seq!['\n']));
        assert(a + (seq!['\n'] + field_line(child, f)) =~= (a + seq!['\n']) + field_line(child, f));
        assert((seq!['\n'] + field_lines(child, rest)) + field_line(child, f) =~= seq!['\n']
            + field_lines(child, fields));
    }
}

/// The names in a `<user>` block can be written as bare tags, and are told apart
/// by their length and first letter.
proof fn lemma_names()
    ensures
        is_name("user"@) && "user"@.len() == 4 && "user"@[0] == 'u',
        is_name("scope"@) && "scope"@.len() == 5 && "scope"@[0] == 's',
        is_name("name"@) && "name"@.len() == 4 && "name"@[0] == 'n',
        is_name("descr"@) && "descr"@.len() == 5 && "descr"@[0] == 'd',
        is_name("uid"@) && "uid"@.len() == 3,
        is_name("expires"@) && "expires"@.len() == 7,
        is_name("dashboardcolumns"@) && "dashboardcolumns"@.len() == 16,
        is_name("authorizedkeys"@) && "authorizedkeys"@.len() == 14,
        is_name("ipsecpsk"@) && "ipsecpsk"@.len() == 8 && "ipsecpsk"@[0] == 'i',
        is_name("webguicss"@) && "webguicss"@.len() == 9,
        is_name("bcrypt-hash"@) && "bcrypt-hash"@.len() == 11 && "bcrypt-hash"@[0] == 'b',
        is_name("sha512-hash"@) && "sha512-hash"@.len() == 11 && "sha512-hash"@[0] == 's',
        is_name("md5-hash"@) && "md5-hash"@.len() == 8 && "md5-hash"@[0] == 'm',
        is_name("disabled"@) && "disabled"@.len() == 8 && "disabled"@[0] == 'd',
        is_name("priv"@) && "priv"@.len() == 4 && "priv"@[0] == 'p',
{
    reveal_strlit("user");
    reveal_strlit("scope");
    reveal_strlit("name");
    reveal_strlit("descr");
    reveal_strlit("uid");
    reveal_strlit("expires");
    reveal_strlit("dashboardcolumns");
    reveal_strlit("authorizedkeys");
    reveal_strlit("ipsecpsk");
    reveal_strlit("webguicss");
    reveal_strlit("bcrypt-hash");
    reveal_strlit("sha512-hash");
    reveal_strlit("md5-hash");
    reveal_strlit("disabled");
    reveal_strlit("priv");
}

proof fn lemma_user_fields_plain(row: Row)
    ensures
        plain_fields(user_fields(row)),
        user_fields(row).len() > 0,
{
    lemma_names();
    let fields = user_fields(row);
    assert forall|i: int| 0 <= i < fields.len() implies is_name((#[trigger] fields[i]).name) by {
        let a = leading_fields(row);
        let b = a + optional_field("bcrypt-hash"@, row.bcrypt_hash);
        let c = b + optional_field("sha512-hash"@, row.sha512_hash);
        let d = c + optional_field("md5-hash"@, row.md5_hash);
        let flag = if row.disabled {
            seq![Field { name: "disabled"@, text: None }]
        } else {
            Seq::empty()
        };
        let e = d + flag;
        if i < a.len() {
            assert(fields[i] == a[i]);
        } else if i < b.len() {
            assert(fields[i] == optional_field("bcrypt-hash"@, row.bcrypt_hash)[i - a.len()]);
        } else if i < c.len() {
            assert(fields[i] == optional_field("sha512-hash"@, row.sha512_hash)[i - b.len()]);
        } else if i < d.len() {
            assert(fields[i] == optional_field("md5-hash"@, row.md5_hash)[i - c.len()]);
        } else if i < e.len() {
            assert(fields[i] == flag[i - d.len()]);
        } else {
            assert(fields[i] == priv_fields(row.priv_list)[i - e.len()]);
        }
    }
}

/// What stands between the tags of a block fits together.
pub proof fn lemma_block_inner(base: Seq<Seq<char>>, row: Row, indent: Seq<char>)
    requires
        is_indent(indent),
    ensures
        whole(
            base.push("user"@),
            lines_pieces(indent + "\t"@, user_fields(row)) + seq![
                text_piece(seq!['\n'] + indent),
            ],
        ),
{
    lemma_user_fields_plain(row);
    let child = indent + "\t"@;
    lemma_child_indent(indent);
    let inner_base = base.push("user"@);
    lemma_lines(inner_base, child, user_fields(row));
    lemma_break(indent);
    lemma_whole_text(inner_base, seq!['\n'] + indent);
    lemma_whole_concat(
        inner_base,
        lines_pieces(child, user_fields(row)),
        seq![text_piece(seq!['\n'] + indent)],
    );
}

proof fn lemma_child_indent(indent: Seq<char>)
    requires
        is_indent(indent),
    ensures
        is_indent(indent + "\t"@),
{
    reveal_strlit("\t");
    let child = indent + "\t"@;
    assert forall|i: int| 0 <= i < child.len() implies #[trigger] child[i] == ' ' || child[i]
        == '\t' by {
        if i < indent.len() {
            assert(child[i] == indent[i]);
        }
    }
}

/// A `<user>` block and the line break behind it are the text of its events.
pub proof fn lemma_block(base: Seq<Seq<char>>, row: Row, indent: Seq<char>)
    requires
        is_indent(indent),
    ensures
        whole(base, block_pieces(row, indent)),
        source(block_pieces(row, indent)) + seq!['\n'] == user_block(row, indent),
{
    lemma_names();
    lemma_user_fields_plain(row);
    let child = indent + "\t"@;
    lemma_child_indent(indent);
    let inner_base = base.push("user"@);
    let lines = lines_pieces(child, user_fields(row));
    let last = seq![text_piece(seq!['\n'] + indent)];
    lemma_lines(inner_base, child, user_fields(row));
    lemma_break(indent);
    lemma_whole_text(inner_base, seq!['\n'] + indent);
    lemma_block_inner(base, row, indent);
    lemma_source_concat(lines, last);
    lemma_whole_enclosed(base, "user"@, lines + last);
    reveal_strlit("user");
    reveal_strlit("<user>\n");
    reveal_strlit("</user>\n");
    let body = field_lines(child, user_fields(row));
    let s = source(lines);
    assert(s + (seq!['\n'] + indent) =~= (s + seq!['\n']) + indent);
    assert(start_tag("user"@).raw + (seq!['\n'] + body + indent) + end_tag("user"@).raw + seq!['\n']
        =~= user_block(row, indent)) by {
        assert(start_tag("user"@).raw + seq!['\n'] =~= "<user>\n"@);
        assert(end_tag("user"@).raw + seq!['\n'] =~= "</user>\n"@);
    }
}

// ---------- Reading a block ----------

/// The texts of the elements `name` among `fields`; an empty element has none.
pub open spec fn values(fields: Seq<Field>, name: Seq<char>) -> Seq<Seq<char>>
    decreases fields.len(),
{
    if fields.len() == 0 {
        Seq::empty()
    } else {
        let rest = values(fields.drop_last(), name);
        if fields.last().name == name {
            rest.push(
                match fields.last().text {
                    Some(text) => text,
                    None => Seq::empty(),
                },
            )
        } else {
            rest
        }
    }
}

/// The texts of the elements at `ranges`.
pub open spec fn texts_at(ts: Seq<Token>, ranges: Seq<(int, int)>) -> Seq<Seq<char>> {
    Seq::new(ranges.len(), |k: int| element_text(ts, ranges[k]))
}

/// The element of a line is the only one in it.
proof fn lemma_line_children(child: Seq<char>, f: Field, name: Seq<char>)
    ensures
        ({
            let g = tokens_of(line_pieces(child, f));
            texts_at(g, child_ranges(g, 0, g.len() as int, name)) == values(seq![f], name)
        }),
{
    let g = tokens_of(line_pieces(child, f));
    let n = g.len() as int;
    assert(seq![f].drop_last() =~= Seq::<Field>::empty());
    reveal_with_fuel(values, 2);
    reveal_with_fuel(child_ranges, 5);
    reveal_with_fuel(close_from, 5);
    assert(g[0] is Text);
    match f.text {
        Some(text) => {
            escaped_round_trip(text);
            let inner = text_pieces(escaped(text));
            assert(line_pieces(child, f)[1] == start_tag(f.name));
            assert(g[1] == Token::Start(f.name));
            if escaped(text).len() == 0 {
                assert(line_pieces(child, f)[2] == end_tag(f.name));
                assert(g[2] == Token::End(f.name));
                assert(n == 3);
                assert(element_text(g, (1, 2)) =~= text);
            } else {
                assert(line_pieces(child, f)[2] == text_piece(escaped(text)));
                assert(line_pieces(child, f)[3] == end_tag(f.name));
                assert(g[2] == Token::Text(escaped(text)));
                assert(g[3] == Token::End(f.name));
                assert(n == 4);
                reveal_with_fuel(text_between, 3);
                assert(element_text(g, (1, 3)) =~= text);
            }
        },
        None => {
            assert(line_pieces(child, f)[1] == empty_tag(f.name));
            assert(g[1] == Token::Empty(f.name));
            assert(n == 2);
            assert(element_text(g, (1, 1)) =~= Seq::<char>::empty());
        },
    }
    assert(texts_at(g, child_ranges(g, 0, n, name)) =~= values(seq![f], name));
}

/// Texts of elements are the same wherever their events stand.
pub proof fn lemma_texts_shift(
    ts: Seq<Token>,
    us: Seq<Token>,
    i: int,
    end: int,
    b: int,
    name: Seq<char>,
)
    requires
        same_events(ts, us, i, end, b),
    ensures
        texts_at(us, child_ranges(us, i + b, end + b, name)) == texts_at(
            ts,
            child_ranges(ts, i, end, name),
        ),
{
    lemma_children_shift(ts, us, i, end, b, name);
    let rs = child_ranges(ts, i, end, name);
    assert forall|k: int| 0 <= k < rs.len() implies element_text(us, shifted_ranges(rs, b)[k])
        == element_text(ts, #[trigger] rs[k]) by {
        lemma_children(ts, i, end, name, k);
        let (x, y) = rs[k];
        if x < y {
            assert(same_events(ts, us, x + 1, y, b));
            lemma_text_shift(ts, us, x + 1, y, b);
        }
    }
    assert(texts_at(us, shifted_ranges(rs, b)) =~= texts_at(ts, rs));
}

proof fn lemma_lines_children(child: Seq<char>, fields: Seq<Field>, name: Seq<char>)
    requires
        is_indent(child),
        plain_fields(fields),
    ensures
        ({
            let ts = tokens_of(lines_pieces(child, fields));
            texts_at(ts, child_ranges(ts, 0, ts.len() as int, name)) == values(fields, name)
        }),
    decreases fields.len(),
{
    let ts = tokens_of(lines_pieces(child, fields));
    if fields.len() == 0 {
        assert(texts_at(ts, child_ranges(ts, 0, ts.len() as int, name)) =~= values(fields, name));
    } else {
        let rest = fields.drop_last();
        let f = fields.last();
        assert(plain_fields(rest)) by {
            assert forall|i: int| 0 <= i < rest.len() implies is_name((#[trigger] rest[i]).name) by {
                assert(rest[i] == fields[i]);
            }
        }
        lemma_lines_children(child, rest, name);
        lemma_line_children(child, f, name);
        lemma_lines(Seq::empty(), child, rest);
        let a = tokens_of(lines_pieces(child, rest));
        let g = tokens_of(line_pieces(child, f));
        lemma_tokens_concat(lines_pieces(child, rest), line_pieces(child, f));
        let m = a.len() as int;
        let n = ts.len() as int;
        assert(ts =~= a + g);
        assert(ts.subrange(0, m) =~= a);
        lemma_children_concat(ts, 0, m, n, name);
        assert(same_events(a, ts, 0, m, 0));
        lemma_texts_shift(a, ts, 0, m, 0, name);
        assert(same_events(g, ts, 0, g.len() as int, m));
        lemma_texts_shift(g, ts, 0, g.len() as int, m, name);
        let r1 = child_ranges(ts, 0, m, name);
        let r2 = child_ranges(ts, m, n, name);
        assert(texts_at(ts, r1 + r2) =~= texts_at(ts, r1) + texts_at(ts, r2));
        assert(seq![f].drop_last() =~= Seq::<Field>::empty());
        reveal_with_fuel(values, 2);
        assert(values(rest, name) + values(seq![f], name) =~= values(fields, name));
    }
}

/// The elements of a block, read from its events.
proof fn lemma_block_children(row: Row, indent: Seq<char>, name: Seq<char>)
    requires
        is_indent(indent),
    ensures
        ({
            let ts = tokens_of(block_pieces(row, indent));
            let n = ts.len() as int;
            texts_at(ts, child_ranges(ts, 1, n - 1, name)) == values(user_fields(row), name)
        }),
{
    lemma_user_fields_plain(row);
    let child = indent + "\t"@;
    lemma_child_indent(indent);
    let fields = user_fields(row);
    let lines = lines_pieces(child, fields);
    let ts = tokens_of(block_pieces(row, indent));
    let a = tokens_of(lines);
    let m = a.len() as int;
    let n = ts.len() as int;
    lemma_lines(Seq::empty(), child, fields);
    lemma_lines_children(child, fields, name);
    assert forall|i: int| 0 <= i < m implies #[trigger] a[i] == ts[i + 1] by {
        assert(block_pieces(row, indent)[i + 1] == lines[i]);
    }
    assert(same_events(a, ts, 0, m, 1));
    lemma_texts_shift(a, ts, 0, m, 1, name);
    assert(ts.subrange(1, m + 1) =~= a);
    assert(n == m + 3);
    lemma_children_concat(ts, 1, m + 1, n - 1, name);
    assert(block_pieces(row, indent)[m + 1] == text_piece(seq!['\n'] + indent));
    assert(ts[m + 1] is Text);
    reveal_with_fuel(child_ranges, 3);
    assert(child_ranges(ts, m + 1, n - 1, name) =~= Seq::<(int, int)>::empty());
    assert(child_ranges(ts, 1, n - 1, name) =~= child_ranges(ts, 1, m + 1, name));
}

proof fn lemma_values_concat(a: Seq<Field>, b: Seq<Field>, name: Seq<char>)
    ensures
        values(a + b, name) == values(a, name) + values(b, name),
    decreases b.len(),
{
    if b.len() == 0 {
        assert(a + b =~= a);
        assert(values(a, name) + values(b, name) =~= values(a, name));
    } else {
        assert((a + b).drop_last() =~= a + b.drop_last());
        lemma_values_concat(a, b.drop_last(), name);
        assert(values(a + b, name) =~= values(a, name) + values(b, name));
    }
}

proof fn lemma_values_priv(list: Seq<Seq<char>>, name: Seq<char>)
    ensures
        values(priv_fields(list), name) == if name == "priv"@ {
            list
        } else {
            Seq::empty()
        },
    decreases list.len(),
{
    let fields = priv_fields(list);
    if list.len() > 0 {
        assert(fields.drop_last() =~= priv_fields(list.drop_last()));
        lemma_values_priv(list.drop_last(), name);
    }
    assert(values(fields, name) =~= if name == "priv"@ {
        list
    } else {
        Seq::empty()
    });
}

/// What the first elements of a block hold.
proof fn lemma_values_leading(row: Row, name: Seq<char>)
    ensures
        values(leading_fields(row), name) == (if name == "scope"@ {
            seq![row.scope]
        } else if name == "name"@ {
            seq![row.name]
        } else if name == "descr"@ {
            seq![row.descr]
        } else if name == "uid"@ {
            seq![decimal(row.uid as nat)]
        } else if name == "expires"@ {
            seq![expires_text(row.expires)]
        } else if name == "dashboardcolumns"@ {
            seq!["2"@]
        } else if name == "authorizedkeys"@ {
            seq![row.authorized_keys_b64]
        } else if name == "ipsecpsk"@ {
            seq![Seq::empty()]
        } else if name == "webguicss"@ {
            seq!["pfSense.css"@]
        } else {
            Seq::empty()
        }),
{
    lemma_names();
    let all = leading_fields(row);
    assert(all.take(9) =~= all);
    assert(all.take(9).drop_last() =~= all.take(8));
    assert(all.take(8).drop_last() =~= all.take(7));
    assert(all.take(7).drop_last() =~= all.take(6));
    assert(all.take(6).drop_last() =~= all.take(5));
    assert(all.take(5).drop_last() =~= all.take(4));
    assert(all.take(4).drop_last() =~= all.take(3));
    assert(all.take(3).drop_last() =~= all.take(2));
    assert(all.take(2).drop_last() =~= all.take(1));
    assert(all.take(1).drop_last() =~= all.take(0));
    assert(values(all.take(0), name) =~= Seq::<Seq<char>>::empty());
    assert(values(all.take(1), name) == if name == "scope"@ {
        seq![row.scope]
    } else {
        Seq::empty()
    });
    assert(values(all.take(2), name) == if name == "name"@ {
        seq![row.name]
    } else {
        values(all.take(1), name)
    });
    assert(values(all.take(3), name) == if name == "descr"@ {
        seq![row.descr]
    } else {
        values(all.take(2), name)
    });
    assert(values(all.take(4), name) == if name == "uid"@ {
        seq![decimal(row.uid as nat)]
    } else {
        values(all.take(3), name)
    });
    assert(values(all.take(5), name) == if name == "expires"@ {
        seq![expires_text(row.expires)]
    } else {
        values(all.take(4), name)
    });
    assert(values(all.take(6), name) == if name == "dashboardcolumns"@ {
        seq!["2"@]
    } else {
        values(all.take(5), name)
    });
    assert(values(all.take(7), name) == if name == "authorizedkeys"@ {
        seq![row.authorized_keys_b64]
    } else {
        values(all.take(6), name)
    });
    assert(values(all.take(8), name) == if name == "ipsecpsk"@ {
        seq![Seq::<char>::empty()]
    } else {
        values(all.take(7), name)
    });
    assert(values(all.take(9), name) == if name == "webguicss"@ {
        seq!["pfSense.css"@]
    } else {
        values(all.take(8), name)
    });
}

proof fn lemma_values_optional(own: Seq<char>, text: Option<Seq<char>>, name: Seq<char>)
    ensures
        values(optional_field(own, text), name) == if name == own && text is Some {
            seq![text->0]
        } else {
            Seq::empty()
        },
{
    reveal_with_fuel(values, 2);
    let fields = optional_field(own, text);
    if text is Some {
        assert(fields.drop_last() =~= Seq::<Field>::empty());
    }
    assert(values(fields, name) =~= if name == own && text is Some {
        seq![text->0]
    } else {
        Seq::empty()
    });
}

/// What the elements `name` of a `<user>` block hold.
pub open spec fn row_values(row: Row, name: Seq<char>) -> Seq<Seq<char>> {
    if name == "bcrypt-hash"@ {
        match row.bcrypt_hash {
            Some(h) => seq![h],
            None => Seq::empty(),
        }
    } else if name == "sha512-hash"@ {
        match row.sha512_hash {
            Some(h) => seq![h],
            None => Seq::empty(),
        }
    } else if name == "md5-hash"@ {
        match row.md5_hash {
            Some(h) => seq![h],
            None => Seq::empty(),
        }
    } else if name == "disabled"@ {
        if row.disabled {
            seq![Seq::empty()]
        } else {
            Seq::empty()
        }
    } else if name == "priv"@ {
        row.priv_list
    } else {
        values(leading_fields(row), name)
    }
}

proof fn lemma_values(row: Row, name: Seq<char>)
    ensures
        values(user_fields(row), name) == row_values(row, name),
{
    lemma_names();
    let a = leading_fields(row);
    let b = optional_field("bcrypt-hash"@, row.bcrypt_hash);
    let c = optional_field("sha512-hash"@, row.sha512_hash);
    let d = optional_field("md5-hash"@, row.md5_hash);
    let flag = if row.disabled {
        seq![Field { name: "disabled"@, text: None }]
    } else {
        Seq::empty()
    };
    let e = priv_fields(row.priv_list);
    lemma_values_concat(a, b, name);
    lemma_values_concat(a + b, c, name);
    lemma_values_concat(a + b + c, d, name);
    lemma_values_concat(a + b + c + d, flag, name);
    lemma_values_concat(a + b + c + d + flag, e, name);
    lemma_values_leading(row, name);
    lemma_values_optional("bcrypt-hash"@, row.bcrypt_hash, name);
    lemma_values_optional("sha512-hash"@, row.sha512_hash, name);
    lemma_values_optional("md5-hash"@, row.md5_hash, name);
    lemma_values_priv(row.priv_list, name);
    reveal_with_fuel(values, 2);
    if row.disabled {
        assert(flag.drop_last() =~= Seq::<Field>::empty());
    }
    assert(values(flag, name) =~= if name == "disabled"@ && row.disabled {
        seq![Seq::<char>::empty()]
    } else {
        Seq::empty()
    });
    assert(values(user_fields(row), name) =~= row_values(row, name));
}

/// A child text of a block is what the row holds.
proof fn lemma_block_text(row: Row, indent: Seq<char>, name: Seq<char>)
    requires
        is_indent(indent),
    ensures
        ({
            let ts = tokens_of(block_pieces(row, indent));
            let range = (0int, ts.len() as int - 1);
            &&& child_texts(ts, range, name) == row_values(row, name)
            &&& child_text(ts, range, name) == if row_values(row, name).len() == 0 {
                None
            } else {
                Some(row_values(row, name)[0])
            }
            &&& child_ranges(ts, 1, ts.len() as int - 1, name).len() == row_values(row, name).len()
        }),
{
    let ts = tokens_of(block_pieces(row, indent));
    let n = ts.len() as int;
    lemma_block_children(row, indent, name);
    lemma_values(row, name);
    let found = child_ranges(ts, 1, n - 1, name);
    assert(texts_at(ts, found).len() == found.len());
    assert(child_texts(ts, (0, n - 1), name) =~= texts_at(ts, found));
    if found.len() > 0 {
        assert(texts_at(ts, found)[0] == element_text(ts, found[0]));
    }
}

/// A row can be written in a `<user>` block and read back: an expiry date is not
/// the empty text, which is read as none.
pub open spec fn writable(row: Row) -> bool {
    row.expires matches Some(e) ==> e.len() > 0
}

/// A `<user>` block is read back as the row it was written for.
pub proof fn block_round_trip(row: Row, indent: Seq<char>)
    requires
        is_indent(indent),
        writable(row),
    ensures
        ({
            let ts = tokens_of(block_pieces(row, indent));
            user_at(ts, (0, ts.len() as int - 1)) == Ok::<Row, crate::pfusers::errors::Failure>(row)
        }),
{
    reveal(user_at);
    lemma_names();
    let ts = tokens_of(block_pieces(row, indent));
    let range = (0int, ts.len() as int - 1);
    lemma_block_text(row, indent, "name"@);
    lemma_block_text(row, indent, "descr"@);
    lemma_block_text(row, indent, "uid"@);
    lemma_block_text(row, indent, "scope"@);
    lemma_block_text(row, indent, "expires"@);
    lemma_block_text(row, indent, "disabled"@);
    lemma_block_text(row, indent, "priv"@);
    lemma_block_text(row, indent, "authorizedkeys"@);
    lemma_block_text(row, indent, "bcrypt-hash"@);
    lemma_block_text(row, indent, "sha512-hash"@);
    lemma_block_text(row, indent, "md5-hash"@);
    lemma_values_leading(row, "name"@);
    lemma_values_leading(row, "descr"@);
    lemma_values_leading(row, "uid"@);
    lemma_values_leading(row, "scope"@);
    lemma_values_leading(row, "expires"@);
    lemma_values_leading(row, "authorizedkeys"@);
    decimal_round_trip(row.uid as nat, u32::MAX as nat);
    assert(or_empty(child_text(ts, range, "name"@)) == row.name);
    assert(or_empty(child_text(ts, range, "uid"@)) == decimal(row.uid as nat));
    assert(or_empty(child_text(ts, range, "descr"@)) == row.descr);
    assert(child_text(ts, range, "scope"@) == Some(row.scope));
    assert(child_text(ts, range, "expires"@) == Some(expires_text(row.expires)));
    assert(or_empty(child_text(ts, range, "authorizedkeys"@)) == row.authorized_keys_b64);
    assert(child_text(ts, range, "bcrypt-hash"@) == row.bcrypt_hash);
    assert(child_text(ts, range, "sha512-hash"@) == row.sha512_hash);
    assert(child_text(ts, range, "md5-hash"@) == row.md5_hash);
    assert(user_at(ts, range)->Ok_0 == row);
}

} // verus!
