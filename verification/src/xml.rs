//! The lexical structure of an XML document: the events a reader reports, and
//! where in the text each of them stands.

use crate::text::{byte_len, lemma_encode_concat, lemma_encode_injective, string_from_utf8};
use quick_xml::events::Event;
use quick_xml::Reader;
use vstd::prelude::*;
use vstd::utf8::*;

verus! {

/// What one event of a document says, as text.
pub enum Token {
    /// `<name …>`
    Start(Seq<char>),
    /// `</name>`
    End(Seq<char>),
    /// `<name …/>`
    Empty(Seq<char>),
    /// The characters between two pieces of markup, as they stand in the source.
    Text(Seq<char>),
    /// `<![CDATA[…]]>`
    CData(Seq<char>),
    /// A declaration, a comment, a processing instruction or a document type.
    Other,
}

/// Outcome of reading one event.
pub enum Lex {
    /// The text is used up.
    Done,
    /// The text is not XML; the message says why.
    Bad(Seq<char>),
    /// An event, and how many characters it takes.
    Tok(Token, nat),
}

/// A character of a plain element name.
pub open spec fn is_name_char(c: char) -> bool {
    ||| 'a' <= c <= 'z'
    ||| 'A' <= c <= 'Z'
    ||| '0' <= c <= '9'
    ||| c == '-'
    ||| c == '_'
}

/// Number of characters of `s` in front of the first `<`.
pub open spec fn text_len(s: Seq<char>) -> nat
    decreases s.len(),
{
    if s.len() == 0 || s[0] == '<' {
        0
    } else {
        1 + text_len(s.drop_first())
    }
}

/// Number of name characters that `s` begins with.
pub open spec fn name_len(s: Seq<char>) -> nat
    decreases s.len(),
{
    if s.len() == 0 || !is_name_char(s[0]) {
        0
    } else {
        1 + name_len(s.drop_first())
    }
}

/// The event of a tag written without attributes and without spaces, where `s`
/// begins with one: `<name>`, `<name/>`, or `</name>` for the innermost open
/// element.
pub open spec fn bare_tag(s: Seq<char>, open: Seq<Seq<char>>) -> Option<(Token, nat)> {
    let n = name_len(s.skip(1));
    let m = name_len(s.skip(2));
    if n > 0 && n + 1 < s.len() && s[n as int + 1] == '>' {
        Some((Token::Start(s.subrange(1, n as int + 1)), n + 2))
    } else if n > 0 && n + 2 < s.len() && s[n as int + 1] == '/' && s[n as int + 2] == '>' {
        Some((Token::Empty(s.subrange(1, n as int + 1)), n + 3))
    } else if m > 0 && m + 2 < s.len() && s[1] == '/' && s[m as int + 2] == '>' && open.len() > 0
        && open.last() == s.subrange(2, m as int + 2) {
        Some((Token::End(s.subrange(2, m as int + 2)), m + 3))
    } else {
        None
    }
}

/// What `quick_xml` makes of markup other than a bare tag: tags with attributes
/// or spaces, declarations, comments, CDATA, and malformed markup. `open` are
/// the names of the elements that are open, outermost first.
pub uninterp spec fn other_markup(s: Seq<char>, open: Seq<Seq<char>>) -> Lex;

/// The next event of the text `s`, inside the open elements `open`.
pub open spec fn lex(s: Seq<char>, open: Seq<Seq<char>>) -> Lex {
    if s.len() == 0 {
        Lex::Done
    } else if s[0] != '<' {
        Lex::Tok(Token::Text(s.take(text_len(s) as int)), text_len(s))
    } else {
        match bare_tag(s, open) {
            Some((token, n)) => Lex::Tok(token, n),
            None => other_markup(s, open),
        }
    }
}

/// The open elements after an event.
pub open spec fn open_after(open: Seq<Seq<char>>, token: Token) -> Seq<Seq<char>> {
    match token {
        Token::Start(name) => open.push(name),
        Token::End(_) => open.drop_last(),
        _ => open,
    }
}

/// The piece `raw` of markup is the event `token` whatever stands behind it.
pub open spec fn settled(raw: Seq<char>, open: Seq<Seq<char>>, token: Token) -> bool {
    &&& token !is Text
    &&& raw.len() >= 2
    &&& raw[0] == '<'
    &&& raw.last() == '>'
    &&& token is End ==> open.len() > 0 && open.last() == token->End_0
    &&& forall|tail: Seq<char>| #[trigger]
        lex(raw + tail, open) == Lex::Tok(token, raw.len())
}

// ---------- The reader ----------

/// The XML reader of `quick_xml`.
#[verifier::external_type_specification]
#[verifier::external_body]
#[verifier::reject_recursive_types(R)]
pub struct ExReader<R>(quick_xml::Reader<R>);

/// The text that a reader has not yet reported in an event.
pub uninterp spec fn unread(reader: Reader<&[u8]>) -> Seq<char>;

/// The elements whose start a reader has reported and whose end it has not.
pub uninterp spec fn open_names(reader: Reader<&[u8]>) -> Seq<Seq<char>>;

/// Number of bytes that a reader has reported in events.
pub uninterp spec fn position(reader: Reader<&[u8]>) -> nat;

/// A reader with the settings it is made with, over UTF-8 text.
pub uninterp spec fn plain_reader(reader: Reader<&[u8]>) -> bool;

/// An event as `quick_xml` hands it out, with its content in UTF-8.
pub enum RawEvent {
    Start(Vec<u8>),
    End(Vec<u8>),
    Empty(Vec<u8>),
    Text(Vec<u8>),
    CData(Vec<u8>),
    Other,
}

/// The event `raw` says what `token` says.
pub open spec fn encodes(raw: RawEvent, token: Token) -> bool {
    match (raw, token) {
        (RawEvent::Start(b), Token::Start(s)) => b@ == encode_utf8(s),
        (RawEvent::End(b), Token::End(s)) => b@ == encode_utf8(s),
        (RawEvent::Empty(b), Token::Empty(s)) => b@ == encode_utf8(s),
        (RawEvent::Text(b), Token::Text(s)) => b@ == encode_utf8(s),
        (RawEvent::CData(b), Token::CData(s)) => b@ == encode_utf8(s),
        (RawEvent::Other, Token::Other) => true,
        _ => false,
    }
}

/// The byte order mark that a document may begin with.
pub open spec fn bom(xml: Seq<char>) -> Seq<char> {
    if xml.len() > 0 && xml[0] == '\u{feff}' {
        xml.take(1)
    } else {
        Seq::empty()
    }
}

/// `Reader::from_str`, with `Config::trim_text(false)`: a reader over the whole
/// of `xml`. A byte order mark in front is passed over without being counted in
/// the position.
#[verifier::external_body]
fn open_reader(xml: &str) -> (reader: Reader<&[u8]>)
    ensures
        plain_reader(reader),
        unread(reader) == xml@.skip(bom(xml@).len() as int),
        open_names(reader) == Seq::<Seq<char>>::empty(),
        position(reader) == 0,
{
    let mut reader = Reader::from_str(xml);
    reader.config_mut().trim_text(false);
    reader
}

/// `Reader::buffer_position`: how many bytes have been reported.
#[verifier::external_body]
fn reader_position(reader: &Reader<&[u8]>) -> (res: u64)
    ensures
        res == position(*reader),
{
    reader.buffer_position()
}

/// `Reader::read_event`: the next event, `None` at the end of the text, or the
/// message of the error. Text runs up to the next `<`; a bare tag is reported
/// under its name; what other markup is, is left to `other_markup`. Markup runs
/// from a `<` to a `>`, and which event it is does not depend on what follows
/// it; it is never text and never the end of the document. An end tag closes the
/// innermost open element.
#[verifier::external_body]
fn read_event(reader: &mut Reader<&[u8]>) -> (res: Result<Option<RawEvent>, String>)
    requires
        plain_reader(*old(reader)),
    ensures
        match lex(unread(*old(reader)), open_names(*old(reader))) {
            Lex::Done => res == Ok::<Option<RawEvent>, String>(None),
            Lex::Bad(message) => res is Err && res->Err_0@ == message,
            Lex::Tok(token, n) => {
                &&& res is Ok && res->Ok_0 is Some && encodes(res->Ok_0->0, token)
                &&& 0 < n <= unread(*old(reader)).len()
                &&& token !is Text ==> settled(
                    unread(*old(reader)).take(n as int),
                    open_names(*old(reader)),
                    token,
                )
                &&& plain_reader(*final(reader))
                &&& unread(*final(reader)) == unread(*old(reader)).skip(n as int)
                &&& open_names(*final(reader)) == open_after(open_names(*old(reader)), token)
                &&& position(*final(reader)) == position(*old(reader)) + byte_len(
                    unread(*old(reader)).take(n as int),
                )
            },
        },
        unread(*old(reader)).len() > 0 && unread(*old(reader))[0] == '<' && bare_tag(
            unread(*old(reader)),
            open_names(*old(reader)),
        ) is None ==> match other_markup(unread(*old(reader)), open_names(*old(reader))) {
            Lex::Done => false,
            Lex::Bad(_) => res is Err,
            Lex::Tok(token, _) => res is Ok && token !is Text,
        },
{
    Ok(Some(match reader.read_event() {
        Err(e) => return Err(e.to_string()),
        Ok(Event::Eof) => return Ok(None),
        Ok(Event::Start(s)) => RawEvent::Start(s.name().0.to_vec()),
        Ok(Event::End(s)) => RawEvent::End(s.name().0.to_vec()),
        Ok(Event::Empty(s)) => RawEvent::Empty(s.name().0.to_vec()),
        Ok(Event::Text(t)) => RawEvent::Text(t.to_vec()),
        Ok(Event::CData(t)) => RawEvent::CData(t.to_vec()),
        Ok(_) => RawEvent::Other,
    }))
}

// ---------- Events with their place in the text ----------

/// An event together with the text it was read from.
pub struct Lexeme {
    pub token: Token,
    pub raw: Seq<char>,
}

/// The text that the events were read from.
pub open spec fn source(lexemes: Seq<Lexeme>) -> Seq<char>
    decreases lexemes.len(),
{
    if lexemes.len() == 0 {
        Seq::empty()
    } else {
        source(lexemes.drop_last()) + lexemes.last().raw
    }
}

/// The events `done`, followed by those of the text `rest` inside the elements
/// `open`; or the message of the first error.
pub open spec fn scan(done: Seq<Lexeme>, rest: Seq<char>, open: Seq<Seq<char>>) -> Result<
    Seq<Lexeme>,
    Seq<char>,
>
    decreases rest.len(),
{
    match lex(rest, open) {
        Lex::Done => Ok(done),
        Lex::Bad(message) => Err(message),
        Lex::Tok(token, n) => if 0 < n <= rest.len() {
            scan(
                done.push(Lexeme { token, raw: rest.take(n as int) }),
                rest.skip(n as int),
                open_after(open, token),
            )
        } else {
            Err(Seq::empty())
        },
    }
}

/// All events of a document.
pub open spec fn lexemes(xml: Seq<char>) -> Result<Seq<Lexeme>, Seq<char>> {
    scan(Seq::empty(), xml.skip(bom(xml).len() as int), Seq::empty())
}

/// The elements that are open in front of event `i`, where those of `base` are
/// open in front of the first.
pub open spec fn open_from(base: Seq<Seq<char>>, ls: Seq<Lexeme>, i: int) -> Seq<Seq<char>>
    decreases i,
{
    if i <= 0 {
        base
    } else {
        open_after(open_from(base, ls, i - 1), ls[i - 1].token)
    }
}

/// The elements that are open in front of event `i` of a document.
pub open spec fn open_at(ls: Seq<Lexeme>, i: int) -> Seq<Seq<char>> {
    open_from(Seq::empty(), ls, i)
}

/// An event inside the elements `open` is what its text is read as: text holds
/// no markup, markup stands for itself, and an end tag closes the innermost
/// element.
pub open spec fn well_read(l: Lexeme, open: Seq<Seq<char>>) -> bool {
    match l.token {
        Token::Text(t) => {
            &&& t == l.raw
            &&& t.len() > 0
            &&& !t.contains('<')
        },
        _ => settled(l.raw, open, l.token),
    }
}

/// How events that follow each other inside the elements `base` fit together:
/// each is what its text is read as, and no two texts are neighbours.
#[verifier::opaque]
pub open spec fn well_placed(base: Seq<Seq<char>>, ls: Seq<Lexeme>) -> bool {
    &&& forall|i: int| 0 <= i < ls.len() ==> well_read(#[trigger] ls[i], open_from(base, ls, i))
    &&& forall|i: int|
        0 < i < ls.len() && (#[trigger] ls[i]).token is Text ==> ls[i - 1].token !is Text
}

/// How the events of a document fit together.
pub open spec fn well_scanned(ls: Seq<Lexeme>) -> bool {
    well_placed(Seq::empty(), ls)
}

/// The text in front of event `i` of the document `xml`.
pub open spec fn before(xml: Seq<char>, ls: Seq<Lexeme>, i: int) -> Seq<char> {
    bom(xml) + source(ls.take(i))
}

/// One event, with its content as text.
pub enum XmlEvent {
    Start(String),
    End(String),
    Empty(String),
    Text(String),
    CData(String),
    Other,
}

impl View for XmlEvent {
    type V = Token;

    open spec fn view(&self) -> Token {
        match *self {
            XmlEvent::Start(s) => Token::Start(s@),
            XmlEvent::End(s) => Token::End(s@),
            XmlEvent::Empty(s) => Token::Empty(s@),
            XmlEvent::Text(s) => Token::Text(s@),
            XmlEvent::CData(s) => Token::CData(s@),
            XmlEvent::Other => Token::Other,
        }
    }
}

/// An event, and the byte range `[start, end)` it covers in the source.
pub struct ParsedEvent {
    pub event: XmlEvent,
    pub start: usize,
    pub end: usize,
}

/// The events of `xml`, each at its byte range.
pub open spec fn placed(events: Seq<ParsedEvent>, xml: Seq<char>, ls: Seq<Lexeme>) -> bool {
    &&& events.len() == ls.len()
    &&& forall|i: int|
        0 <= i < ls.len() ==> {
            &&& (#[trigger] events[i]).event@ == ls[i].token
            &&& events[i].start == byte_len(before(xml, ls, i))
            &&& events[i].end == byte_len(before(xml, ls, i + 1))
        }
    &&& xml == bom(xml) + source(ls)
}

/// The text of a piece of UTF-8 that is known to be valid.
fn valid_text(bytes: Vec<u8>, Ghost(content): Ghost<Seq<char>>) -> (res: String)
    requires
        bytes@ == encode_utf8(content),
    ensures
        res@ == content,
{
    proof {
        encode_utf8_valid_utf8(content);
    }
    match string_from_utf8(bytes) {
        Some(s) => {
            proof {
                lemma_encode_injective(s@, content);
            }
            s
        },
        None => String::new(),
    }
}

/// The event `raw` with its content as text.
fn decoded(raw: RawEvent, Ghost(token): Ghost<Token>) -> (res: XmlEvent)
    requires
        encodes(raw, token),
    ensures
        res@ == token,
{
    match raw {
        RawEvent::Start(b) => XmlEvent::Start(valid_text(b, Ghost(token->Start_0))),
        RawEvent::End(b) => XmlEvent::End(valid_text(b, Ghost(token->End_0))),
        RawEvent::Empty(b) => XmlEvent::Empty(valid_text(b, Ghost(token->Empty_0))),
        RawEvent::Text(b) => XmlEvent::Text(valid_text(b, Ghost(token->Text_0))),
        RawEvent::CData(b) => XmlEvent::CData(valid_text(b, Ghost(token->CData_0))),
        RawEvent::Other => XmlEvent::Other,
    }
}

proof fn lemma_text_len(s: Seq<char>)
    ensures
        text_len(s) <= s.len(),
        !s.take(text_len(s) as int).contains('<'),
        text_len(s) < s.len() ==> s[text_len(s) as int] == '<',
    decreases s.len(),
{
    if s.len() > 0 && s[0] != '<' {
        lemma_text_len(s.drop_first());
        let t = s.take(text_len(s) as int);
        let u = s.drop_first().take(text_len(s.drop_first()) as int);
        assert(t =~= seq![s[0]] + u);
        assert forall|i: int| 0 <= i < t.len() implies t[i] != '<' by {
            if i > 0 {
                assert(t[i] == u[i - 1]);
            }
        }
    }
}

pub proof fn lemma_open_prefix(base: Seq<Seq<char>>, a: Seq<Lexeme>, b: Seq<Lexeme>, i: int)
    requires
        i <= a.len(),
        a.is_prefix_of(b),
    ensures
        open_from(base, a, i) == open_from(base, b, i),
    decreases i,
{
    if i > 0 {
        lemma_open_prefix(base, a, b, i - 1);
        assert(a[i - 1] == b[i - 1]);
    }
}

/// The elements open behind a first stretch of events are those the second
/// stretch is in.
pub proof fn lemma_open_concat(base: Seq<Seq<char>>, a: Seq<Lexeme>, b: Seq<Lexeme>, i: int)
    requires
        0 <= i <= b.len(),
    ensures
        open_from(base, a + b, a.len() + i) == open_from(
            open_from(base, a, a.len() as int),
            b,
            i,
        ),
    decreases i,
{
    if i == 0 {
        lemma_open_prefix(base, a, a + b, a.len() as int);
    } else {
        lemma_open_concat(base, a, b, i - 1);
        assert((a + b)[a.len() + i - 1] == b[i - 1]);
    }
}

/// Two stretches that fit in themselves fit together where no two texts meet.
pub proof fn lemma_placed_concat(base: Seq<Seq<char>>, a: Seq<Lexeme>, b: Seq<Lexeme>)
    requires
        well_placed(base, a),
        well_placed(open_from(base, a, a.len() as int), b),
        a.len() > 0 && b.len() > 0 ==> a.last().token !is Text || b[0].token !is Text,
    ensures
        well_placed(base, a + b),
{
    reveal(well_placed);
    let ab = a + b;
    assert forall|i: int| 0 <= i < ab.len() implies well_read(
        #[trigger] ab[i],
        open_from(base, ab, i),
    ) by {
        if i < a.len() {
            lemma_open_prefix(base, a, ab, i);
            assert(ab[i] == a[i]);
        } else {
            lemma_open_concat(base, a, b, i - a.len());
            assert(ab[i] == b[i - a.len()]);
        }
    }
    assert forall|i: int| 0 < i < ab.len() && (#[trigger] ab[i]).token is Text implies ab[i
        - 1].token !is Text by {
        if i < a.len() {
            assert(ab[i] == a[i]);
        } else if i > a.len() {
            assert(ab[i] == b[i - a.len()]);
        }
    }
}

/// A stretch of events that fit together fits in itself.
pub proof fn lemma_placed_part(base: Seq<Seq<char>>, ls: Seq<Lexeme>, p: int, q: int)
    requires
        well_placed(base, ls),
        0 <= p <= q <= ls.len(),
    ensures
        well_placed(open_from(base, ls, p), ls.subrange(p, q)),
        open_from(base, ls, q) == open_from(open_from(base, ls, p), ls.subrange(p, q), q - p),
{
    reveal(well_placed);
    let part = ls.subrange(p, q);
    let head = ls.take(p);
    assert forall|i: int| 0 <= i <= part.len() implies #[trigger] open_from(
        open_from(base, ls, p),
        part,
        i,
    ) == open_from(base, ls, p + i) by {
        lemma_open_prefix(base, head, ls, p);
        lemma_open_concat(base, head, part, i);
        assert((head + part).is_prefix_of(ls));
        lemma_open_prefix(base, head + part, ls, p + i);
    }
    assert forall|i: int| 0 <= i < part.len() implies well_read(
        #[trigger] part[i],
        open_from(open_from(base, ls, p), part, i),
    ) by {
        assert(part[i] == ls[p + i]);
        assert(open_from(open_from(base, ls, p), part, i) == open_from(base, ls, p + i));
    }
    assert forall|i: int| 0 < i < part.len() && (#[trigger] part[i]).token is Text implies part[i
        - 1].token !is Text by {
        assert(part[i] == ls[p + i]);
    }
}

/// One event that is what its text is read as.
pub proof fn lemma_placed_one(base: Seq<Seq<char>>, l: Lexeme)
    requires
        well_read(l, base),
    ensures
        well_placed(base, seq![l]),
        open_from(base, seq![l], 1) == open_after(base, l.token),
        source(seq![l]) == l.raw,
{
    reveal(well_placed);
    reveal_with_fuel(open_from, 2);
    reveal_with_fuel(source, 2);
    assert(seq![l].drop_last() =~= Seq::<Lexeme>::empty());
    assert(source(seq![l]) =~= l.raw);
}

proof fn lemma_well_scanned_push(ls: Seq<Lexeme>, lexeme: Lexeme)
    requires
        well_scanned(ls),
        well_read(lexeme, open_at(ls, ls.len() as int)),
        lexeme.token is Text && ls.len() > 0 ==> ls.last().token !is Text,
    ensures
        well_scanned(ls.push(lexeme)),
        open_at(ls.push(lexeme), ls.len() as int + 1) == open_after(
            open_at(ls, ls.len() as int),
            lexeme.token,
        ),
{
    let next = ls.push(lexeme);
    assert(next =~= ls + seq![lexeme]);
    lemma_placed_one(open_at(ls, ls.len() as int), lexeme);
    lemma_placed_concat(Seq::empty(), ls, seq![lexeme]);
    lemma_open_concat(Seq::empty(), ls, seq![lexeme], 1);
}

/// Reads all events of `xml`, with their byte ranges.
#[verifier::rlimit(50)]
pub fn parse_with_positions(xml: &str) -> (res: Result<Vec<ParsedEvent>, String>)
    ensures
        match (lexemes(xml@), res) {
            (Ok(ls), Ok(events)) => placed(events@, xml@, ls) && well_scanned(ls),
            (Err(message), Err(m)) => m@ == message,
            _ => false,
        },
{
    assert(well_scanned(Seq::empty())) by {
        reveal(well_placed);
    }
    let total: usize = xml.as_bytes().len();
    let mut reader = open_reader(xml);
    let mut events: Vec<ParsedEvent> = Vec::new();
    let ghost mut ls: Seq<Lexeme> = Seq::empty();
    let marked: bool = match xml.chars().next() {
        Some(c) => c == '\u{feff}',
        None => false,
    };
    let skipped: usize = if marked { 3 } else { 0 };
    assert(xml@ =~= bom(xml@) + xml@.skip(bom(xml@).len() as int));
    assert(bom(xml@) + source(ls) =~= bom(xml@));
    assert(skipped == byte_len(bom(xml@))) by {
        if marked {
            lemma_bom_len();
            assert(bom(xml@) =~= seq!['\u{feff}']);
        }
    }
    loop
        invariant
            plain_reader(reader),
            total == byte_len(xml@),
            skipped == byte_len(bom(xml@)),
            skipped + position(reader) == byte_len(bom(xml@) + source(ls)),
            xml@ == bom(xml@) + source(ls) + unread(reader),
            open_names(reader) == open_at(ls, ls.len() as int),
            lexemes(xml@) == scan(ls, unread(reader), open_names(reader)),
            well_scanned(ls),
            ls.len() > 0 && ls.last().token is Text ==> unread(reader).len() == 0 || unread(
                reader,
            )[0] == '<',
            events.len() == ls.len(),
            forall|i: int|
                0 <= i < ls.len() ==> {
                    &&& (#[trigger] events@[i]).event@ == ls[i].token
                    &&& events@[i].start == byte_len(before(xml@, ls, i))
                    &&& events@[i].end == byte_len(before(xml@, ls, i + 1))
                },
        decreases unread(reader).len(),
    {
        let ghost rest = unread(reader);
        let ghost open = open_names(reader);
        proof {
            lemma_encode_concat(bom(xml@) + source(ls), rest);
        }
        let start: usize = skipped + reader_position(&reader) as usize;
        let raw = match read_event(&mut reader) {
            Ok(None) => {
                assert(source(ls) + rest =~= source(ls));
                assert(bom(xml@) + source(ls) + rest =~= bom(xml@) + source(ls));
                return Ok(events);
            },
            Ok(Some(raw)) => raw,
            Err(message) => {
                return Err(message);
            },
        };
        let ghost token = lex(rest, open)->Tok_0;
        let ghost n = lex(rest, open)->Tok_1;
        let ghost lexeme = Lexeme { token, raw: rest.take(n as int) };
        let ghost next = ls.push(lexeme);
        proof {
            lemma_text_len(rest);
            assert(next.drop_last() =~= ls);
            assert(rest =~= lexeme.raw + unread(reader));
            assert(bom(xml@) + source(next) =~= bom(xml@) + source(ls) + lexeme.raw);
            lemma_encode_concat(bom(xml@) + source(ls), lexeme.raw);
            assert(bom(xml@) + source(next) + unread(reader) =~= xml@);
            lemma_encode_concat(bom(xml@) + source(next), unread(reader));
            assert forall|i: int| 0 <= i <= ls.len() implies next.take(i) == ls.take(i) by {
                assert(next.take(i) =~= ls.take(i));
            }
            assert(ls.take(ls.len() as int) =~= ls);
            assert(next.take(next.len() as int) =~= next);
            lemma_well_scanned_push(ls, lexeme);
            assert(token is Text ==> token->Text_0 == lexeme.raw && lexeme.raw.len() > 0);
            if token is Text && unread(reader).len() > 0 {
                assert(unread(reader)[0] == rest[n as int]);
            }
        }
        let end: usize = skipped + reader_position(&reader) as usize;
        events.push(ParsedEvent { event: decoded(raw, Ghost(token)), start, end });
        proof {
            ls = next;
        }
    }
}

proof fn lemma_bom_len()
    ensures
        byte_len(seq!['\u{feff}']) == 3,
{
    let s = seq!['\u{feff}'];
    assert(s.drop_first() =~= Seq::<char>::empty());
    reveal_with_fuel(encode_utf8, 2);
}

pub proof fn lemma_source_concat(a: Seq<Lexeme>, b: Seq<Lexeme>)
    ensures
        source(a + b) == source(a) + source(b),
    decreases b.len(),
{
    if b.len() == 0 {
        assert(a + b =~= a);
        assert(source(a) + source(b) =~= source(a));
    } else {
        assert((a + b).drop_last() =~= a + b.drop_last());
        lemma_source_concat(a, b.drop_last());
        assert(source(a + b) =~= source(a) + source(b));
    }
}

// ---------- Reading back what was written ----------

proof fn lemma_text_len_is(a: Seq<char>, b: Seq<char>)
    requires
        !a.contains('<'),
        b.len() == 0 || b[0] == '<',
    ensures
        text_len(a + b) == a.len(),
    decreases a.len(),
{
    if a.len() > 0 {
        assert((a + b)[0] == a[0]);
        assert(a[0] != '<') by {
            if a[0] == '<' {
                assert(a.contains('<'));
            }
        }
        assert((a + b).drop_first() =~= a.drop_first() + b);
        assert(!a.drop_first().contains('<')) by {
            if a.drop_first().contains('<') {
                let i = choose|i: int| 0 <= i < a.drop_first().len() && a.drop_first()[i] == '<';
                assert(a[i + 1] == '<');
            }
        }
        lemma_text_len_is(a.drop_first(), b);
    } else {
        assert(a + b =~= b);
    }
}

pub proof fn lemma_source_first(ls: Seq<Lexeme>)
    requires
        ls.len() > 0,
    ensures
        source(ls) == ls[0].raw + source(ls.drop_first()),
{
    let head = seq![ls[0]];
    assert(ls =~= head + ls.drop_first());
    lemma_source_concat(head, ls.drop_first());
    assert(head.drop_last() =~= Seq::<Lexeme>::empty());
    reveal_with_fuel(source, 2);
    assert(source(head) =~= ls[0].raw);
}

proof fn lemma_rescan(ls: Seq<Lexeme>, k: int)
    requires
        well_scanned(ls),
        0 <= k <= ls.len(),
    ensures
        scan(ls.take(k), source(ls.skip(k)), open_at(ls, k)) == Ok::<Seq<Lexeme>, Seq<char>>(ls),
    decreases ls.len() - k,
{
    let rest = source(ls.skip(k));
    let open = open_at(ls, k);
    if k == ls.len() {
        assert(ls.take(k) =~= ls);
        assert(ls.skip(k) =~= Seq::<Lexeme>::empty());
    } else {
        reveal(well_placed);
        let tail = source(ls.skip(k + 1));
        lemma_source_first(ls.skip(k));
        assert(ls.skip(k).drop_first() =~= ls.skip(k + 1));
        assert(ls.skip(k)[0] == ls[k]);
        assert(rest == ls[k].raw + tail);
        if k + 1 < ls.len() {
            lemma_source_first(ls.skip(k + 1));
            assert(ls.skip(k + 1)[0] == ls[k + 1]);
        } else {
            assert(ls.skip(k + 1) =~= Seq::<Lexeme>::empty());
        }
        match ls[k].token {
            Token::Text(t) => {
                if k + 1 < ls.len() {
                    assert(ls[k + 1].token !is Text);
                    assert(ls[k + 1].raw[0] == '<');
                    assert(tail[0] == '<');
                }
                lemma_text_len_is(t, tail);
                assert(rest[0] == t[0]);
                assert(t[0] != '<') by {
                    if t[0] == '<' {
                        assert(t.contains('<'));
                    }
                }
                assert(rest.take(t.len() as int) =~= t);
            },
            _ => {
                assert(settled(ls[k].raw, open, ls[k].token));
            },
        }
        let n = ls[k].raw.len();
        assert(lex(rest, open) == Lex::Tok(ls[k].token, n));
        assert(rest.take(n as int) =~= ls[k].raw);
        assert(rest.skip(n as int) =~= tail);
        assert(ls.take(k).push(ls[k]) =~= ls.take(k + 1));
        lemma_rescan(ls, k + 1);
    }
}

/// Events that fit together are read back from the text that they stand for.
pub proof fn rescan(xml: Seq<char>, ls: Seq<Lexeme>)
    requires
        well_scanned(ls),
        xml == bom(xml) + source(ls),
    ensures
        lexemes(xml) == Ok::<Seq<Lexeme>, Seq<char>>(ls),
{
    lemma_rescan(ls, 0);
    assert(ls.take(0) =~= Seq::<Lexeme>::empty());
    assert(ls.skip(0) =~= ls);
    assert(xml.skip(bom(xml).len() as int) =~= source(ls));
}

// ---------- Tags without attributes ----------

/// A name that a bare tag can have.
pub open spec fn is_name(s: Seq<char>) -> bool {
    s.len() > 0 && forall|i: int| 0 <= i < s.len() ==> is_name_char(#[trigger] s[i])
}

proof fn lemma_name_len(name: Seq<char>, tail: Seq<char>)
    requires
        forall|i: int| 0 <= i < name.len() ==> is_name_char(#[trigger] name[i]),
        tail.len() > 0 && !is_name_char(tail[0]),
    ensures
        name_len(name + tail) == name.len(),
    decreases name.len(),
{
    let s = name + tail;
    if name.len() > 0 {
        assert(s[0] == name[0]);
        assert(s.drop_first() =~= name.drop_first() + tail);
        lemma_name_len(name.drop_first(), tail);
    } else {
        assert(s =~= tail);
    }
}

/// `<name>`
pub open spec fn start_tag(name: Seq<char>) -> Lexeme {
    Lexeme { token: Token::Start(name), raw: seq!['<'] + name + seq!['>'] }
}

/// `</name>`
pub open spec fn end_tag(name: Seq<char>) -> Lexeme {
    Lexeme { token: Token::End(name), raw: seq!['<', '/'] + name + seq!['>'] }
}

/// `<name/>`
pub open spec fn empty_tag(name: Seq<char>) -> Lexeme {
    Lexeme { token: Token::Empty(name), raw: seq!['<'] + name + seq!['/', '>'] }
}

/// Text that holds no markup.
pub open spec fn text_piece(text: Seq<char>) -> Lexeme {
    Lexeme { token: Token::Text(text), raw: text }
}

pub proof fn lemma_start_tag(name: Seq<char>, open: Seq<Seq<char>>)
    requires
        is_name(name),
    ensures
        well_read(start_tag(name), open),
{
    let raw = start_tag(name).raw;
    assert forall|tail: Seq<char>| #[trigger]
        lex(raw + tail, open) == Lex::Tok(Token::Start(name), raw.len()) by {
        let s = raw + tail;
        assert(s.skip(1) =~= name + (seq!['>'] + tail));
        lemma_name_len(name, seq!['>'] + tail);
        assert(s.subrange(1, name.len() as int + 1) =~= name);
    }
}

pub proof fn lemma_empty_tag(name: Seq<char>, open: Seq<Seq<char>>)
    requires
        is_name(name),
    ensures
        well_read(empty_tag(name), open),
{
    let raw = empty_tag(name).raw;
    assert forall|tail: Seq<char>| #[trigger]
        lex(raw + tail, open) == Lex::Tok(Token::Empty(name), raw.len()) by {
        let s = raw + tail;
        assert(s.skip(1) =~= name + (seq!['/', '>'] + tail));
        lemma_name_len(name, seq!['/', '>'] + tail);
        assert(s.subrange(1, name.len() as int + 1) =~= name);
    }
}

pub proof fn lemma_end_tag(name: Seq<char>, open: Seq<Seq<char>>)
    requires
        is_name(name),
        open.len() > 0,
        open.last() == name,
    ensures
        well_read(end_tag(name), open),
{
    let raw = end_tag(name).raw;
    assert forall|tail: Seq<char>| #[trigger]
        lex(raw + tail, open) == Lex::Tok(Token::End(name), raw.len()) by {
        let s = raw + tail;
        assert(s.skip(1)[0] == '/');
        assert(name_len(s.skip(1)) == 0);
        assert(s.skip(2) =~= name + (seq!['>'] + tail));
        lemma_name_len(name, seq!['>'] + tail);
        assert(s.subrange(2, name.len() as int + 2) =~= name);
    }
}

} // verus!
