use vstd::prelude::*;

use vstd::std_specs::iter::IteratorSpec;

use crate::vec_util::{push_char, push_str};

verus! {

/// `char::is_whitespace`: the Unicode White_Space property.
pub open spec fn is_white_space(c: char) -> bool {
    let u = c as u32;
    (9 <= u <= 13) || u == 32 || u == 0x85 || u == 0xa0 || u == 0x1680 || (0x2000 <= u <= 0x200a)
        || u == 0x2028 || u == 0x2029 || u == 0x202f || u == 0x205f || u == 0x3000
}

/// `char::is_control`: the general category Cc.
pub open spec fn is_control(c: char) -> bool {
    let u = c as u32;
    u <= 0x1f || (0x7f <= u <= 0x9f)
}

/// `char::is_ascii_punctuation`.
pub open spec fn is_ascii_punctuation(c: char) -> bool {
    let u = c as u32;
    (0x21 <= u <= 0x2f) || (0x3a <= u <= 0x40) || (0x5b <= u <= 0x60) || (0x7b <= u <= 0x7e)
}

/// `char::is_ascii_digit`.
pub open spec fn is_digit(c: char) -> bool {
    let u = c as u32;
    0x30 <= u <= 0x39
}

fn white_space(c: char) -> (r: bool)
    ensures
        r == is_white_space(c),
{
    let u = c as u32;
    (9 <= u && u <= 13) || u == 32 || u == 0x85 || u == 0xa0 || u == 0x1680 || (0x2000 <= u && u
        <= 0x200a) || u == 0x2028 || u == 0x2029 || u == 0x202f || u == 0x205f || u == 0x3000
}

fn digit(c: char) -> (r: bool)
    ensures
        r == is_digit(c),
{
    let u = c as u32;
    0x30 <= u && u <= 0x39
}

/// A character that may stand in a setting's name.
pub open spec fn name_char_ok(c: char) -> bool {
    c == '_' || c == '-' || !(is_white_space(c) || is_control(c) || is_ascii_punctuation(c))
}

fn name_char(c: char) -> (r: bool)
    ensures
        r == name_char_ok(c),
{
    let u = c as u32;
    let control = u <= 0x1f || (0x7f <= u && u <= 0x9f);
    let punct = (0x21 <= u && u <= 0x2f) || (0x3a <= u && u <= 0x40) || (0x5b <= u && u <= 0x60)
        || (0x7b <= u && u <= 0x7e);
    c == '_' || c == '-' || !(white_space(c) || control || punct)
}

/// A place in a text: character index, line and column, both from 0.
pub type TextPos = (int, int, int);

/// The character at `pos`, or NUL past the end. A NUL in the text also
/// reads as the end.
pub open spec fn char_at(cs: Seq<char>, pos: int) -> char {
    if 0 <= pos < cs.len() {
        cs[pos]
    } else {
        '\0'
    }
}

/// One step of the cursor: past a line break to the start of the next line,
/// past any other character to the next column, and nowhere at the end.
pub open spec fn advance(cs: Seq<char>, p: TextPos) -> TextPos {
    let c = char_at(cs, p.0);
    if c == '\n' {
        (p.0 + 1, p.1 + 1, 0)
    } else if c == '\0' {
        p
    } else {
        (p.0 + 1, p.1, p.2 + 1)
    }
}

/// Passes over white space.
pub open spec fn skip_ws(cs: Seq<char>, p: TextPos) -> TextPos
    decreases cs.len() - p.0,
{
    if 0 <= p.0 < cs.len() && is_white_space(cs[p.0]) {
        skip_ws(cs, advance(cs, p))
    } else {
        p
    }
}

/// Passes over everything up to the first `u`, or the end.
pub open spec fn skip_until(cs: Seq<char>, p: TextPos, u: char) -> TextPos
    decreases cs.len() - p.0,
{
    if 0 <= p.0 < cs.len() && cs[p.0] != '\0' && cs[p.0] != u {
        skip_until(cs, advance(cs, p), u)
    } else {
        p
    }
}

/// Scans a name up to its `=`: whether the `=` was found before the end of
/// the line, where the scan stopped, and where the name ends once trailing
/// white space is left off (`end` so far).
pub open spec fn scan_name(cs: Seq<char>, p: TextPos, end: int) -> (bool, TextPos, int)
    decreases cs.len() - p.0,
{
    let c = char_at(cs, p.0);
    if c == '=' {
        (true, p, end)
    } else if c == '\n' || c == '\0' {
        (false, p, end)
    } else {
        scan_name(
            cs,
            advance(cs, p),
            if is_white_space(c) {
                end
            } else {
                p.0 + 1
            },
        )
    }
}

/// The character an escape sequence `\e` stands for.
pub open spec fn escaped(e: char) -> Option<char> {
    if e == 'n' {
        Some('\n')
    } else if e == 'r' {
        Some('\r')
    } else if e == 't' {
        Some('\t')
    } else if e == '0' {
        Some('\0')
    } else if e == '\\' || e == '\'' || e == '"' {
        Some(e)
    } else {
        None
    }
}

/// Scans the body of a quoted string from `p`, after the opening quote.
/// Gives 0 and the text on a closing quote (the cursor past it), 1 and the
/// character of an unknown escape (the cursor on it), or 2 where the line or
/// the text ends first.
pub open spec fn scan_string(cs: Seq<char>, p: TextPos, acc: Seq<char>) -> (
    int,
    char,
    TextPos,
    Seq<char>,
)
    decreases cs.len() - p.0,
{
    let c = char_at(cs, p.0);
    if c == '\\' {
        let q = advance(cs, p);
        let e = char_at(cs, q.0);
        match escaped(e) {
            Some(x) => scan_string(cs, advance(cs, q), acc.push(x)),
            None => (1, e, q, acc),
        }
    } else if c == '"' {
        (0, c, advance(cs, p), acc)
    } else if c == '\n' || c == '\0' {
        (2, c, p, acc)
    } else {
        scan_string(cs, advance(cs, p), acc.push(c))
    }
}

/// Scans the digits after a decimal point: 0 at white space, or 2 and the
/// first character that is not a digit.
pub open spec fn scan_decimal(cs: Seq<char>, p: TextPos) -> (int, char, TextPos)
    decreases cs.len() - p.0,
{
    let c = char_at(cs, p.0);
    if is_white_space(c) {
        (0, c, p)
    } else if !is_digit(c) {
        (2, c, p)
    } else {
        scan_decimal(cs, advance(cs, p))
    }
}

/// Scans a number: 0 at white space, 1 and the first character that is
/// neither a digit nor a decimal point, or what the decimals give.
pub open spec fn scan_number(cs: Seq<char>, p: TextPos) -> (int, char, TextPos)
    decreases cs.len() - p.0,
{
    let c = char_at(cs, p.0);
    if c == '.' {
        scan_decimal(cs, advance(cs, p))
    } else if is_white_space(c) {
        (0, c, p)
    } else if !is_digit(c) {
        (1, c, p)
    } else {
        scan_number(cs, advance(cs, p))
    }
}

/// `str::trim_end`: the text without trailing white space.
pub open spec fn trim_end(s: Seq<char>) -> Seq<char>
    decreases s.len(),
{
    if s.len() > 0 && is_white_space(s.last()) {
        trim_end(s.drop_last())
    } else {
        s
    }
}

pub proof fn lemma_advance(cs: Seq<char>, p: TextPos)
    ensures
        advance(cs, p).0 >= p.0,
        0 <= p.0 <= cs.len() ==> advance(cs, p).0 <= cs.len(),
        char_at(cs, p.0) != '\0' ==> advance(cs, p).0 == p.0 + 1 && 0 <= p.0 < cs.len(),
{
}

pub proof fn lemma_skip_ws(cs: Seq<char>, p: TextPos)
    ensures
        skip_ws(cs, p).0 >= p.0,
        0 <= p.0 <= cs.len() ==> skip_ws(cs, p).0 <= cs.len(),
        !is_white_space(char_at(cs, skip_ws(cs, p).0)),
    decreases cs.len() - p.0,
{
    if 0 <= p.0 < cs.len() && is_white_space(cs[p.0]) {
        lemma_skip_ws(cs, advance(cs, p));
    }
}

pub proof fn lemma_skip_until(cs: Seq<char>, p: TextPos, u: char)
    ensures
        skip_until(cs, p, u).0 >= p.0,
        0 <= p.0 <= cs.len() ==> skip_until(cs, p, u).0 <= cs.len(),
    decreases cs.len() - p.0,
{
    if 0 <= p.0 < cs.len() && cs[p.0] != '\0' && cs[p.0] != u {
        lemma_skip_until(cs, advance(cs, p), u);
    }
}

pub proof fn lemma_scan_name(cs: Seq<char>, p: TextPos, end: int)
    ensures
        scan_name(cs, p, end).1.0 >= p.0,
        0 <= p.0 <= cs.len() ==> scan_name(cs, p, end).1.0 <= cs.len(),
        scan_name(cs, p, end).0 ==> char_at(cs, scan_name(cs, p, end).1.0) == '=',
        end <= p.0 ==> end <= scan_name(cs, p, end).2 <= scan_name(cs, p, end).1.0,
    decreases cs.len() - p.0,
{
    let c = char_at(cs, p.0);
    if c != '=' && c != '\n' && c != '\0' {
        lemma_scan_name(
            cs,
            advance(cs, p),
            if is_white_space(c) {
                end
            } else {
                p.0 + 1
            },
        );
    }
}

pub proof fn lemma_scan_string(cs: Seq<char>, p: TextPos, acc: Seq<char>)
    ensures
        scan_string(cs, p, acc).2.0 >= p.0,
        0 <= p.0 <= cs.len() ==> scan_string(cs, p, acc).2.0 <= cs.len(),
    decreases cs.len() - p.0,
{
    let c = char_at(cs, p.0);
    if c == '\\' {
        let q = advance(cs, p);
        if let Some(x) = escaped(char_at(cs, q.0)) {
            lemma_scan_string(cs, advance(cs, q), acc.push(x));
        }
    } else if c != '"' && c != '\n' && c != '\0' {
        lemma_scan_string(cs, advance(cs, p), acc.push(c));
    }
}

pub proof fn lemma_scan_decimal(cs: Seq<char>, p: TextPos)
    ensures
        scan_decimal(cs, p).2.0 >= p.0,
        0 <= p.0 <= cs.len() ==> scan_decimal(cs, p).2.0 <= cs.len(),
    decreases cs.len() - p.0,
{
    let c = char_at(cs, p.0);
    if !is_white_space(c) && is_digit(c) {
        lemma_scan_decimal(cs, advance(cs, p));
    }
}

pub proof fn lemma_scan_number(cs: Seq<char>, p: TextPos)
    ensures
        scan_number(cs, p).2.0 >= p.0,
        0 <= p.0 <= cs.len() ==> scan_number(cs, p).2.0 <= cs.len(),
    decreases cs.len() - p.0,
{
    let c = char_at(cs, p.0);
    if c == '.' {
        lemma_scan_decimal(cs, advance(cs, p));
    } else if !is_white_space(c) && is_digit(c) {
        lemma_scan_number(cs, advance(cs, p));
    }
}

/// A cursor over the characters of a text that tracks line and column.
pub struct CharCursor {
    chars: Vec<char>,
    pos: usize,
    line: usize,
    col: usize,
}

impl CharCursor {
    /// The characters of the text.
    pub closed spec fn text(&self) -> Seq<char> {
        self.chars@
    }

    /// Where the cursor stands.
    pub closed spec fn at(&self) -> TextPos {
        (self.pos as int, self.line as int, self.col as int)
    }

    /// The cursor stands within the text, or just past it.
    pub closed spec fn wf(&self) -> bool {
        &&& self.pos <= self.chars@.len() <= usize::MAX
        &&& self.line <= self.pos
        &&& self.col <= self.pos
    }

    /// A cursor at the first character of `string`.
    pub fn new(string: &str) -> (r: Self)
        ensures
            r.wf(),
            r.text() == string@,
            r.at() == (0int, 0int, 0int),
    {
        let mut chars: Vec<char> = Vec::new();
        let mut it = string.chars();
        proof {
            broadcast use vstd::string::axiom_spec_iter, vstd::string::next_postcondition;
        }
        loop
            invariant
                chars@ + it.remaining() == string@,
                it.obeys_prophetic_iter_laws(),
                it.decrease() is Some,
            ensures
                chars@ == string@,
            decreases it.decrease()->0,
        {
            proof {
                broadcast use vstd::string::next_postcondition;
            }
            let ghost before = it.remaining();
            match it.next() {
                Some(c) => {
                    chars.push(c);
                    assert(chars@ + it.remaining() =~= string@);
                },
                None => {
                    assert(chars@ =~= string@);
                    break ;
                },
            }
        }
        let n = chars.len();
        CharCursor { chars, pos: 0, line: 0, col: 0 }
    }

    /// The index and character under the cursor; NUL at the end.
    pub fn current(&self) -> (r: (usize, char))
        requires
            self.wf(),
        ensures
            r.0 == self.at().0,
            r.1 == char_at(self.text(), self.at().0),
    {
        if self.pos < self.chars.len() {
            (self.pos, self.chars[self.pos])
        } else {
            (self.pos, '\0')
        }
    }

    /// Moves one step and returns the index and character then under the
    /// cursor. At the end it stays.
    pub fn next(&mut self) -> (r: (usize, char))
        requires
            old(self).wf(),
        ensures
            final(self).wf(),
            final(self).text() == old(self).text(),
            final(self).at() == advance(old(self).text(), old(self).at()),
            r.0 == final(self).at().0,
            r.1 == char_at(final(self).text(), final(self).at().0),
    {
        let c = self.current().1;
        if c == '\n' {
            self.line += 1;
            self.col = 0;
            self.pos += 1;
        } else if c != '\0' {
            self.col += 1;
            self.pos += 1;
        }
        self.current()
    }

    /// Passes over white space.
    pub fn consume_whitespace(&mut self)
        requires
            old(self).wf(),
        ensures
            final(self).wf(),
            final(self).text() == old(self).text(),
            final(self).at() == skip_ws(old(self).text(), old(self).at()),
    {
        loop
            invariant
                self.wf(),
                self.text() == old(self).text(),
                skip_ws(self.text(), self.at()) == skip_ws(old(self).text(), old(self).at()),
            decreases self.text().len() - self.at().0,
        {
            let c = self.current().1;
            if !white_space(c) {
                return;
            }
            self.next();
        }
    }

    /// Passes over everything up to the first `until`, or the end.
    pub fn consume_until(&mut self, until: char)
        requires
            old(self).wf(),
        ensures
            final(self).wf(),
            final(self).text() == old(self).text(),
            final(self).at() == skip_until(old(self).text(), old(self).at(), until),
    {
        loop
            invariant
                self.wf(),
                self.text() == old(self).text(),
                skip_until(self.text(), self.at(), until) == skip_until(
                    old(self).text(),
                    old(self).at(),
                    until,
                ),
            decreases self.text().len() - self.at().0,
        {
            let c = self.current().1;
            if c == '\0' || c == until {
                return;
            }
            self.next();
        }
    }

    /// The characters from `start` to `end` as a string.
    pub fn slice(&self, start: usize, end: usize) -> (r: String)
        requires
            self.wf(),
            start <= end <= self.text().len(),
        ensures
            r@ == self.text().subrange(start as int, end as int),
    {
        let mut r = String::new();
        let mut i = start;
        while i < end
            invariant
                self.wf(),
                start <= i <= end <= self.text().len(),
                r@ == self.text().subrange(start as int, i as int),
            decreases end - i,
        {
            push_char(&mut r, self.chars[i]);
            i += 1;
            assert(r@ =~= self.text().subrange(start as int, i as int));
        }
        r
    }

    /// The line under the cursor, from 0.
    pub fn line(&self) -> (r: usize)
        ensures
            r == self.at().1,
    {
        self.line
    }

    /// The column under the cursor, from 0.
    pub fn col(&self) -> (r: usize)
        ensures
            r == self.at().2,
    {
        self.col
    }

    /// An error at the cursor.
    pub fn err(&self, desc: String) -> (r: ParseError)
        ensures
            r.line == self.at().1,
            r.col == self.at().2,
            r.desc == desc,
    {
        ParseError { line: self.line, col: self.col, desc }
    }
}

/// A problem found while reading settings, at a line and column from 0.
#[derive(Clone, Debug)]
pub struct ParseError {
    pub line: usize,
    pub col: usize,
    pub desc: String,
}

/// The value of a setting: a quoted string with its escapes resolved, a
/// number as written (digits with at most one decimal point), or a value that
/// could not be read.
#[derive(Clone, Debug)]
pub enum Field {
    String(String),
    Number(String),
    ParseError,
}

/// A value as a tag (0 string, 1 number, 2 unreadable) and its text.
pub open spec fn field_view(f: Field) -> (int, Seq<char>) {
    match f {
        Field::String(s) => (0, s@),
        Field::Number(t) => (1, t@),
        Field::ParseError => (2, Seq::empty()),
    }
}

/// An error as line, column and description.
pub open spec fn error_view(e: ParseError) -> (int, int, Seq<char>) {
    (e.line as int, e.col as int, e.desc@)
}

pub open spec fn errors_view(es: Seq<ParseError>) -> Seq<(int, int, Seq<char>)> {
    es.map_values(|e: ParseError| error_view(e))
}

pub open spec fn fields_view(fs: Seq<(String, Field)>) -> Seq<(Seq<char>, (int, Seq<char>))> {
    fs.map_values(|f: (String, Field)| (f.0@, field_view(f.1)))
}

pub open spec fn msg_unexpected_end() -> Seq<char> {
    "Unexpected end of statement, maybe missing a '=' or comment with '#'"@
}

pub open spec fn msg_bad_name_char(c: char) -> Seq<char> {
    "Encountered unexpected character '"@ + seq![c] + "' while matching a name."@
}

pub open spec fn msg_unknown_escape(c: char) -> Seq<char> {
    "Unknown escape sequence '\\"@ + seq![c] + "'."@
}

pub open spec fn msg_unclosed() -> Seq<char> {
    "Unclosed string."@
}

pub open spec fn msg_no_value(name: Seq<char>) -> Seq<char> {
    "Expected value assignment to '"@ + name + "'."@
}

pub open spec fn msg_not_value(text: Seq<char>) -> Seq<char> {
    "Expected a number or a string while parsing a value, found '"@ + text + "'."@
}

pub open spec fn msg_bad_decimal(c: char) -> Seq<char> {
    "Expected an ascii digit while parsing the decimal part of a number, found '"@ + seq![c]
        + "'."@
}

pub open spec fn msg_bad_digit(c: char) -> Seq<char> {
    "Expected an ascii digit or '.' while parsing a number, found '"@ + seq![c] + "'."@
}

/// Reads the value that starts at `p`, for the setting `name`: the value,
/// where reading stopped, and the error met, if any.
pub open spec fn parse_value(cs: Seq<char>, p: TextPos, name: Seq<char>) -> (
    (int, Seq<char>),
    TextPos,
    Option<(int, int, Seq<char>)>,
) {
    let c = char_at(cs, p.0);
    if c == '"' {
        let r = scan_string(cs, advance(cs, p), Seq::empty());
        if r.0 == 0 {
            ((0, r.3), r.2, None)
        } else if r.0 == 1 {
            ((2, Seq::empty()), r.2, Some((r.2.1, r.2.2, msg_unknown_escape(r.1))))
        } else {
            ((2, Seq::empty()), r.2, Some((r.2.1, r.2.2, msg_unclosed())))
        }
    } else if c == '\n' || c == '\0' {
        ((2, Seq::empty()), p, Some((p.1, p.2, msg_no_value(name))))
    } else if !is_digit(c) && c != '.' {
        let q = skip_until(cs, p, '\n');
        ((2, Seq::empty()), q, Some((q.1, q.2, msg_not_value(trim_end(cs.subrange(p.0, q.0))))))
    } else {
        let r = scan_number(cs, p);
        if r.0 == 0 {
            ((1, cs.subrange(p.0, r.2.0)), r.2, None)
        } else if r.0 == 1 {
            ((2, Seq::empty()), r.2, Some((r.2.1, r.2.2, msg_bad_digit(r.1))))
        } else {
            ((2, Seq::empty()), r.2, Some((r.2.1, r.2.2, msg_bad_decimal(r.1))))
        }
    }
}

pub proof fn lemma_parse_value(cs: Seq<char>, p: TextPos, name: Seq<char>)
    requires
        0 <= p.0 <= cs.len(),
    ensures
        p.0 <= parse_value(cs, p, name).1.0 <= cs.len(),
{
    let c = char_at(cs, p.0);
    lemma_advance(cs, p);
    if c == '"' {
        lemma_scan_string(cs, advance(cs, p), Seq::empty());
    } else if c == '\n' || c == '\0' {
    } else if !is_digit(c) && c != '.' {
        lemma_skip_until(cs, p, '\n');
    } else {
        lemma_scan_number(cs, p);
    }
}

/// Where the first character that may not stand in a name is, from `i` on;
/// the length if there is none.
pub open spec fn first_bad(name: Seq<char>, i: int) -> int
    decreases name.len() - i,
{
    if i >= name.len() {
        name.len() as int
    } else if !name_char_ok(name[i]) {
        i
    } else {
        first_bad(name, i + 1)
    }
}

/// The first entry under `name`, from `i` on; the length if there is none.
pub open spec fn key_from(fields: Seq<(Seq<char>, (int, Seq<char>))>, name: Seq<char>, i: int) -> int
    decreases fields.len() - i,
{
    if i >= fields.len() {
        fields.len() as int
    } else if fields[i].0 == name {
        i
    } else {
        key_from(fields, name, i + 1)
    }
}

/// Sets `name` to `v`: replaces its entry, or adds one at the end.
pub open spec fn insert_field(
    fields: Seq<(Seq<char>, (int, Seq<char>))>,
    name: Seq<char>,
    v: (int, Seq<char>),
) -> Seq<(Seq<char>, (int, Seq<char>))> {
    let k = key_from(fields, name, 0);
    if 0 <= k < fields.len() {
        fields.update(k, (name, v))
    } else {
        fields.push((name, v))
    }
}

/// Reads the statements from `p` on: blank lines, `# comments` and
/// `NAME = VALUE` lines, where a value is a quoted string or a number. A
/// statement with an error is reported and reading goes on after it; a name
/// with a character that may not stand in a name is reported and its value
/// read but not kept.
pub open spec fn parse_from(
    cs: Seq<char>,
    p: TextPos,
    fields: Seq<(Seq<char>, (int, Seq<char>))>,
    errors: Seq<(int, int, Seq<char>)>,
) -> (Seq<(Seq<char>, (int, Seq<char>))>, Seq<(int, int, Seq<char>)>)
    decreases cs.len() - p.0,
{
    let s = skip_ws(cs, p);
    let c = char_at(cs, s.0);
    if p.0 < 0 || c == '\0' {
        (fields, errors)
    } else if c == '#' {
        proof {
            lemma_skip_ws(cs, p);
            lemma_skip_until(cs, advance(cs, s), '\n');
        }
        parse_from(cs, skip_until(cs, s, '\n'), fields, errors)
    } else {
        proof {
            lemma_skip_ws(cs, p);
            lemma_scan_name(cs, advance(cs, s), s.0 + 1);
            lemma_scan_name(cs, advance(cs, s), s.0);
        }
        let n = scan_name(cs, s, s.0);
        if !n.0 {
            proof {
                lemma_advance(cs, n.1);
            }
            parse_from(cs, advance(cs, n.1), fields, errors.push((n.1.1, n.1.2, msg_unexpected_end())))
        } else {
            let raw = cs.subrange(s.0, n.2);
            let bad = first_bad(raw, 0);
            let valid = bad >= raw.len();
            let name = if valid {
                raw
            } else {
                Seq::empty()
            };
            let errors1 = if valid {
                errors
            } else {
                errors.push((s.1, s.2, msg_bad_name_char(raw[bad])))
            };
            let vstart = skip_ws(cs, advance(cs, n.1));
            proof {
                lemma_scan_name(cs, s, s.0);
                lemma_advance(cs, n.1);
                lemma_skip_ws(cs, advance(cs, n.1));
                lemma_parse_value(cs, vstart, name);
            }
            let v = parse_value(cs, vstart, name);
            let errors2 = match v.2 {
                Some(e) => errors1.push(e),
                None => errors1,
            };
            let fields2 = if valid {
                insert_field(fields, name, v.0)
            } else {
                fields
            };
            parse_from(cs, v.1, fields2, errors2)
        }
    }
}

/// The settings and the errors that reading `text` gives.
pub open spec fn parse_settings(text: Seq<char>) -> (
    Seq<(Seq<char>, (int, Seq<char>))>,
    Seq<(int, int, Seq<char>)>,
) {
    parse_from(text, (0, 0, 0), Seq::empty(), Seq::empty())
}

fn message_char(prefix: &str, c: char, suffix: &str) -> (r: String)
    ensures
        r@ == prefix@ + seq![c] + suffix@,
{
    let mut m = String::new();
    push_str(&mut m, prefix);
    push_char(&mut m, c);
    push_str(&mut m, suffix);
    assert(m@ =~= prefix@ + seq![c] + suffix@);
    m
}

fn message_text(prefix: &str, text: &String, suffix: &str) -> (r: String)
    ensures
        r@ == prefix@ + text@ + suffix@,
{
    let mut m = String::new();
    push_str(&mut m, prefix);
    push_str(&mut m, text.as_str());
    push_str(&mut m, suffix);
    assert(m@ =~= prefix@ + text@ + suffix@);
    m
}

fn message(text: &str) -> (r: String)
    ensures
        r@ == text@,
{
    let mut m = String::new();
    push_str(&mut m, text);
    assert(m@ =~= text@);
    m
}

/// Scans a name up to its `=` (see `scan_name`).
fn read_name(cursor: &mut CharCursor) -> (r: (bool, usize))
    requires
        old(cursor).wf(),
    ensures
        final(cursor).wf(),
        final(cursor).text() == old(cursor).text(),
        (r.0, final(cursor).at(), r.1 as int) == scan_name(
            old(cursor).text(),
            old(cursor).at(),
            old(cursor).at().0,
        ),
{
    let ghost cs = cursor.text();
    let mut end = cursor.current().0;
    loop
        invariant
            cursor.wf(),
            cursor.text() == cs,
            cs == old(cursor).text(),
            end <= cursor.at().0,
            scan_name(cs, cursor.at(), end as int) == scan_name(
                cs,
                old(cursor).at(),
                old(cursor).at().0,
            ),
        decreases cs.len() - cursor.at().0,
    {
        let (i, c) = cursor.current();
        if c == '=' {
            return (true, end);
        }
        if c == '\n' || c == '\0' {
            return (false, end);
        }
        if !white_space(c) {
            end = i + 1;
        }
        cursor.next();
    }
}

/// Where the first character that may not stand in a name is, between
/// `start` and `end`; `end` if there is none.
fn find_bad_name_char(cursor: &CharCursor, start: usize, end: usize) -> (r: usize)
    requires
        cursor.wf(),
        start <= end <= cursor.text().len(),
    ensures
        r == start + first_bad(cursor.text().subrange(start as int, end as int), 0),
        start <= r <= end,
{
    let ghost raw = cursor.text().subrange(start as int, end as int);
    let mut i = start;
    while i < end
        invariant
            cursor.wf(),
            start <= i <= end <= cursor.text().len(),
            raw == cursor.text().subrange(start as int, end as int),
            first_bad(raw, i - start) == first_bad(raw, 0),
        decreases end - i,
    {
        if !name_char(cursor.chars[i]) {
            return i;
        }
        i += 1;
    }
    i
}

/// Scans a quoted string's body into `acc` (see `scan_string`).
fn read_string(cursor: &mut CharCursor, acc: &mut String) -> (r: (u8, char))
    requires
        old(cursor).wf(),
    ensures
        final(cursor).wf(),
        final(cursor).text() == old(cursor).text(),
        (r.0 as int, r.1, final(cursor).at(), final(acc)@) == scan_string(
            old(cursor).text(),
            old(cursor).at(),
            old(acc)@,
        ),
{
    let ghost cs = cursor.text();
    loop
        invariant
            cursor.wf(),
            cursor.text() == cs,
            cs == old(cursor).text(),
            scan_string(cs, cursor.at(), acc@) == scan_string(cs, old(cursor).at(), old(acc)@),
        decreases cs.len() - cursor.at().0,
    {
        let c = cursor.current().1;
        if c == '\\' {
            let e = cursor.next().1;
            let x = if e == 'n' {
                '\n'
            } else if e == 'r' {
                '\r'
            } else if e == 't' {
                '\t'
            } else if e == '0' {
                '\0'
            } else if e == '\\' || e == '\'' || e == '"' {
                e
            } else {
                return (1, e);
            };
            push_char(acc, x);
            cursor.next();
        } else if c == '"' {
            cursor.next();
            return (0, c);
        } else if c == '\n' || c == '\0' {
            return (2, c);
        } else {
            push_char(acc, c);
            cursor.next();
        }
    }
}

/// Scans the digits after a decimal point (see `scan_decimal`).
fn read_decimal(cursor: &mut CharCursor) -> (r: (u8, char))
    requires
        old(cursor).wf(),
    ensures
        final(cursor).wf(),
        final(cursor).text() == old(cursor).text(),
        (r.0 as int, r.1, final(cursor).at()) == scan_decimal(old(cursor).text(), old(cursor).at()),
{
    let ghost cs = cursor.text();
    loop
        invariant
            cursor.wf(),
            cursor.text() == cs,
            cs == old(cursor).text(),
            scan_decimal(cs, cursor.at()) == scan_decimal(cs, old(cursor).at()),
        decreases cs.len() - cursor.at().0,
    {
        let c = cursor.current().1;
        if white_space(c) {
            return (0, c);
        }
        if !digit(c) {
            return (2, c);
        }
        cursor.next();
    }
}

/// Scans a number (see `scan_number`).
fn read_number(cursor: &mut CharCursor) -> (r: (u8, char))
    requires
        old(cursor).wf(),
    ensures
        final(cursor).wf(),
        final(cursor).text() == old(cursor).text(),
        (r.0 as int, r.1, final(cursor).at()) == scan_number(old(cursor).text(), old(cursor).at()),
{
    let ghost cs = cursor.text();
    loop
        invariant
            cursor.wf(),
            cursor.text() == cs,
            cs == old(cursor).text(),
            scan_number(cs, cursor.at()) == scan_number(cs, old(cursor).at()),
        decreases cs.len() - cursor.at().0,
    {
        let c = cursor.current().1;
        if c == '.' {
            cursor.next();
            return read_decimal(cursor);
        }
        if white_space(c) {
            return (0, c);
        }
        if !digit(c) {
            return (1, c);
        }
        cursor.next();
    }
}

/// The text between `start` and `end` without trailing white space.
fn trimmed(cursor: &CharCursor, start: usize, end: usize) -> (r: String)
    requires
        cursor.wf(),
        start <= end <= cursor.text().len(),
    ensures
        r@ == trim_end(cursor.text().subrange(start as int, end as int)),
{
    let ghost cs = cursor.text();
    let mut e = end;
    while e > start && white_space(cursor.chars[e - 1])
        invariant
            cursor.wf(),
            cs == cursor.text(),
            start <= e <= end <= cs.len(),
            trim_end(cs.subrange(start as int, e as int)) == trim_end(
                cs.subrange(start as int, end as int),
            ),
        decreases e,
    {
        assert(cs.subrange(start as int, e as int).drop_last() =~= cs.subrange(
            start as int,
            e - 1,
        ));
        e -= 1;
    }
    cursor.slice(start, e)
}

fn error_at(cursor: &CharCursor, desc: String) -> (r: ParseError)
    ensures
        error_view(r) == (cursor.at().1, cursor.at().2, desc@),
{
    cursor.err(desc)
}

/// Reads a value for the setting `name` (see `parse_value`).
fn read_value(cursor: &mut CharCursor, name: &String) -> (r: (Field, Option<ParseError>))
    requires
        old(cursor).wf(),
    ensures
        final(cursor).wf(),
        final(cursor).text() == old(cursor).text(),
        (field_view(r.0), final(cursor).at(), match r.1 {
            Some(e) => Some(error_view(e)),
            None => None,
        }) == parse_value(old(cursor).text(), old(cursor).at(), name@),
{
    let ghost cs = cursor.text();
    let (start, c) = cursor.current();
    if c == '"' {
        cursor.next();
        let mut text = String::new();
        let (outcome, bad) = read_string(cursor, &mut text);
        if outcome == 0 {
            (Field::String(text), None)
        } else if outcome == 1 {
            let e = error_at(cursor, message_char("Unknown escape sequence '\\", bad, "'."));
            (Field::ParseError, Some(e))
        } else {
            let e = error_at(cursor, message("Unclosed string."));
            (Field::ParseError, Some(e))
        }
    } else if c == '\n' || c == '\0' {
        let e = error_at(cursor, message_text("Expected value assignment to '", name, "'."));
        (Field::ParseError, Some(e))
    } else if !digit(c) && c != '.' {
        cursor.consume_until('\n');
        proof {
            lemma_skip_until(cs, old(cursor).at(), '\n');
        }
        let end = cursor.current().0;
        let text = trimmed(cursor, start, end);
        let e = error_at(
            cursor,
            message_text("Expected a number or a string while parsing a value, found '", &text, "'."),
        );
        (Field::ParseError, Some(e))
    } else {
        let (outcome, bad) = read_number(cursor);
        proof {
            lemma_scan_number(cs, old(cursor).at());
        }
        if outcome == 0 {
            let end = cursor.current().0;
            (Field::Number(cursor.slice(start, end)), None)
        } else if outcome == 1 {
            let e = error_at(
                cursor,
                message_char("Expected an ascii digit or '.' while parsing a number, found '", bad, "'."),
            );
            (Field::ParseError, Some(e))
        } else {
            let e = error_at(
                cursor,
                message_char(
                    "Expected an ascii digit while parsing the decimal part of a number, found '",
                    bad,
                    "'.",
                ),
            );
            (Field::ParseError, Some(e))
        }
    }
}

fn set_field(fields: &mut Vec<(String, Field)>, name: String, value: Field)
    ensures
        fields_view(final(fields)@) == insert_field(
            fields_view(old(fields)@),
            name@,
            field_view(value),
        ),
{
    let ghost fv = fields_view(fields@);
    let mut i: usize = 0;
    while i < fields.len()
        invariant
            i <= fields@.len(),
            fields@ == old(fields)@,
            fv == fields_view(fields@),
            key_from(fv, name@, i as int) == key_from(fv, name@, 0),
        decreases fields@.len() - i,
    {
        if fields[i].0 == name {
            let _ = fields.remove(i);
            fields.insert(i, (name, value));
            assert(fields_view(fields@) =~= fv.update(i as int, (name@, field_view(value))));
            return ;
        }
        i += 1;
    }
    fields.push((name, value));
    assert(fields_view(fields@) =~= fv.push((name@, field_view(value))));
}

/// Why settings could not be written out.
#[derive(Clone, Debug)]
pub enum SerializeError {
    /// The named setting holds a value that could not be read.
    InvalidField { field_name: String },
}

/// The text of the settings from entry `i` on, after `acc`: one
/// `name = value` line per entry, a string in quotes and a number as
/// written; or the name of the first entry whose value could not be read.
pub open spec fn serialize_from(
    entries: Seq<(Seq<char>, (int, Seq<char>))>,
    i: int,
    acc: Seq<char>,
) -> Result<Seq<char>, Seq<char>>
    decreases entries.len() - i,
{
    if i < 0 || i >= entries.len() {
        Ok(acc)
    } else {
        let (name, v) = entries[i];
        if v.0 == 0 {
            serialize_from(entries, i + 1, acc + name + " = \""@ + v.1 + "\"\n"@)
        } else if v.0 == 1 {
            serialize_from(entries, i + 1, acc + name + " = "@ + v.1 + "\n"@)
        } else {
            Err(name)
        }
    }
}

/// Settings read from text: each name with its value, in the order the
/// names were first set.
pub struct Settings {
    fields: Vec<(String, Field)>,
}

impl Settings {
    /// The names and values, in order.
    pub closed spec fn entries(&self) -> Seq<(Seq<char>, (int, Seq<char>))> {
        fields_view(self.fields@)
    }

    /// Reads settings from `string`, and lists the errors met on the way.
    pub fn new(string: &str) -> (r: (Settings, Vec<ParseError>))
        ensures
            (r.0.entries(), errors_view(r.1@)) == parse_settings(string@),
    {
        let ghost cs = string@;
        let mut fields: Vec<(String, Field)> = Vec::new();
        let mut errors: Vec<ParseError> = Vec::new();
        let mut cursor = CharCursor::new(string);
        assert(fields_view(fields@) =~= Seq::empty());
        assert(errors_view(errors@) =~= Seq::empty());
        loop
            invariant
                cursor.wf(),
                cursor.text() == cs,
                cs == string@,
                parse_from(cs, cursor.at(), fields_view(fields@), errors_view(errors@))
                    == parse_settings(cs),
            decreases cs.len() - cursor.at().0,
        {
            let ghost p = cursor.at();
            let ghost fv = fields_view(fields@);
            let ghost ev = errors_view(errors@);
            cursor.consume_whitespace();
            proof {
                lemma_skip_ws(cs, p);
            }
            let ghost s = cursor.at();
            let (name_start, c) = cursor.current();
            if c == '\0' {
                return (Settings { fields }, errors);
            }
            if c == '#' {
                cursor.consume_until('\n');
                proof {
                    lemma_skip_until(cs, advance(cs, s), '\n');
                    assert(skip_until(cs, s, '\n') == skip_until(cs, advance(cs, s), '\n'));
                }
                continue;
            }
            let name_line = cursor.line();
            let name_col = cursor.col();
            let (found, name_end) = read_name(&mut cursor);
            proof {
                lemma_scan_name(cs, s, s.0);
                lemma_scan_name(cs, advance(cs, s), s.0 + 1);
                lemma_scan_name(cs, advance(cs, s), s.0);
                if c != '=' {
                    assert(scan_name(cs, s, s.0) == scan_name(cs, advance(cs, s), s.0 + 1));
                }
            }
            if !found {
                let e = error_at(
                    &cursor,
                    message("Unexpected end of statement, maybe missing a '=' or comment with '#'"),
                );
                errors.push(e);
                assert(errors_view(errors@) =~= ev.push(error_view(e)));
                cursor.next();
                continue;
            }
            let ghost raw = cs.subrange(name_start as int, name_end as int);
            let bad = find_bad_name_char(&cursor, name_start, name_end);
            let valid = bad == name_end;
            let name = if valid {
                cursor.slice(name_start, name_end)
            } else {
                String::new()
            };
            if !valid {
                assert(raw[bad - name_start] == cs[bad as int]);
                let e = ParseError {
                    line: name_line,
                    col: name_col,
                    desc: message_char(
                        "Encountered unexpected character '",
                        cursor.chars[bad],
                        "' while matching a name.",
                    ),
                };
                errors.push(e);
                assert(errors_view(errors@) =~= ev.push(error_view(e)));
            }
            let ghost ev1 = errors_view(errors@);
            cursor.next();
            proof {
                lemma_advance(cs, cursor.at());
            }
            let ghost after_eq = cursor.at();
            cursor.consume_whitespace();
            proof {
                lemma_skip_ws(cs, after_eq);
            }
            let ghost vstart = cursor.at();
            let (value, err) = read_value(&mut cursor, &name);
            proof {
                lemma_parse_value(cs, vstart, name@);
            }
            match err {
                Some(e) => {
                    errors.push(e);
                    assert(errors_view(errors@) =~= ev1.push(error_view(e)));
                },
                None => {},
            }
            if valid {
                set_field(&mut fields, name, value);
            }
        }
    }

    /// The value of `name`, if it is set.
    pub fn get_field(&self, name: &str) -> (r: Option<&Field>)
        ensures
            r.is_some() <==> key_from(self.entries(), name@, 0) < self.entries().len(),
            r.is_some() ==> field_view(*r.unwrap()) == self.entries()[key_from(
                self.entries(),
                name@,
                0,
            )].1,
    {
        let ghost fv = self.entries();
        let key = name.to_owned();
        let mut i: usize = 0;
        while i < self.fields.len()
            invariant
                i <= self.fields@.len(),
                fv == self.entries(),
                fv.len() == self.fields@.len(),
                key@ == name@,
                key_from(fv, name@, i as int) == key_from(fv, name@, 0),
            decreases self.fields@.len() - i,
        {
            if self.fields[i].0 == key {
                return Some(&self.fields[i].1);
            }
            i += 1;
        }
        None
    }

    /// Sets `name` to `field`, replacing its value if it is set.
    pub fn set(&mut self, name: &str, field: Field)
        ensures
            final(self).entries() == insert_field(old(self).entries(), name@, field_view(field)),
    {
        set_field(&mut self.fields, name.to_owned(), field);
    }

    /// Writes the settings out as text that reads back to the same values.
    pub fn serialize(&self) -> (r: Result<String, SerializeError>)
        ensures
            match r {
                Ok(s) => serialize_from(self.entries(), 0, Seq::empty()) == Ok::<
                    Seq<char>,
                    Seq<char>,
                >(s@),
                Err(SerializeError::InvalidField { field_name }) => serialize_from(
                    self.entries(),
                    0,
                    Seq::empty(),
                ) == Err::<Seq<char>, Seq<char>>(field_name@),
            },
    {
        let ghost fv = self.entries();
        let mut out = String::new();
        let mut i: usize = 0;
        while i < self.fields.len()
            invariant
                i <= self.fields@.len(),
                fv == self.entries(),
                fv.len() == self.fields@.len(),
                serialize_from(fv, i as int, out@) == serialize_from(fv, 0, Seq::empty()),
            decreases self.fields@.len() - i,
        {
            let ghost before = out@;
            let name = &self.fields[i].0;
            match &self.fields[i].1 {
                Field::String(text) => {
                    push_str(&mut out, name.as_str());
                    push_str(&mut out, " = \"");
                    push_str(&mut out, text.as_str());
                    push_str(&mut out, "\"\n");
                    assert(out@ =~= before + name@ + " = \""@ + text@ + "\"\n"@);
                },
                Field::Number(text) => {
                    push_str(&mut out, name.as_str());
                    push_str(&mut out, " = ");
                    push_str(&mut out, text.as_str());
                    push_str(&mut out, "\n");
                    assert(out@ =~= before + name@ + " = "@ + text@ + "\n"@);
                },
                Field::ParseError => {
                    return Err(SerializeError::InvalidField { field_name: name.clone() });
                },
            }
            i += 1;
        }
        Ok(out)
    }
}

} // verus!
