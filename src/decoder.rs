//! TOON text to value tree.

use vstd::prelude::*;
use crate::common::Delimiter;
use crate::error::{DecodeError, DecodeFault};
use crate::text::{
    all_digits, chars_of, digits_value, find_char, find_spec, is_float_literal,
    leading_ws_byte_count, leading_ws_bytes, lemma_digits_value_prefix, parse_i64,
    parse_i64_spec, slice_of, starts_with_spec, string_from_chars, trim, trim_spec, eq_chars,
};
use crate::value::{Json, Number, NumberModel, Value};

verus! {

broadcast use vstd::string::group_string_axioms;

/// Decoder configuration.
#[derive(Debug, Clone, Copy)]
pub struct DecoderOptions {
    /// Spaces per indentation level.
    pub indent: usize,
    /// Enforce indentation multiples, declared counts and escape validity.
    pub strict: bool,
}

impl Default for DecoderOptions {
    fn default() -> (r: Self)
        ensures
            r.indent == 2,
            r.strict,
    {
        DecoderOptions { indent: 2, strict: true }
    }
}

/// A non-blank input line: its trimmed text, nesting depth and 1-based number.
pub struct LineModel {
    pub content: Seq<char>,
    pub depth: int,
    pub line_num: int,
}

pub struct Line {
    pub content: Vec<char>,
    pub depth: usize,
    pub line_num: usize,
}

impl View for Line {
    type V = LineModel;

    open spec fn view(&self) -> LineModel {
        LineModel { content: self.content@, depth: self.depth as int, line_num: self.line_num as int }
    }
}

pub open spec fn lines_view(v: Seq<Line>) -> Seq<LineModel> {
    Seq::new(v.len(), |i: int| v[i]@)
}

pub open spec fn texts_view(v: Seq<Vec<char>>) -> Seq<Seq<char>> {
    Seq::new(v.len(), |i: int| v[i]@)
}

pub open spec fn values_view(v: Seq<Value>) -> Seq<Json> {
    Seq::new(v.len(), |i: int| v[i]@)
}

pub open spec fn fields_view(v: Seq<(String, Value)>) -> Seq<(Seq<char>, Json)> {
    Seq::new(v.len(), |i: int| (v[i].0@, v[i].1@))
}

pub open spec fn result_view<T: View>(r: Result<T, DecodeError>) -> Result<T::V, DecodeFault> {
    match r {
        Ok(v) => Ok(v@),
        Err(e) => Err(e@),
    }
}

// ---------------------------------------------------------------------------
// Line preprocessing

/// What one physical line (the `k`-th, from 0) contributes: nothing when blank,
/// else a logical line or an indentation error.
pub open spec fn piece_line(piece: Seq<char>, k: int, indent: int, strict: bool) -> Option<
    Result<LineModel, DecodeFault>,
> {
    let lead = leading_ws_bytes(piece) as int;
    if trim_spec(piece).len() == 0 {
        None
    } else if strict && lead % indent != 0 {
        Some(Err(DecodeFault::InvalidIndentation { line: k + 1 }))
    } else {
        Some(Ok(LineModel { content: trim_spec(piece), depth: lead / indent, line_num: k + 1 }))
    }
}

/// Logical lines of `s` from index `i`, where `cur` is the current physical
/// line so far, `k` its index and `acc` the logical lines before it.
pub open spec fn scan_lines(
    s: Seq<char>,
    i: int,
    cur: Seq<char>,
    k: int,
    acc: Seq<LineModel>,
    indent: int,
    strict: bool,
) -> Result<Seq<LineModel>, DecodeFault>
    decreases s.len() - i,
{
    if i >= s.len() || i < 0 {
        match piece_line(cur, k, indent, strict) {
            None => Ok(acc),
            Some(Err(e)) => Err(e),
            Some(Ok(l)) => Ok(acc.push(l)),
        }
    } else if s[i] == '\n' {
        match piece_line(cur, k, indent, strict) {
            None => scan_lines(s, i + 1, Seq::empty(), k + 1, acc, indent, strict),
            Some(Err(e)) => Err(e),
            Some(Ok(l)) => scan_lines(s, i + 1, Seq::empty(), k + 1, acc.push(l), indent, strict),
        }
    } else {
        scan_lines(s, i + 1, cur.push(s[i]), k, acc, indent, strict)
    }
}

/// The logical lines of a text: physical lines split at `\n`, blank ones dropped.
pub open spec fn lines_spec(s: Seq<char>, indent: int, strict: bool) -> Result<
    Seq<LineModel>,
    DecodeFault,
> {
    scan_lines(s, 0, Seq::empty(), 0, Seq::empty(), indent, strict)
}

// ---------------------------------------------------------------------------
// Escapes and primitives

pub enum EscapeFault {
    Unknown(char),
    Unterminated,
}

/// The character that `\c` stands for.
pub open spec fn escape_target(c: char) -> Option<char> {
    if c == '\\' {
        Some('\\')
    } else if c == '"' {
        Some('"')
    } else if c == 'n' {
        Some('\n')
    } else if c == 'r' {
        Some('\r')
    } else if c == 't' {
        Some('\t')
    } else {
        None
    }
}

pub open spec fn prepend(p: Seq<char>, r: Result<Seq<char>, EscapeFault>) -> Result<
    Seq<char>,
    EscapeFault,
> {
    match r {
        Ok(t) => Ok(p + t),
        Err(e) => Err(e),
    }
}

/// The content of a quoted string with its escapes resolved.
pub open spec fn unescape_spec(s: Seq<char>, strict: bool) -> Result<Seq<char>, EscapeFault>
    decreases s.len(),
{
    if s.len() == 0 {
        Ok(Seq::empty())
    } else if s[0] != '\\' {
        prepend(seq![s[0]], unescape_spec(s.drop_first(), strict))
    } else if s.len() == 1 {
        if strict {
            Err(EscapeFault::Unterminated)
        } else {
            Ok(seq!['\\'])
        }
    } else {
        let rest = unescape_spec(s.subrange(2, s.len() as int), strict);
        match escape_target(s[1]) {
            Some(x) => prepend(seq![x], rest),
            None => if strict {
                Err(EscapeFault::Unknown(s[1]))
            } else {
                prepend(seq!['\\', s[1]], rest)
            },
        }
    }
}

pub open spec fn is_quoted(t: Seq<char>) -> bool {
    t.len() >= 2 && t[0] == '"' && t.last() == '"'
}

pub open spec fn quote_inner(t: Seq<char>) -> Seq<char> {
    t.subrange(1, t.len() - 1)
}

/// How an escape error is reported.
pub open spec fn escape_fault(f: EscapeFault, line: int) -> DecodeFault {
    match f {
        EscapeFault::Unknown(c) => DecodeFault::InvalidEscapeSequence {
            line,
            sequence: if (c as u32) < 0x80 {
                seq![c]
            } else {
                seq![c] + " (non-ASCII character in escape)"@
            },
        },
        EscapeFault::Unterminated => DecodeFault::ParseError("Unterminated escape sequence"@),
    }
}

/// A possibly quoted text: trimmed, and unescaped when quoted.
pub open spec fn unquote_spec(s: Seq<char>, strict: bool, line: int) -> Result<
    Seq<char>,
    DecodeFault,
> {
    let t = trim_spec(s);
    if is_quoted(t) {
        match unescape_spec(quote_inner(t), strict) {
            Ok(u) => Ok(u),
            Err(f) => Err(escape_fault(f, line)),
        }
    } else {
        Ok(t)
    }
}

/// The leading-zero guard: only these tokens may be read as numbers.
pub open spec fn number_guard(t: Seq<char>) -> bool {
    (t.len() > 0 && t[0] != '0') || t == seq!['0'] || starts_with_spec(t, seq!['0', '.'])
        || starts_with_spec(t, seq!['-', '0'])
}

/// The canonical text of the finite double that a token denotes, if the token
/// reads as one.
pub uninterp spec fn float_text_of(s: Seq<char>) -> Option<Seq<char>>;

/// The value of a scalar token.
pub open spec fn primitive_spec(s: Seq<char>, strict: bool, line: int) -> Result<Json, DecodeFault> {
    let t = trim_spec(s);
    if is_quoted(t) {
        match unescape_spec(quote_inner(t), strict) {
            Ok(u) => Ok(Json::Str(u)),
            Err(f) => Err(escape_fault(f, line)),
        }
    } else if t == seq!['t', 'r', 'u', 'e'] {
        Ok(Json::Bool(true))
    } else if t == seq!['f', 'a', 'l', 's', 'e'] {
        Ok(Json::Bool(false))
    } else if t == seq!['n', 'u', 'l', 'l'] {
        Ok(Json::Null)
    } else if number_guard(t) && parse_i64_spec(t).is_some() {
        Ok(Json::Num(NumberModel::Int(parse_i64_spec(t).unwrap())))
    } else if number_guard(t) && is_float_literal(t) && float_text_of(t).is_some() {
        Ok(Json::Num(NumberModel::Float(float_text_of(t).unwrap())))
    } else {
        Ok(Json::Str(t))
    }
}

/// Relies on `str::parse` into a double and on `serde_json::Number::from_f64`,
/// which takes finite values only; the text is that number as serde_json
/// writes it. Parsing succeeds only on the grammar that the documentation of
/// `f64`'s `FromStr` gives.
#[verifier::external_body]
fn finite_float_text(s: &Vec<char>) -> (r: Option<String>)
    ensures
        r.is_some() == float_text_of(s@).is_some(),
        r.is_some() ==> r.unwrap()@ == float_text_of(s@).unwrap(),
        r.is_some() ==> is_float_literal(s@),
{
    let t: String = s.iter().collect();
    t.parse().ok().and_then(serde_json::Number::from_f64).map(|n| n.to_string())
}

// ---------------------------------------------------------------------------
// Keys, colons and delimiters

/// Index of the first colon outside quotes, scanning from `i`; inside quotes a
/// backslash takes the next character with it.
pub open spec fn colon_scan(s: Seq<char>, i: int, in_q: bool) -> Option<int>
    decreases s.len() + 1 - i,
{
    if i < 0 || i >= s.len() {
        None
    } else if s[i] == '"' {
        colon_scan(s, i + 1, !in_q)
    } else if s[i] == '\\' && in_q {
        colon_scan(s, i + 2, in_q)
    } else if s[i] == ':' && !in_q {
        Some(i)
    } else {
        colon_scan(s, i + 1, in_q)
    }
}

/// A `key: value` line split at its first unquoted colon, the key unquoted.
pub open spec fn key_value_spec(s: Seq<char>, strict: bool, line: int) -> Result<
    Option<(Seq<char>, Seq<char>)>,
    DecodeFault,
> {
    match colon_scan(s, 0, false) {
        None => Ok(None),
        Some(p) => match unquote_spec(trim_spec(s.subrange(0, p)), strict, line) {
            Ok(k) => Ok(Some((k, trim_spec(s.subrange(p + 1, s.len() as int))))),
            Err(e) => Err(e),
        },
    }
}

/// Whether the key of a `key: value` line was written without quotes.
pub open spec fn key_is_bare(line: Seq<char>) -> bool {
    match colon_scan(line, 0, false) {
        Some(p) => !is_quoted(trim_spec(line.subrange(0, p))),
        None => true,
    }
}

/// Whether a colon stands outside quotes, scanning from `i`.
pub open spec fn has_colon_scan(s: Seq<char>, i: int, in_q: bool) -> bool
    decreases s.len() + 1 - i,
{
    if i < 0 || i >= s.len() {
        false
    } else if s[i] == '"' {
        has_colon_scan(s, i + 1, !in_q)
    } else if s[i] == '\\' && in_q {
        has_colon_scan(s, i + 2, in_q)
    } else if s[i] == ':' && !in_q {
        true
    } else {
        has_colon_scan(s, i + 1, in_q)
    }
}

/// Cells of `s` from index `i`: `cur` is the cell so far, `acc` the cells
/// before it. Delimiters inside quotes, and characters after a backslash inside
/// quotes, do not split.
pub open spec fn split_scan(
    s: Seq<char>,
    i: int,
    in_q: bool,
    cur: Seq<char>,
    acc: Seq<Seq<char>>,
    d: char,
) -> Seq<Seq<char>>
    decreases s.len() - i,
{
    if i < 0 || i >= s.len() {
        acc.push(trim_spec(cur))
    } else if s[i] == '"' {
        split_scan(s, i + 1, !in_q, cur.push(s[i]), acc, d)
    } else if s[i] == '\\' && in_q {
        if i + 1 < s.len() {
            split_scan(s, i + 2, in_q, cur.push(s[i]).push(s[i + 1]), acc, d)
        } else {
            split_scan(s, i + 1, in_q, cur.push(s[i]), acc, d)
        }
    } else if s[i] == d && !in_q {
        split_scan(s, i + 1, in_q, Seq::empty(), acc.push(trim_spec(cur)), d)
    } else {
        split_scan(s, i + 1, in_q, cur.push(s[i]), acc, d)
    }
}

/// The trimmed cells of a delimited row.
pub open spec fn split_spec(s: Seq<char>, d: char) -> Seq<Seq<char>> {
    split_scan(s, 0, false, Seq::empty(), Seq::empty(), d)
}

// ---------------------------------------------------------------------------
// Array headers

/// What `usize`'s `FromStr` accepts: an optional `+`, then digits, in range.
pub open spec fn parse_usize_spec(s: Seq<char>) -> Option<int> {
    let d = if s.len() > 0 && s[0] == '+' {
        s.drop_first()
    } else {
        s
    };
    if d.len() > 0 && all_digits(d) && digits_value(d) <= usize::MAX {
        Some(digits_value(d))
    } else {
        None
    }
}

/// Field names from index `i` unquoted, `acc` holding those before.
pub open spec fn unquote_from(fs: Seq<Seq<char>>, i: int, acc: Seq<Seq<char>>, strict: bool, line: int) -> Result<
    Seq<Seq<char>>,
    DecodeFault,
>
    decreases fs.len() - i,
{
    if i < 0 || i >= fs.len() {
        Ok(acc)
    } else {
        match unquote_spec(fs[i], strict, line) {
            Ok(k) => unquote_from(fs, i + 1, acc.push(k), strict, line),
            Err(e) => Err(e),
        }
    }
}

/// Index of the first `[` outside quotes, scanning from `i`; inside quotes a
/// backslash takes the next character with it.
pub open spec fn bracket_scan(s: Seq<char>, i: int, in_q: bool) -> Option<int>
    decreases s.len() + 1 - i,
{
    if i < 0 || i >= s.len() {
        None
    } else if s[i] == '"' {
        bracket_scan(s, i + 1, !in_q)
    } else if s[i] == '\\' && in_q {
        bracket_scan(s, i + 2, in_q)
    } else if s[i] == '[' && !in_q {
        Some(i)
    } else {
        bracket_scan(s, i + 1, in_q)
    }
}

/// Index of the first `}` outside quotes, scanning from `i`; inside quotes a
/// backslash takes the next character with it, as in [`split_scan`].
pub open spec fn brace_scan(s: Seq<char>, i: int, in_q: bool) -> Option<int>
    decreases s.len() + 1 - i,
{
    if i < 0 || i >= s.len() {
        None
    } else if s[i] == '"' {
        brace_scan(s, i + 1, !in_q)
    } else if s[i] == '\\' && in_q {
        brace_scan(s, i + 2, in_q)
    } else if s[i] == '}' && !in_q {
        Some(i)
    } else {
        brace_scan(s, i + 1, in_q)
    }
}

pub open spec fn header_delimiter(content: Seq<char>) -> Delimiter {
    if content.len() > 0 && content.last() == '\t' {
        Delimiter::Tab
    } else if content.len() > 0 && content.last() == '|' {
        Delimiter::Pipe
    } else {
        Delimiter::Comma
    }
}

/// `[length<marker>]{fields}`: the declared length, the delimiter and the field names.
pub open spec fn header_spec(h: Seq<char>, strict: bool, line: int) -> Result<
    (int, Delimiter, Seq<Seq<char>>),
    DecodeFault,
> {
    match find_spec(h, ']') {
        None => Err(DecodeFault::InvalidArrayHeader("Missing ] in array header"@)),
        Some(b) => {
            let content = h.subrange(1, b);
            let delim = header_delimiter(content);
            let num = if delim == Delimiter::Comma {
                content
            } else {
                content.drop_last()
            };
            match parse_usize_spec(num) {
                None => Err(DecodeFault::InvalidArrayHeader("Invalid array length"@)),
                Some(n) => {
                    let after = h.subrange(b + 1, h.len() as int);
                    if after.len() > 0 && after[0] == '{' && brace_scan(after, 1, false).is_some() {
                        let fs = split_spec(
                            after.subrange(1, brace_scan(after, 1, false).unwrap()),
                            delim.char_spec(),
                        );
                        match unquote_from(fs, 0, Seq::empty(), strict, line) {
                            Ok(names) => Ok((n, delim, names)),
                            Err(e) => Err(e),
                        }
                    } else {
                        Ok((n, delim, Seq::empty()))
                    }
                },
            }
        },
    }
}

// ---------------------------------------------------------------------------
// Structure

pub type Fields = Seq<(Seq<char>, Json)>;

/// Index of the field named `k`, searching from `i`.
pub open spec fn key_index_from(o: Fields, k: Seq<char>, i: int) -> Option<int>
    decreases o.len() - i,
{
    if i < 0 || i >= o.len() {
        None
    } else if o[i].0 == k {
        Some(i)
    } else {
        key_index_from(o, k, i + 1)
    }
}

/// Sets field `k` to `v`: in place when `k` is present, else appended last.
pub open spec fn obj_insert(o: Fields, k: Seq<char>, v: Json) -> Fields {
    match key_index_from(o, k, 0) {
        Some(i) => o.update(i, (k, v)),
        None => o.push((k, v)),
    }
}

/// Reported where the cursor would move backwards; no input reaches it.
pub open spec fn cursor_fault() -> DecodeFault {
    DecodeFault::ParseError(Seq::empty())
}

/// Values of the cells from index `i`, `acc` holding those before.
pub open spec fn prims_from(vals: Seq<Seq<char>>, i: int, acc: Seq<Json>, st: bool, ln: int) -> Result<
    Seq<Json>,
    DecodeFault,
>
    decreases vals.len() - i,
{
    if i < 0 || i >= vals.len() {
        Ok(acc)
    } else {
        match primitive_spec(vals[i], st, ln) {
            Ok(v) => prims_from(vals, i + 1, acc.push(v), st, ln),
            Err(e) => Err(e),
        }
    }
}

/// An inline array: the cells of one line, counted in strict mode.
pub open spec fn inline_spec(vs: Seq<char>, delim: Delimiter, n: int, st: bool, ln: int) -> Result<
    Json,
    DecodeFault,
> {
    let vals = split_spec(vs, delim.char_spec());
    if st && vals.len() != n {
        Err(DecodeFault::ArrayLengthMismatch { expected: n, found: vals.len() as int })
    } else {
        match prims_from(vals, 0, Seq::empty(), st, ln) {
            Ok(a) => Ok(Json::Arr(a)),
            Err(e) => Err(e),
        }
    }
}

/// A tabular row zipped with the field names from index `i`; missing cells are skipped.
pub open spec fn row_spec(fields: Seq<Seq<char>>, vals: Seq<Seq<char>>, st: bool, ln: int, i: int, o: Fields) -> Result<
    Fields,
    DecodeFault,
>
    decreases fields.len() - i,
{
    if i < 0 || i >= fields.len() {
        Ok(o)
    } else if i < vals.len() {
        match primitive_spec(vals[i], st, ln) {
            Ok(v) => row_spec(fields, vals, st, ln, i + 1, obj_insert(o, fields[i], v)),
            Err(e) => Err(e),
        }
    } else {
        row_spec(fields, vals, st, ln, i + 1, o)
    }
}

pub open spec fn is_hyphen_line(c: Seq<char>) -> bool {
    c.len() >= 2 && c[0] == '-' && c[1] == ' '
}

/// What follows an array header's `]` and, when there is one, its field list.
pub open spec fn header_rest(h: Seq<char>) -> Seq<char> {
    match find_spec(h, ']') {
        None => Seq::empty(),
        Some(b) => {
            let after = h.subrange(b + 1, h.len() as int);
            if after.len() > 0 && after[0] == '{' && brace_scan(after, 1, false).is_some() {
                after.subrange(brace_scan(after, 1, false).unwrap() + 1, after.len() as int)
            } else {
                after
            }
        },
    }
}

/// Whether an array header ends in its colon.
pub open spec fn header_colon(h: Seq<char>) -> bool {
    header_rest(h).len() > 0 && header_rest(h)[0] == ':'
}

/// The text after an array header's colon, trimmed; empty when there is none.
pub open spec fn after_colon(h: Seq<char>) -> Seq<char> {
    if header_colon(h) {
        trim_spec(header_rest(h).subrange(1, header_rest(h).len() as int))
    } else {
        Seq::empty()
    }
}

/// Rows of a tabular array at depth `rd`, from line `p`.
pub open spec fn tabular_loop(
    ls: Seq<LineModel>,
    st: bool,
    p: int,
    rd: int,
    n: int,
    delim: Delimiter,
    fields: Seq<Seq<char>>,
    acc: Seq<Json>,
) -> (Result<Json, DecodeFault>, int)
    decreases ls.len() - p, 0int,
{
    if p < 0 || p > ls.len() {
        (Err(cursor_fault()), p)
    } else if p < ls.len() && ls[p].depth == rd {
        let vals = split_spec(ls[p].content, delim.char_spec());
        if st && vals.len() != fields.len() {
            (
                Err(
                    DecodeFault::RowWidthMismatch {
                        line: ls[p].line_num,
                        expected: fields.len() as int,
                        found: vals.len() as int,
                    },
                ),
                p,
            )
        } else {
            match row_spec(fields, vals, st, ls[p].line_num, 0, Seq::empty()) {
                Ok(o) => tabular_loop(ls, st, p + 1, rd, n, delim, fields, acc.push(Json::Obj(o))),
                Err(e) => (Err(e), p),
            }
        }
    } else if st && acc.len() != n {
        (Err(DecodeFault::ArrayLengthMismatch { expected: n, found: acc.len() as int }), p)
    } else {
        (Ok(Json::Arr(acc)), p)
    }
}

/// An object's fields at depth `d`, from line `p`.
pub open spec fn object_loop(ls: Seq<LineModel>, st: bool, p: int, d: int, acc: Fields) -> (
    Result<Json, DecodeFault>,
    int,
)
    decreases ls.len() - p, 0int,
{
    if p < 0 || p > ls.len() {
        (Err(cursor_fault()), p)
    } else if p == ls.len() || ls[p].depth < d {
        (Ok(Json::Obj(acc)), p)
    } else if ls[p].depth > d {
        object_loop(ls, st, p + 1, d, acc)
    } else {
        match key_value_spec(ls[p].content, st, ls[p].line_num) {
            Err(e) => (Err(e), p),
            Ok(None) => (
                Err(DecodeFault::InvalidLine { line: ls[p].line_num, content: ls[p].content }),
                p,
            ),
            Ok(Some((key, vp))) => {
                let (r, next) = field_value(
                    ls,
                    st,
                    p + 1,
                    d,
                    key,
                    vp,
                    ls[p].line_num,
                    key_is_bare(ls[p].content),
                );
                match r {
                    Err(e) => (Err(e), next),
                    Ok((k, v)) => if p < next <= ls.len() {
                        object_loop(ls, st, next, d, obj_insert(acc, k, v))
                    } else {
                        (Err(cursor_fault()), next)
                    },
                }
            },
        }
    }
}

/// The field that an object line at depth `d` opens: its name and its value.
/// A key not wholly quoted may carry an array header after its first `[`
/// outside quotes; the part before it is the (possibly quoted) name.
pub open spec fn field_value(
    ls: Seq<LineModel>,
    st: bool,
    p: int,
    d: int,
    key: Seq<char>,
    vp: Seq<char>,
    ln: int,
    bare: bool,
) -> (Result<(Seq<char>, Json), DecodeFault>, int)
    decreases ls.len() - p, 2int,
{
    if p < 0 || p > ls.len() {
        (Err(cursor_fault()), p)
    } else if bare && bracket_scan(key, 0, false).is_some() {
        let b = bracket_scan(key, 0, false).unwrap();
        let header = key.subrange(b, key.len() as int);
        let full = if vp.len() == 0 {
            header
        } else {
            header + seq![':'] + vp
        };
        let (r, next) = try_array(ls, st, p, d, full, ln);
        match r {
            Err(e) => (Err(e), next),
            Ok(None) => (
                Err(DecodeFault::InvalidArrayHeader("Invalid array header in key: "@ + key)),
                next,
            ),
            Ok(Some(v)) => match unquote_spec(key.subrange(0, b), st, ln) {
                Ok(k) => (Ok((k, v)), next),
                Err(e) => (Err(e), next),
            },
        }
    } else if vp.len() == 0 {
        if p < ls.len() && ls[p].depth > d {
            let (r, next) = object_loop(ls, st, p, d + 1, Seq::empty());
            match r {
                Err(e) => (Err(e), next),
                Ok(v) => (Ok((key, v)), next),
            }
        } else {
            (Ok((key, Json::Obj(Seq::empty()))), p)
        }
    } else {
        match primitive_spec(vp, st, ln) {
            Err(e) => (Err(e), p),
            Ok(v) => (Ok((key, v)), p),
        }
    }
}

/// An array whose header `h` stands on a line at depth `pd`: inline when values
/// follow the colon, else tabular when the header names fields, else a list.
/// `None` when `h` is no header.
pub open spec fn try_array(ls: Seq<LineModel>, st: bool, p: int, pd: int, h: Seq<char>, ln: int) -> (
    Result<Option<Json>, DecodeFault>,
    int,
)
    decreases ls.len() - p, 1int,
{
    if p < 0 || p > ls.len() {
        (Err(cursor_fault()), p)
    } else if !(h.len() > 0 && h[0] == '[') {
        (Ok(None), p)
    } else {
        match header_spec(h, st, ln) {
            Err(e) => (Err(e), p),
            Ok((n, delim, fields)) => {
                let after = after_colon(h);
                if after.len() > 0 {
                    match inline_spec(after, delim, n, st, ln) {
                        Ok(a) => (Ok(Some(a)), p),
                        Err(e) => (Err(e), p),
                    }
                } else {
                    let (r, next) = if fields.len() > 0 {
                        tabular_loop(ls, st, p, pd + 1, n, delim, fields, Seq::empty())
                    } else {
                        list_loop(ls, st, p, pd + 1, n, Seq::empty())
                    };
                    match r {
                        Ok(a) => (Ok(Some(a)), next),
                        Err(e) => (Err(e), next),
                    }
                }
            },
        }
    }
}

/// Items of a list array at depth `idp`, from line `p`.
pub open spec fn list_loop(ls: Seq<LineModel>, st: bool, p: int, idp: int, n: int, acc: Seq<Json>) -> (
    Result<Json, DecodeFault>,
    int,
)
    decreases ls.len() - p, 0int,
{
    if p < 0 || p > ls.len() {
        (Err(cursor_fault()), p)
    } else if p < ls.len() && ls[p].depth == idp && is_hyphen_line(ls[p].content) {
        let item = ls[p].content.subrange(2, ls[p].content.len() as int);
        let (r, next) = list_item_value(ls, st, p + 1, idp, item, ls[p].line_num);
        match r {
            Err(e) => (Err(e), next),
            Ok(v) => if p < next <= ls.len() {
                list_loop(ls, st, next, idp, n, acc.push(v))
            } else {
                (Err(cursor_fault()), next)
            },
        }
    } else if st && acc.len() != n {
        (Err(DecodeFault::ArrayLengthMismatch { expected: n, found: acc.len() as int }), p)
    } else {
        (Ok(Json::Arr(acc)), p)
    }
}

/// One list item, the text after its hyphen: an inline array, an object whose
/// first field stands on the hyphen line, or a scalar.
pub open spec fn list_item_value(
    ls: Seq<LineModel>,
    st: bool,
    p: int,
    idp: int,
    item: Seq<char>,
    ln: int,
) -> (Result<Json, DecodeFault>, int)
    decreases ls.len() - p, 5int,
{
    if p < 0 || p > ls.len() {
        (Err(cursor_fault()), p)
    } else if item.len() > 0 && item[0] == '[' {
        match header_spec(item, st, ln) {
            Err(e) => (Err(e), p),
            Ok((n, delim, _)) => if !header_colon(item) {
                (Ok(Json::Null), p)
            } else if after_colon(item).len() > 0 {
                (inline_spec(after_colon(item), delim, n, st, ln), p)
            } else if st && n != 0 {
                (Err(DecodeFault::ArrayLengthMismatch { expected: n, found: 0 }), p)
            } else {
                (Ok(Json::Arr(Seq::empty())), p)
            },
        }
    } else {
        match key_value_spec(item, st, ln) {
            Err(e) => (Err(e), p),
            Ok(None) => (primitive_spec(item, st, ln), p),
            Ok(Some((k, v))) => {
                let (r, next) = list_item_object(ls, st, p, k, v, idp, ln, key_is_bare(item));
                match r {
                    Err(e) => (Err(e), next),
                    Ok(o) => (Ok(Json::Obj(o)), next),
                }
            },
        }
    }
}

/// The value of a field of an object that is a list item at depth `idp`.
pub open spec fn item_field(
    ls: Seq<LineModel>,
    st: bool,
    p: int,
    idp: int,
    v: Seq<char>,
    ln: int,
) -> (Result<Json, DecodeFault>, int)
    decreases ls.len() - p, 2int,
{
    if p < 0 || p > ls.len() {
        (Err(cursor_fault()), p)
    } else if v.len() == 0 {
        if p < ls.len() && ls[p].depth > idp {
            object_loop(ls, st, p, idp + 1, Seq::empty())
        } else {
            (Ok(Json::Obj(Seq::empty())), p)
        }
    } else {
        let (r, next) = try_array(ls, st, p, idp, v, ln);
        match r {
            Err(e) => (Err(e), next),
            Ok(Some(a)) => (Ok(a), next),
            Ok(None) => (primitive_spec(v, st, ln), p),
        }
    }
}

/// An object that is a list item: its first field `k: v` on the hyphen line,
/// then the fields on the lines that follow at the same depth.
pub open spec fn list_item_object(
    ls: Seq<LineModel>,
    st: bool,
    p: int,
    k: Seq<char>,
    v: Seq<char>,
    idp: int,
    ln: int,
    bare: bool,
) -> (Result<Fields, DecodeFault>, int)
    decreases ls.len() - p, 4int,
{
    if p < 0 || p > ls.len() {
        (Err(cursor_fault()), p)
    } else {
        let (r, next) = item_entry(ls, st, p, idp, k, v, ln, bare);
        match r {
            Err(e) => (Err(e), next),
            Ok((k2, val)) => if p <= next <= ls.len() {
                item_fields_loop(ls, st, next, idp, obj_insert(Seq::empty(), k2, val))
            } else {
                (Err(cursor_fault()), next)
            },
        }
    }
}

/// A field of an object that is a list item at depth `idp`: its name and its
/// value. As at an object line, a key not wholly quoted may carry an array
/// header.
pub open spec fn item_entry(
    ls: Seq<LineModel>,
    st: bool,
    p: int,
    idp: int,
    key: Seq<char>,
    v: Seq<char>,
    ln: int,
    bare: bool,
) -> (Result<(Seq<char>, Json), DecodeFault>, int)
    decreases ls.len() - p, 3int,
{
    if p < 0 || p > ls.len() {
        (Err(cursor_fault()), p)
    } else if bare && bracket_scan(key, 0, false).is_some() {
        let b = bracket_scan(key, 0, false).unwrap();
        let header = key.subrange(b, key.len() as int);
        let full = if v.len() == 0 {
            header
        } else {
            header + seq![':'] + v
        };
        let (r, next) = try_array(ls, st, p, idp, full, ln);
        match r {
            Err(e) => (Err(e), next),
            Ok(None) => (
                Err(DecodeFault::InvalidArrayHeader("Invalid array header in key: "@ + key)),
                next,
            ),
            Ok(Some(a)) => match unquote_spec(key.subrange(0, b), st, ln) {
                Ok(k) => (Ok((k, a)), next),
                Err(e) => (Err(e), next),
            },
        }
    } else {
        let (r, next) = item_field(ls, st, p, idp, v, ln);
        match r {
            Err(e) => (Err(e), next),
            Ok(x) => (Ok((key, x)), next),
        }
    }
}

/// The further fields of a list-item object, from line `p`.
pub open spec fn item_fields_loop(ls: Seq<LineModel>, st: bool, p: int, idp: int, o: Fields) -> (
    Result<Fields, DecodeFault>,
    int,
)
    decreases ls.len() - p, 0int,
{
    if p < 0 || p > ls.len() {
        (Err(cursor_fault()), p)
    } else if p < ls.len() && ls[p].depth == idp && !is_hyphen_line(ls[p].content) {
        match key_value_spec(ls[p].content, st, ls[p].line_num) {
            Err(e) => (Err(e), p),
            Ok(None) => (Ok(o), p),
            Ok(Some((k, v))) => {
                let (r, next) = item_entry(
                    ls,
                    st,
                    p + 1,
                    idp,
                    k,
                    v,
                    ls[p].line_num,
                    key_is_bare(ls[p].content),
                );
                match r {
                    Err(e) => (Err(e), next),
                    Ok((k2, val)) => if p < next <= ls.len() {
                        item_fields_loop(ls, st, next, idp, obj_insert(o, k2, val))
                    } else {
                        (Err(cursor_fault()), next)
                    },
                }
            },
        }
    } else {
        (Ok(o), p)
    }
}

/// Whether the first line opens a root array: it starts with `[`, and holds
/// `]:` or is a header that ends in its colon.
pub open spec fn opens_root_array(c: Seq<char>) -> bool {
    c.len() > 0 && c[0] == '[' && (has_bracket_colon(c) || header_colon(c))
}

/// A root array whose header is the first line: inline when values follow
/// the colon, else tabular or a list on the lines below.
pub open spec fn root_array_spec(ls: Seq<LineModel>, st: bool) -> Result<Json, DecodeFault> {
    match header_spec(ls[0].content, st, ls[0].line_num) {
        Err(e) => Err(e),
        Ok((n, delim, fields)) => if after_colon(ls[0].content).len() > 0 {
            inline_spec(after_colon(ls[0].content), delim, n, st, ls[0].line_num)
        } else if fields.len() > 0 {
            tabular_loop(ls, st, 1, 1, n, delim, fields, Seq::empty()).0
        } else {
            list_loop(ls, st, 1, 1, n, Seq::empty()).0
        },
    }
}

/// The value tree that a sequence of logical lines denotes.
pub open spec fn decode_lines_spec(ls: Seq<LineModel>, st: bool) -> Result<Json, DecodeFault> {
    if ls.len() == 0 {
        Ok(Json::Obj(Seq::empty()))
    } else if opens_root_array(ls[0].content) {
        root_array_spec(ls, st)
    } else if ls.len() == 1 && !has_colon_scan(ls[0].content, 0, false) {
        primitive_spec(ls[0].content, st, ls[0].line_num)
    } else {
        object_loop(ls, st, 0, 0, Seq::empty()).0
    }
}

/// The value tree that a TOON text denotes.
pub open spec fn decode_spec(input: Seq<char>, indent: int, strict: bool) -> Result<Json, DecodeFault> {
    match lines_spec(input, indent, strict) {
        Err(e) => Err(e),
        Ok(ls) => decode_lines_spec(ls, strict),
    }
}

// ---------------------------------------------------------------------------
// The decoder

/// Every depth leaves room for the two levels that an array header and a list
/// item add.
pub open spec fn depths_ok(ls: Seq<LineModel>) -> bool {
    forall|i: int| 0 <= i < ls.len() ==> 0 <= #[trigger] ls[i].depth <= usize::MAX - 2
}

/// Decoding state: the logical lines, the options, and a cursor into the lines.
pub struct Decoder {
    pub lines: Vec<Line>,
    pub options: DecoderOptions,
    pub pos: usize,
}

fn piece_to_line(piece: &Vec<char>, k: usize, options: &DecoderOptions) -> (r: Option<
    Result<Line, DecodeError>,
>)
    requires
        options.indent > 0,
        k < usize::MAX,
        4 * piece@.len() <= usize::MAX,
    ensures
        match r {
            None => piece_line(piece@, k as int, options.indent as int, options.strict).is_none(),
            Some(Ok(l)) => piece_line(piece@, k as int, options.indent as int, options.strict)
                == Some(Ok::<LineModel, DecodeFault>(l@)) && l.depth <= 4 * piece@.len(),
            Some(Err(e)) => piece_line(piece@, k as int, options.indent as int, options.strict)
                == Some(Err::<LineModel, DecodeFault>(e@)),
        },
{
    let content = trim(piece);
    if content.len() == 0 {
        return None;
    }
    let lead = leading_ws_byte_count(piece);
    if options.strict && lead % options.indent != 0 {
        return Some(Err(DecodeError::InvalidIndentation { line: k + 1 }));
    }
    let depth = lead / options.indent;
    assert(depth <= lead) by (nonlinear_arith)
        requires
            depth == lead / options.indent,
            options.indent >= 1,
    ;
    Some(Ok(Line { content, depth, line_num: k + 1 }))
}

/// Whether `]:` occurs in `s`.
pub open spec fn has_bracket_colon(s: Seq<char>) -> bool {
    exists|i: int| 0 <= i && i + 1 < s.len() && s[i] == ']' && #[trigger] s[i + 1] == ':'
}

pub open spec fn text_result(r: Result<Vec<char>, DecodeError>) -> Result<Seq<char>, DecodeFault> {
    match r {
        Ok(v) => Ok(v@),
        Err(e) => Err(e@),
    }
}

fn parse_usize(s: &Vec<char>) -> (r: Option<usize>)
    ensures
        match r {
            Some(v) => parse_usize_spec(s@) == Some(v as int),
            None => parse_usize_spec(s@).is_none(),
        },
{
    let len = s.len();
    let start: usize = if len > 0 && s[0] == '+' {
        1
    } else {
        0
    };
    let ghost d = if s@.len() > 0 && s@[0] == '+' {
        s@.drop_first()
    } else {
        s@
    };
    assert(d =~= s@.subrange(start as int, len as int));
    if start >= len {
        return None;
    }
    let mut acc: usize = 0;
    let mut i: usize = start;
    while i < len
        invariant
            start <= i <= len == s@.len(),
            d == s@.subrange(start as int, len as int),
            d == (if s@.len() > 0 && s@[0] == '+' {
                s@.drop_first()
            } else {
                s@
            }),
            forall|j: int| start <= j < i ==> crate::text::is_digit(#[trigger] s@[j]),
            acc as int == digits_value(s@.subrange(start as int, i as int)),
        decreases len - i,
    {
        let c = s[i];
        if !('0' <= c && c <= '9') {
            proof {
                assert(d[i - start] == c);
                assert(!all_digits(d));
            }
            return None;
        }
        let dv = (c as u32 - '0' as u32) as usize;
        proof {
            assert(s@.subrange(start as int, i + 1).drop_last() =~= s@.subrange(start as int, i as int));
            assert(digits_value(s@.subrange(start as int, i + 1)) == acc * 10 + dv);
        }
        if acc > (usize::MAX - dv) / 10 {
            proof {
                assert(acc * 10 + dv > usize::MAX) by (nonlinear_arith)
                    requires
                        acc > (usize::MAX - dv) / 10,
                        dv <= 9,
                ;
                assert(s@.subrange(start as int, i + 1) =~= d.subrange(0, i + 1 - start));
                if all_digits(d) {
                    lemma_digits_value_prefix(d, i + 1 - start);
                }
            }
            return None;
        }
        acc = acc * 10 + dv;
        i += 1;
    }
    proof {
        assert(all_digits(d)) by {
            assert forall|j: int| 0 <= j < d.len() implies crate::text::is_digit(#[trigger] d[j]) by {
                assert(d[j] == s@[j + start]);
            }
        }
        assert(s@.subrange(start as int, len as int) =~= d);
    }
    Some(acc)
}

/// Index of the first colon outside quotes.
fn colon_index(line: &Vec<char>) -> (r: Option<usize>)
    ensures
        match r {
            Some(c) => colon_scan(line@, 0, false) == Some(c as int) && c < line@.len(),
            None => colon_scan(line@, 0, false).is_none(),
        },
{
    let n = line.len();
    let mut in_quotes = false;
    let mut i: usize = 0;
    while i < n
        invariant
            n == line@.len(),
            colon_scan(line@, 0, false) == colon_scan(line@, i as int, in_quotes),
        decreases n + 1 - i,
    {
        let ch = line[i];
        if ch == '"' {
            in_quotes = !in_quotes;
            i += 1;
        } else if ch == '\\' && in_quotes {
            if i + 1 >= n {
                assert(colon_scan(line@, i + 2, in_quotes) is None);
                return None;
            }
            i += 2;
        } else if ch == ':' && !in_quotes {
            return Some(i);
        } else {
            i += 1;
        }
    }
    None
}

/// Whether the key of a `key: value` line was written without quotes.
fn key_is_bare_text(line: &Vec<char>) -> (r: bool)
    ensures
        r == key_is_bare(line@),
{
    match colon_index(line) {
        Some(c) => {
            let t = trim(&slice_of(line, 0, c));
            let n = t.len();
            !(n >= 2 && t[0] == '"' && t[n - 1] == '"')
        },
        None => true,
    }
}

/// What follows an array header's `]` and its field list.
fn header_rest_text(h: &Vec<char>) -> (r: Vec<char>)
    ensures
        r@ == header_rest(h@),
{
    let hl = h.len();
    match find_char(h, ']') {
        None => Vec::new(),
        Some(b) => {
            let after = slice_of(h, b + 1, hl);
            if after.len() > 0 && after[0] == '{' {
                match close_brace(&after) {
                    Some(e) => {
                        return slice_of(&after, e + 1, after.len());
                    },
                    None => {},
                }
            }
            after
        },
    }
}

/// The text after an array header's colon, trimmed, and whether the header
/// ends in a colon.
fn after_colon_text(h: &Vec<char>) -> (r: (Vec<char>, bool))
    ensures
        r.0@ == after_colon(h@),
        r.1 == header_colon(h@),
{
    let rest = header_rest_text(h);
    if rest.len() > 0 && rest[0] == ':' {
        (trim(&slice_of(&rest, 1, rest.len())), true)
    } else {
        (Vec::new(), false)
    }
}

/// Index of the first `[` outside quotes.
fn open_bracket(s: &Vec<char>) -> (r: Option<usize>)
    ensures
        match r {
            Some(c) => bracket_scan(s@, 0, false) == Some(c as int) && c < s@.len(),
            None => bracket_scan(s@, 0, false).is_none(),
        },
{
    let n = s.len();
    let mut in_q = false;
    let mut i: usize = 0;
    while i < n
        invariant
            n == s@.len(),
            bracket_scan(s@, 0, false) == bracket_scan(s@, i as int, in_q),
        decreases n + 1 - i,
    {
        let c = s[i];
        if c == '"' {
            in_q = !in_q;
            i += 1;
        } else if c == '\\' && in_q {
            if i + 1 >= n {
                assert(bracket_scan(s@, i + 2, in_q) is None);
                return None;
            }
            i += 2;
        } else if c == '[' && !in_q {
            return Some(i);
        } else {
            i += 1;
        }
    }
    None
}

/// Index of the `}` that closes a field list opened at index 0.
fn close_brace(s: &Vec<char>) -> (r: Option<usize>)
    ensures
        match r {
            Some(c) => brace_scan(s@, 1, false) == Some(c as int) && 1 <= c < s@.len(),
            None => brace_scan(s@, 1, false).is_none(),
        },
{
    let n = s.len();
    let mut in_q = false;
    let mut i: usize = 1;
    while i < n
        invariant
            1 <= i,
            n == s@.len(),
            brace_scan(s@, 1, false) == brace_scan(s@, i as int, in_q),
        decreases n + 1 - i,
    {
        let c = s[i];
        if c == '"' {
            in_q = !in_q;
            i += 1;
        } else if c == '\\' && in_q {
            if i + 1 >= n {
                assert(brace_scan(s@, i + 2, in_q) is None);
                return None;
            }
            i += 2;
        } else if c == '}' && !in_q {
            return Some(i);
        } else {
            i += 1;
        }
    }
    None
}

impl Decoder {
    /// Splits the input into logical lines.
    pub fn parse_lines(input: &Vec<char>, options: &DecoderOptions) -> (r: Result<
        Vec<Line>,
        DecodeError,
    >)
        requires
            options.indent > 0,
            4 * input@.len() <= isize::MAX,
        ensures
            match r {
                Ok(ls) => lines_spec(input@, options.indent as int, options.strict) == Ok::<
                    Seq<LineModel>,
                    DecodeFault,
                >(lines_view(ls@)) && depths_ok(lines_view(ls@)),
                Err(e) => lines_spec(input@, options.indent as int, options.strict) == Err::<
                    Seq<LineModel>,
                    DecodeFault,
                >(e@),
            },
    {
        let ghost ind = options.indent as int;
        let ghost st = options.strict;
        let len = input.len();
        let mut acc: Vec<Line> = Vec::new();
        let mut cur: Vec<char> = Vec::new();
        let mut k: usize = 0;
        let mut i: usize = 0;
        assert(lines_view(acc@) =~= Seq::<LineModel>::empty());
        while i < len
            invariant
                i <= len == input@.len(),
                k <= i,
                cur@.len() <= i,
                4 * len <= isize::MAX,
                options.indent > 0,
                ind == options.indent as int,
                forall|j: int| 0 <= j < acc@.len() ==> acc@[j].depth <= 4 * len,
                st == options.strict,
                lines_spec(input@, ind, st) == scan_lines(
                    input@,
                    i as int,
                    cur@,
                    k as int,
                    lines_view(acc@),
                    ind,
                    st,
                ),
            decreases len - i,
        {
            let c = input[i];
            if c == '\n' {
                match piece_to_line(&cur, k, options) {
                    None => {},
                    Some(Err(e)) => {
                        return Err(e);
                    },
                    Some(Ok(l)) => {
                        let ghost before = acc@;
                        let ghost lv = l@;
                        acc.push(l);
                        assert(lines_view(acc@) =~= lines_view(before).push(lv));
                    },
                }
                cur = Vec::new();
                k += 1;
            } else {
                cur.push(c);
            }
            i += 1;
        }
        match piece_to_line(&cur, k, options) {
            None => {
                assert(depths_ok(lines_view(acc@)));
                Ok(acc)
            },
            Some(Err(e)) => Err(e),
            Some(Ok(l)) => {
                let ghost before = acc@;
                let ghost lv = l@;
                acc.push(l);
                assert(lines_view(acc@) =~= lines_view(before).push(lv));
                assert(depths_ok(lines_view(acc@)));
                Ok(acc)
            },
        }
    }

    /// Whether the first line opens a root array: it starts with `[` and holds `]:`.
    pub fn is_root_array(&self) -> (r: bool)
        ensures
            r == (self.lines@.len() > 0 && opens_root_array(self.lines@[0].content@)),
    {
        if self.lines.len() == 0 {
            return false;
        }
        let content = &self.lines[0].content;
        if !(content.len() > 0 && content[0] == '[') {
            return false;
        }
        let n = content.len();
        let mut i: usize = 0;
        while i + 1 < n
            invariant
                self.lines@.len() > 0,
                content@ == self.lines@[0].content@,
                n == content@.len(),
                n > 0 && content@[0] == '[',
                i < n,
                forall|j: int|
                    0 <= j < i && j + 1 < content@.len() ==> !(content@[j] == ']' && #[trigger] content@[j + 1]
                        == ':'),
            decreases content@.len() - i,
        {
            if content[i] == ']' && content[i + 1] == ':' {
                proof {
                    let j = i as int;
                    assert(0 <= j && j + 1 < content@.len() && content@[j] == ']' && content@[j
                        + 1] == ':');
                    assert(has_bracket_colon(content@));
                }
                return true;
            }
            i += 1;
        }
        after_colon_text(content).1
    }

    /// Whether a line holds a colon outside quotes.
    pub fn is_key_value(&self, line: &Vec<char>) -> (r: bool)
        ensures
            r == has_colon_scan(line@, 0, false),
    {
        let n = line.len();
        let mut in_quotes = false;
        let mut i: usize = 0;
        while i < n
            invariant
                n == line@.len(),
                has_colon_scan(line@, 0, false) == has_colon_scan(line@, i as int, in_quotes),
            decreases n + 1 - i,
        {
            let ch = line[i];
            if ch == '"' {
                in_quotes = !in_quotes;
                i += 1;
            } else if ch == '\\' && in_quotes {
                if i + 1 >= n {
                    assert(!has_colon_scan(line@, i + 2, in_quotes));
                    return false;
                }
                i += 2;
            } else if ch == ':' && !in_quotes {
                return true;
            } else {
                i += 1;
            }
        }
        false
    }

    /// Resolves the escapes of a quoted string's content.
    fn unescape_inner(&self, inner: &Vec<char>, line_num: usize) -> (r: Result<Vec<char>, DecodeError>)
        ensures
            match r {
                Ok(v) => unescape_spec(inner@, self.options.strict) == Ok::<Seq<char>, EscapeFault>(v@),
                Err(e) => exists|f: EscapeFault|
                    unescape_spec(inner@, self.options.strict) == Err::<Seq<char>, EscapeFault>(f)
                        && e@ == escape_fault(f, line_num as int),
            },
    {
        let strict = self.options.strict;
        let len = inner.len();
        let mut result: Vec<char> = Vec::new();
        let mut i: usize = 0;
        proof {
            assert(inner@.subrange(0, len as int) =~= inner@);
            match unescape_spec(inner@, strict) {
                Ok(t) => {
                    assert(result@ + t =~= t);
                },
                Err(_) => {},
            }
        }
        while i < len
            invariant
                i <= len == inner@.len(),
                strict == self.options.strict,
                unescape_spec(inner@, strict) == prepend(
                    result@,
                    unescape_spec(inner@.subrange(i as int, len as int), strict),
                ),
            decreases len - i,
        {
            let ghost rest = inner@.subrange(i as int, len as int);
            let ch = inner[i];
            if ch != '\\' {
                proof {
                    assert(rest.drop_first() =~= inner@.subrange(i + 1, len as int));
                    assert(result@.push(ch) =~= result@ + seq![ch]);
                    match unescape_spec(rest.drop_first(), strict) {
                        Ok(t) => {
                            assert(result@ + (seq![ch] + t) =~= result@.push(ch) + t);
                        },
                        Err(_) => {},
                    }
                }
                result.push(ch);
                i += 1;
            } else if i + 1 >= len {
                if strict {
                    let e = DecodeError::ParseError("Unterminated escape sequence".to_string());
                    proof {
                        assert(rest.len() == 1 && rest[0] == '\\');
                        assert(unescape_spec(rest, strict) == Err::<Seq<char>, EscapeFault>(
                            EscapeFault::Unterminated,
                        ));
                        assert(e@ == escape_fault(EscapeFault::Unterminated, line_num as int));
                    }
                    return Err(e);
                }
                proof {
                    assert(result@.push('\\') + Seq::<char>::empty() =~= result@ + seq!['\\']);
                    assert(inner@.subrange(len as int, len as int) =~= Seq::<char>::empty());
                }
                result.push('\\');
                i += 1;
            } else {
                let next = inner[i + 1];
                proof {
                    assert(rest.subrange(2, rest.len() as int) =~= inner@.subrange(i + 2, len as int));
                    assert(rest[1] == next);
                }
                let target: Option<char> = if next == '\\' {
                    Some('\\')
                } else if next == '"' {
                    Some('"')
                } else if next == 'n' {
                    Some('\n')
                } else if next == 'r' {
                    Some('\r')
                } else if next == 't' {
                    Some('\t')
                } else {
                    None
                };
                match target {
                    Some(x) => {
                        proof {
                            match unescape_spec(inner@.subrange(i + 2, len as int), strict) {
                                Ok(t) => {
                                    assert(result@ + (seq![x] + t) =~= result@.push(x) + t);
                                },
                                Err(_) => {},
                            }
                        }
                        result.push(x);
                    },
                    None => {
                        if strict {
                            let mut seq_text: Vec<char> = Vec::new();
                            seq_text.push(next);
                            if (next as u32) >= 0x80 {
                                let note = chars_of(" (non-ASCII character in escape)");
                                crate::text::append_chars(&mut seq_text, &note);
                            }
                            proof {
                                assert(seq_text@ =~= (if (next as u32) < 0x80 {
                                    seq![next]
                                } else {
                                    seq![next] + " (non-ASCII character in escape)"@
                                }));
                            }
                            let e = DecodeError::InvalidEscapeSequence {
                                line: line_num,
                                sequence: string_from_chars(&seq_text),
                            };
                            proof {
                                assert(escape_target(rest[1]).is_none());
                                assert(unescape_spec(rest, strict) == Err::<Seq<char>, EscapeFault>(
                                    EscapeFault::Unknown(next),
                                ));
                                assert(e@ == escape_fault(EscapeFault::Unknown(next), line_num as int));
                            }
                            return Err(e);
                        }
                        proof {
                            match unescape_spec(inner@.subrange(i + 2, len as int), strict) {
                                Ok(t) => {
                                    assert(result@ + (seq!['\\', next] + t) =~= result@.push(
                                        '\\',
                                    ).push(next) + t);
                                },
                                Err(_) => {},
                            }
                        }
                        result.push('\\');
                        result.push(next);
                    },
                }
                i += 2;
            }
        }
        proof {
            assert(inner@.subrange(len as int, len as int) =~= Seq::<char>::empty());
            assert(result@ + Seq::<char>::empty() =~= result@);
        }
        Ok(result)
    }

    /// Trims a text and, when it is quoted, unescapes its content.
    pub fn unescape_string_cow(&self, s: &Vec<char>, line_num: usize) -> (r: Result<
        Vec<char>,
        DecodeError,
    >)
        ensures
            text_result(r) == unquote_spec(s@, self.options.strict, line_num as int),
    {
        let trimmed = trim(s);
        let n = trimmed.len();
        if !(n >= 2 && trimmed[0] == '"' && trimmed[n - 1] == '"') {
            return Ok(trimmed);
        }
        let inner = slice_of(&trimmed, 1, n - 1);
        self.unescape_inner(&inner, line_num)
    }

    /// [`Self::unescape_string_cow`], as an owned string.
    pub fn unescape_string(&self, s: &Vec<char>, line_num: usize) -> (r: Result<String, DecodeError>)
        ensures
            match r {
                Ok(v) => unquote_spec(s@, self.options.strict, line_num as int) == Ok::<
                    Seq<char>,
                    DecodeFault,
                >(v@),
                Err(e) => unquote_spec(s@, self.options.strict, line_num as int) == Err::<
                    Seq<char>,
                    DecodeFault,
                >(e@),
            },
    {
        match self.unescape_string_cow(s, line_num) {
            Ok(v) => Ok(string_from_chars(&v)),
            Err(e) => Err(e),
        }
    }

    /// Splits a `key: value` line at its first unquoted colon.
    pub fn parse_key_value(&self, line: &Vec<char>, line_num: usize) -> (r: Result<
        Option<(Vec<char>, Vec<char>)>,
        DecodeError,
    >)
        ensures
            match r {
                Ok(None) => key_value_spec(line@, self.options.strict, line_num as int) == Ok::<
                    Option<(Seq<char>, Seq<char>)>,
                    DecodeFault,
                >(None),
                Ok(Some((k, v))) => key_value_spec(line@, self.options.strict, line_num as int)
                    == Ok::<Option<(Seq<char>, Seq<char>)>, DecodeFault>(Some((k@, v@))),
                Err(e) => key_value_spec(line@, self.options.strict, line_num as int) == Err::<
                    Option<(Seq<char>, Seq<char>)>,
                    DecodeFault,
                >(e@),
            },
    {
        let mut in_quotes = false;
        let n = line.len();
        let mut i: usize = 0;
        while i < n
            invariant
                n == line@.len(),
                colon_scan(line@, 0, false) == colon_scan(line@, i as int, in_quotes),
            decreases n + 1 - i,
        {
            let ch = line[i];
            if ch == '"' {
                in_quotes = !in_quotes;
                i += 1;
            } else if ch == '\\' && in_quotes {
                if i + 1 >= n {
                    assert(colon_scan(line@, i + 2, in_quotes) is None);
                    return Ok(None);
                }
                i += 2;
            } else if ch == ':' && !in_quotes {
                let key = trim(&slice_of(line, 0, i));
                let value = trim(&slice_of(line, i + 1, n));
                return match self.unescape_string_cow(&key, line_num) {
                    Ok(k) => Ok(Some((k, value))),
                    Err(e) => Err(e),
                };
            } else {
                i += 1;
            }
        }
        Ok(None)
    }

    /// Splits a row at the delimiter, outside quotes, trimming each cell.
    pub fn split_by_delimiter(&self, s: &Vec<char>, delimiter: Delimiter) -> (r: Vec<Vec<char>>)
        ensures
            texts_view(r@) == split_spec(s@, delimiter.char_spec()),
    {
        let d = delimiter.as_char();
        let len = s.len();
        let mut result: Vec<Vec<char>> = Vec::new();
        let mut current: Vec<char> = Vec::new();
        let mut in_quotes = false;
        let mut i: usize = 0;
        assert(texts_view(result@) =~= Seq::<Seq<char>>::empty());
        while i < len
            invariant
                i <= len == s@.len(),
                d == delimiter.char_spec(),
                split_spec(s@, d) == split_scan(s@, i as int, in_quotes, current@, texts_view(result@), d),
            decreases len - i,
        {
            let ch = s[i];
            if ch == '"' {
                in_quotes = !in_quotes;
                current.push(ch);
                i += 1;
            } else if ch == '\\' && in_quotes {
                current.push(ch);
                if i + 1 < len {
                    current.push(s[i + 1]);
                    i += 2;
                } else {
                    i += 1;
                }
            } else if ch == d && !in_quotes {
                let cell = trim(&current);
                let ghost before = result@;
                let ghost cv = cell@;
                result.push(cell);
                assert(texts_view(result@) =~= texts_view(before).push(cv));
                current = Vec::new();
                i += 1;
            } else {
                current.push(ch);
                i += 1;
            }
        }
        let cell = trim(&current);
        let ghost before = result@;
        let ghost cv = cell@;
        result.push(cell);
        assert(texts_view(result@) =~= texts_view(before).push(cv));
        result
    }

    /// The value of a scalar token: a quoted string, a literal, a number that
    /// passes the leading-zero guard, or else the text itself. An integer is
    /// `NegInt` only when it is negative, so a non-negative one is `PosInt`.
    pub fn parse_primitive(&self, s: &Vec<char>, line_num: usize) -> (r: Result<Value, DecodeError>)
        ensures
            result_view(r) == primitive_spec(s@, self.options.strict, line_num as int),
            match r {
                Ok(Value::Number(Number::NegInt(i))) => i < 0,
                _ => true,
            },
    {
        let t = trim(s);
        let n = t.len();
        if n >= 2 && t[0] == '"' && t[n - 1] == '"' {
            let inner = slice_of(&t, 1, n - 1);
            return match self.unescape_inner(&inner, line_num) {
                Ok(u) => Ok(Value::String(string_from_chars(&u))),
                Err(e) => Err(e),
            };
        }
        let w_true = vec!['t', 'r', 'u', 'e'];
        let w_false = vec!['f', 'a', 'l', 's', 'e'];
        let w_null = vec!['n', 'u', 'l', 'l'];
        assert(w_true@ =~= seq!['t', 'r', 'u', 'e']);
        assert(w_false@ =~= seq!['f', 'a', 'l', 's', 'e']);
        assert(w_null@ =~= seq!['n', 'u', 'l', 'l']);
        if eq_chars(&t, &w_true) {
            return Ok(Value::Bool(true));
        }
        if eq_chars(&t, &w_false) {
            return Ok(Value::Bool(false));
        }
        if eq_chars(&t, &w_null) {
            return Ok(Value::Null);
        }
        let guard = (n > 0 && t[0] != '0') || (n == 1 && t[0] == '0') || (n >= 2 && t[0] == '0'
            && t[1] == '.') || (n >= 2 && t[0] == '-' && t[1] == '0');
        proof {
            if n >= 2 {
                assert(t@.subrange(0, 2) =~= seq![t@[0], t@[1]]);
            }
            if n == 1 {
                assert(t@ =~= seq![t@[0]]);
            }
            assert(guard == number_guard(t@));
        }
        if guard {
            match parse_i64(&t) {
                Some(i) => {
                    let num = if i >= 0 {
                        Number::PosInt(i as u64)
                    } else {
                        Number::NegInt(i)
                    };
                    return Ok(Value::Number(num));
                },
                None => {},
            }
            if crate::text::is_float_literal_text(&t) {
                match finite_float_text(&t) {
                    Some(f) => {
                        return Ok(Value::Number(Number::Float(f)));
                    },
                    None => {},
                }
            }
        }
        Ok(Value::String(string_from_chars(&t)))
    }

    /// Reads an array header `[length<marker>]{fields}`: the declared length,
    /// the delimiter that the marker names, and the unquoted field names.
    pub fn parse_array_header(&self, header: &Vec<char>, line_num: usize) -> (r: Result<
        (usize, Delimiter, Vec<Vec<char>>),
        DecodeError,
    >)
        requires
            header@.len() > 0,
            header@[0] == '[',
        ensures
            match r {
                Ok((n, d, fs)) => header_spec(header@, self.options.strict, line_num as int)
                    == Ok::<(int, Delimiter, Seq<Seq<char>>), DecodeFault>(
                    (n as int, d, texts_view(fs@)),
                ),
                Err(e) => header_spec(header@, self.options.strict, line_num as int) == Err::<
                    (int, Delimiter, Seq<Seq<char>>),
                    DecodeFault,
                >(e@),
            },
    {
        let ghost strict = self.options.strict;
        let hl = header.len();
        let bracket_end = match find_char(header, ']') {
            None => {
                return Err(DecodeError::InvalidArrayHeader("Missing ] in array header".to_string()));
            },
            Some(b) => b,
        };
        let content = slice_of(header, 1, bracket_end);
        let cl = content.len();
        let delimiter = if cl > 0 && content[cl - 1] == '\t' {
            Delimiter::Tab
        } else if cl > 0 && content[cl - 1] == '|' {
            Delimiter::Pipe
        } else {
            Delimiter::Comma
        };
        let num = if delimiter == Delimiter::Comma {
            content
        } else {
            let v = slice_of(&content, 0, cl - 1);
            assert(v@ =~= content@.drop_last());
            v
        };
        let length = match parse_usize(&num) {
            None => {
                return Err(DecodeError::InvalidArrayHeader("Invalid array length".to_string()));
            },
            Some(n) => n,
        };
        let after = slice_of(header, bracket_end + 1, header.len());
        let mut fields: Vec<Vec<char>> = Vec::new();
        assert(texts_view(fields@) =~= Seq::<Seq<char>>::empty());
        if after.len() > 0 && after[0] == '{' {
            match close_brace(&after) {
                Some(close) => {
                    let fields_str = slice_of(&after, 1, close);
                    let parts = self.split_by_delimiter(&fields_str, delimiter);
                    let ghost fs = texts_view(parts@);
                    let ghost whole = match unquote_from(
                        fs,
                        0,
                        Seq::empty(),
                        strict,
                        line_num as int,
                    ) {
                        Ok(names) => Ok((length as int, delimiter, names)),
                        Err(e) => Err(e),
                    };
                    assert(header_spec(header@, strict, line_num as int) == whole);
                    let mut i: usize = 0;
                    while i < parts.len()
                        invariant
                            i <= parts@.len(),
                            fs == texts_view(parts@),
                            header_spec(header@, strict, line_num as int) == whole,
                            whole == match unquote_from(
                                fs,
                                0,
                                Seq::empty(),
                                strict,
                                line_num as int,
                            ) {
                                Ok(names) => Ok((length as int, delimiter, names)),
                                Err(e) => Err(e),
                            },
                            strict == self.options.strict,
                            unquote_from(fs, 0, Seq::empty(), strict, line_num as int)
                                == unquote_from(fs, i as int, texts_view(fields@), strict, line_num as int),
                        decreases parts@.len() - i,
                    {
                        match self.unescape_string_cow(&parts[i], line_num) {
                            Ok(k) => {
                                let ghost before = fields@;
                                let ghost kv = k@;
                                fields.push(k);
                                assert(texts_view(fields@) =~= texts_view(before).push(kv));
                            },
                            Err(e) => {
                                return Err(e);
                            },
                        }
                        i += 1;
                    }
                },
                None => {},
            }
        }
        Ok((length, delimiter, fields))
    }
}

/// The cursor only moves forward, over the same lines and options.
pub open spec fn advanced(a: Decoder, b: Decoder) -> bool {
    b.lines@ == a.lines@ && b.options == a.options && a.pos <= b.pos <= b.lines@.len()
}

pub proof fn lemma_array_view(a: Vec<Value>)
    ensures
        Value::Array(a)@ == Json::Arr(values_view(a@)),
{
    let j = Value::Array(a)@;
    assert(j is Arr);
    assert(j->Arr_0 =~= values_view(a@));
}

pub proof fn lemma_object_view(o: Vec<(String, Value)>)
    ensures
        Value::Object(o)@ == Json::Obj(fields_view(o@)),
{
    let j = Value::Object(o)@;
    assert(j is Obj);
    assert(j->Obj_0.len() == o@.len());
    assert forall|i: int| 0 <= i < o@.len() implies #[trigger] j->Obj_0[i] == fields_view(o@)[i] by {
        assert(j->Obj_0[i].0 == o@[i].0@);
        assert(j->Obj_0[i].1 == o@[i].1@);
    }
    assert(j->Obj_0 =~= fields_view(o@));
}

/// Sets field `k` to `v`: in place when present, else appended last.
fn insert_field(o: &mut Vec<(String, Value)>, k: String, v: Value)
    ensures
        fields_view(final(o)@) == obj_insert(fields_view(old(o)@), k@, v@),
{
    let ghost f = fields_view(o@);
    let mut i: usize = 0;
    while i < o.len()
        invariant
            i <= o@.len(),
            o@ == old(o)@,
            f == fields_view(o@),
            key_index_from(f, k@, 0) == key_index_from(f, k@, i as int),
        decreases o@.len() - i,
    {
        if o[i].0 == k {
            let ghost kv = k@;
            let ghost vv = v@;
            o.set(i, (k, v));
            assert(fields_view(o@) =~= f.update(i as int, (kv, vv)));
            return;
        }
        i += 1;
    }
    let ghost kv = k@;
    let ghost vv = v@;
    o.push((k, v));
    assert(fields_view(o@) =~= f.push((kv, vv)));
}

fn is_hyphen(c: &Vec<char>) -> (r: bool)
    ensures
        r == is_hyphen_line(c@),
{
    c.len() >= 2 && c[0] == '-' && c[1] == ' '
}

impl Decoder {
    pub open spec fn lv(self) -> Seq<LineModel> {
        lines_view(self.lines@)
    }

    /// Builds a decoder over the logical lines of `input`.
    pub fn new(input: &str, options: &DecoderOptions) -> (r: Result<Decoder, DecodeError>)
        requires
            options.indent > 0,
        ensures
            match r {
                Ok(d) => lines_spec(input@, options.indent as int, options.strict) == Ok::<
                    Seq<LineModel>,
                    DecodeFault,
                >(d.lv()) && d.pos == 0 && d.options == *options && depths_ok(d.lv()),
                Err(e) => lines_spec(input@, options.indent as int, options.strict) == Err::<
                    Seq<LineModel>,
                    DecodeFault,
                >(e@),
            },
    {
        let chars = chars_of(input);
        match Self::parse_lines(&chars, options) {
            Ok(lines) => Ok(Decoder { lines, options: *options, pos: 0 }),
            Err(e) => Err(e),
        }
    }

    /// An inline array: the cells of `values_str`, each a scalar.
    pub fn decode_inline_array(
        &self,
        values_str: &Vec<char>,
        delimiter: Delimiter,
        expected_len: usize,
        line_num: usize,
    ) -> (r: Result<Value, DecodeError>)
        ensures
            result_view(r) == inline_spec(
                values_str@,
                delimiter,
                expected_len as int,
                self.options.strict,
                line_num as int,
            ),
    {
        let values = self.split_by_delimiter(values_str, delimiter);
        if self.options.strict && values.len() != expected_len {
            return Err(
                DecodeError::ArrayLengthMismatch { expected: expected_len, found: values.len() },
            );
        }
        let ghost vs = texts_view(values@);
        let ghost st = self.options.strict;
        let mut arr: Vec<Value> = Vec::new();
        let mut i: usize = 0;
        assert(values_view(arr@) =~= Seq::<Json>::empty());
        while i < values.len()
            invariant
                i <= values@.len(),
                vs == texts_view(values@),
                vs == split_spec(values_str@, delimiter.char_spec()),
                !(st && vs.len() != expected_len),
                st == self.options.strict,
                prims_from(vs, 0, Seq::empty(), st, line_num as int) == prims_from(
                    vs,
                    i as int,
                    values_view(arr@),
                    st,
                    line_num as int,
                ),
            decreases values@.len() - i,
        {
            match self.parse_primitive(&values[i], line_num) {
                Ok(v) => {
                    let ghost before = arr@;
                    let ghost vv = v@;
                    arr.push(v);
                    assert(values_view(arr@) =~= values_view(before).push(vv));
                },
                Err(e) => {
                    return Err(e);
                },
            }
            i += 1;
        }
        proof {
            lemma_array_view(arr);
        }
        Ok(Value::Array(arr))
    }

    /// One tabular row: each field paired with its cell, cells past the end skipped.
    fn decode_row(&self, fields: &Vec<Vec<char>>, values: &Vec<Vec<char>>, line_num: usize) -> (r:
        Result<Vec<(String, Value)>, DecodeError>)
        ensures
            match r {
                Ok(o) => row_spec(
                    texts_view(fields@),
                    texts_view(values@),
                    self.options.strict,
                    line_num as int,
                    0,
                    Seq::empty(),
                ) == Ok::<Fields, DecodeFault>(fields_view(o@)),
                Err(e) => row_spec(
                    texts_view(fields@),
                    texts_view(values@),
                    self.options.strict,
                    line_num as int,
                    0,
                    Seq::empty(),
                ) == Err::<Fields, DecodeFault>(e@),
            },
    {
        let ghost fs = texts_view(fields@);
        let ghost vs = texts_view(values@);
        let ghost st = self.options.strict;
        let mut obj: Vec<(String, Value)> = Vec::new();
        assert(fields_view(obj@) =~= Seq::<(Seq<char>, Json)>::empty());
        let mut i: usize = 0;
        while i < fields.len()
            invariant
                i <= fields@.len(),
                fs == texts_view(fields@),
                vs == texts_view(values@),
                st == self.options.strict,
                row_spec(fs, vs, st, line_num as int, 0, Seq::empty()) == row_spec(
                    fs,
                    vs,
                    st,
                    line_num as int,
                    i as int,
                    fields_view(obj@),
                ),
            decreases fields@.len() - i,
        {
            if i < values.len() {
                match self.parse_primitive(&values[i], line_num) {
                    Ok(v) => {
                        insert_field(&mut obj, string_from_chars(&fields[i]), v);
                    },
                    Err(e) => {
                        return Err(e);
                    },
                }
            }
            i += 1;
        }
        Ok(obj)
    }

    /// A tabular array: one row per line at `row_depth`.
    pub fn decode_tabular_array(
        &mut self,
        row_depth: usize,
        expected_rows: usize,
        delimiter: Delimiter,
        fields: &Vec<Vec<char>>,
    ) -> (r: Result<Value, DecodeError>)
        requires
            old(self).pos <= old(self).lines@.len(),
        ensures
            advanced(*old(self), *final(self)),
            match r {
                Ok(v) => tabular_loop(
                    old(self).lv(),
                    old(self).options.strict,
                    old(self).pos as int,
                    row_depth as int,
                    expected_rows as int,
                    delimiter,
                    texts_view(fields@),
                    Seq::empty(),
                ) == (Ok::<Json, DecodeFault>(v@), final(self).pos as int),
                Err(e) => tabular_loop(
                    old(self).lv(),
                    old(self).options.strict,
                    old(self).pos as int,
                    row_depth as int,
                    expected_rows as int,
                    delimiter,
                    texts_view(fields@),
                    Seq::empty(),
                ).0 == Err::<Json, DecodeFault>(e@),
            },
    {
        let ghost ls = self.lv();
        let ghost st = self.options.strict;
        let ghost fs = texts_view(fields@);
        let ghost whole = tabular_loop(
            ls,
            st,
            self.pos as int,
            row_depth as int,
            expected_rows as int,
            delimiter,
            fs,
            Seq::empty(),
        );
        let mut arr: Vec<Value> = Vec::new();
        assert(values_view(arr@) =~= Seq::<Json>::empty());
        let n = self.lines.len();
        while self.pos < n && self.lines[self.pos].depth == row_depth
            invariant
                advanced(*old(self), *self),
                n == self.lines@.len(),
                ls == self.lv(),
                st == self.options.strict,
                fs == texts_view(fields@),
                whole == tabular_loop(
                    old(self).lv(),
                    old(self).options.strict,
                    old(self).pos as int,
                    row_depth as int,
                    expected_rows as int,
                    delimiter,
                    fs,
                    Seq::empty(),
                ),
                whole == tabular_loop(
                    ls,
                    st,
                    self.pos as int,
                    row_depth as int,
                    expected_rows as int,
                    delimiter,
                    fs,
                    values_view(arr@),
                ),
            decreases n - self.pos,
        {
            let line_num = self.lines[self.pos].line_num;
            let values = self.split_by_delimiter(&self.lines[self.pos].content, delimiter);
            if self.options.strict && values.len() != fields.len() {
                let err = DecodeError::RowWidthMismatch {
                    line: line_num,
                    expected: fields.len(),
                    found: values.len(),
                };
                proof {
                    let p = self.pos as int;
                    assert(ls[p].content == self.lines@[p].content@);
                    let t = tabular_loop(
                        ls,
                        st,
                        p,
                        row_depth as int,
                        expected_rows as int,
                        delimiter,
                        fs,
                        values_view(arr@),
                    );
                    assert(t.0 == Err::<Json, DecodeFault>(err@));
                    assert(whole.0 == Err::<Json, DecodeFault>(err@));
                    assert(ls == old(self).lv());
                }
                return Err(err);
            }
            match self.decode_row(fields, &values, line_num) {
                Ok(obj) => {
                    let ghost before = arr@;
                    proof {
                        lemma_object_view(obj);
                    }
                    let v = Value::Object(obj);
                    let ghost vv = v@;
                    arr.push(v);
                    assert(values_view(arr@) =~= values_view(before).push(vv));
                },
                Err(e) => {
                    return Err(e);
                },
            }
            self.pos = self.pos + 1;
        }
        if self.options.strict && arr.len() != expected_rows {
            return Err(
                DecodeError::ArrayLengthMismatch { expected: expected_rows, found: arr.len() },
            );
        }
        proof {
            lemma_array_view(arr);
        }
        Ok(Value::Array(arr))
    }

    /// A list array: one item per hyphen line at `item_depth`.
    pub fn decode_list_array(&mut self, item_depth: usize, expected_len: usize, delimiter: Delimiter) -> (r:
        Result<Value, DecodeError>)
        requires
            old(self).pos <= old(self).lines@.len(),
            depths_ok(old(self).lv()),
            item_depth <= usize::MAX - 1,
        ensures
            advanced(*old(self), *final(self)),
            match r {
                Ok(v) => list_loop(
                    old(self).lv(),
                    old(self).options.strict,
                    old(self).pos as int,
                    item_depth as int,
                    expected_len as int,
                    Seq::empty(),
                ) == (Ok::<Json, DecodeFault>(v@), final(self).pos as int),
                Err(e) => list_loop(
                    old(self).lv(),
                    old(self).options.strict,
                    old(self).pos as int,
                    item_depth as int,
                    expected_len as int,
                    Seq::empty(),
                ).0 == Err::<Json, DecodeFault>(e@),
            },
        decreases old(self).lines@.len() - old(self).pos, 0int,
    {
        let ghost ls = self.lv();
        let ghost st = self.options.strict;
        let ghost whole = list_loop(
            ls,
            st,
            self.pos as int,
            item_depth as int,
            expected_len as int,
            Seq::empty(),
        );
        let mut arr: Vec<Value> = Vec::new();
        assert(values_view(arr@) =~= Seq::<Json>::empty());
        let n = self.lines.len();
        while self.pos < n && self.lines[self.pos].depth == item_depth && is_hyphen(
            &self.lines[self.pos].content,
        )
            invariant
                advanced(*old(self), *self),
                n == self.lines@.len(),
                ls == self.lv(),
                depths_ok(ls),
                item_depth <= usize::MAX - 1,
                st == self.options.strict,
                whole == list_loop(
                    old(self).lv(),
                    old(self).options.strict,
                    old(self).pos as int,
                    item_depth as int,
                    expected_len as int,
                    Seq::empty(),
                ),
                whole == list_loop(
                    ls,
                    st,
                    self.pos as int,
                    item_depth as int,
                    expected_len as int,
                    values_view(arr@),
                ),
            decreases n - self.pos,
        {
            let line_num = self.lines[self.pos].line_num;
            let cl = self.lines[self.pos].content.len();
            let item = slice_of(&self.lines[self.pos].content, 2, cl);
            proof {
                let p = self.pos as int;
                assert(ls[p].content == self.lines@[p].content@);
                assert(ls[p].depth <= usize::MAX - 2);
            }
            self.pos = self.pos + 1;
            match self.decode_list_item(item_depth, &item, line_num) {
                Ok(v) => {
                    let ghost before = arr@;
                    let ghost vv = v@;
                    arr.push(v);
                    assert(values_view(arr@) =~= values_view(before).push(vv));
                },
                Err(e) => {
                    return Err(e);
                },
            }
        }
        if self.options.strict && arr.len() != expected_len {
            return Err(
                DecodeError::ArrayLengthMismatch { expected: expected_len, found: arr.len() },
            );
        }
        proof {
            lemma_array_view(arr);
        }
        Ok(Value::Array(arr))
    }

    /// One list item, given the text after its hyphen.
    fn decode_list_item(&mut self, item_depth: usize, item: &Vec<char>, line_num: usize) -> (r: Result<
        Value,
        DecodeError,
    >)
        requires
            old(self).pos <= old(self).lines@.len(),
            depths_ok(old(self).lv()),
            item_depth <= usize::MAX - 2,
        ensures
            advanced(*old(self), *final(self)),
            match r {
                Ok(v) => list_item_value(
                    old(self).lv(),
                    old(self).options.strict,
                    old(self).pos as int,
                    item_depth as int,
                    item@,
                    line_num as int,
                ) == (Ok::<Json, DecodeFault>(v@), final(self).pos as int),
                Err(e) => list_item_value(
                    old(self).lv(),
                    old(self).options.strict,
                    old(self).pos as int,
                    item_depth as int,
                    item@,
                    line_num as int,
                ).0 == Err::<Json, DecodeFault>(e@),
            },
        decreases old(self).lines@.len() - old(self).pos, 5int,
    {
        if item.len() > 0 && item[0] == '[' {
            let (length, delim, _fields) = match self.parse_array_header(item, line_num) {
                Ok(h) => h,
                Err(e) => {
                    return Err(e);
                },
            };
            let (after, colon) = after_colon_text(item);
            if !colon {
                return Ok(Value::Null);
            }
            if after.len() > 0 {
                return self.decode_inline_array(&after, delim, length, line_num);
            }
            if self.options.strict && length != 0 {
                return Err(DecodeError::ArrayLengthMismatch { expected: length, found: 0 });
            }
            let empty: Vec<Value> = Vec::new();
            proof {
                lemma_array_view(empty);
                assert(values_view(empty@) =~= Seq::<Json>::empty());
            }
            return Ok(Value::Array(empty));
        }
        match self.parse_key_value(item, line_num) {
            Err(e) => Err(e),
            Ok(None) => self.parse_primitive(item, line_num),
            Ok(Some((key, value_part))) => {
                let bare = key_is_bare_text(item);
                match self.decode_list_item_object(key, value_part, item_depth, line_num, bare) {
                    Ok(obj) => {
                        proof {
                            lemma_object_view(obj);
                        }
                        Ok(Value::Object(obj))
                    },
                    Err(e) => Err(e),
                }
            },
        }
    }

    /// The value of a field of a list-item object: a nested object when the
    /// value is empty, else an array or a scalar.
    fn decode_item_field(&mut self, item_depth: usize, value: &Vec<char>, line_num: usize) -> (r:
        Result<Value, DecodeError>)
        requires
            old(self).pos <= old(self).lines@.len(),
            depths_ok(old(self).lv()),
            item_depth <= usize::MAX - 2,
        ensures
            advanced(*old(self), *final(self)),
            match r {
                Ok(v) => item_field(
                    old(self).lv(),
                    old(self).options.strict,
                    old(self).pos as int,
                    item_depth as int,
                    value@,
                    line_num as int,
                ) == (Ok::<Json, DecodeFault>(v@), final(self).pos as int),
                Err(e) => item_field(
                    old(self).lv(),
                    old(self).options.strict,
                    old(self).pos as int,
                    item_depth as int,
                    value@,
                    line_num as int,
                ).0 == Err::<Json, DecodeFault>(e@),
            },
        decreases old(self).lines@.len() - old(self).pos, 2int,
    {
        if value.len() == 0 {
            if self.pos < self.lines.len() && self.lines[self.pos].depth > item_depth {
                return self.decode_object(item_depth + 1);
            }
            let empty: Vec<(String, Value)> = Vec::new();
            proof {
                lemma_object_view(empty);
                assert(fields_view(empty@) =~= Seq::<(Seq<char>, Json)>::empty());
            }
            return Ok(Value::Object(empty));
        }
        match self.try_parse_array_header(value, item_depth, line_num) {
            Err(e) => Err(e),
            Ok(Some(a)) => Ok(a),
            Ok(None) => self.parse_primitive(value, line_num),
        }
    }

    /// A field of a list-item object: its name and its value.
    fn decode_item_entry(
        &mut self,
        item_depth: usize,
        key: &Vec<char>,
        value: &Vec<char>,
        line_num: usize,
        bare: bool,
    ) -> (r: Result<(Vec<char>, Value), DecodeError>)
        requires
            old(self).pos <= old(self).lines@.len(),
            depths_ok(old(self).lv()),
            item_depth <= usize::MAX - 2,
        ensures
            advanced(*old(self), *final(self)),
            match r {
                Ok((k, v)) => item_entry(
                    old(self).lv(),
                    old(self).options.strict,
                    old(self).pos as int,
                    item_depth as int,
                    key@,
                    value@,
                    line_num as int,
                    bare,
                ) == (Ok::<(Seq<char>, Json), DecodeFault>((k@, v@)), final(self).pos as int),
                Err(e) => item_entry(
                    old(self).lv(),
                    old(self).options.strict,
                    old(self).pos as int,
                    item_depth as int,
                    key@,
                    value@,
                    line_num as int,
                    bare,
                ).0 == Err::<(Seq<char>, Json), DecodeFault>(e@),
            },
        decreases old(self).lines@.len() - old(self).pos, 3int,
    {
        let bracket = if bare {
            open_bracket(key)
        } else {
            None
        };
        match bracket {
            Some(b) => {
                let key_part = slice_of(key, 0, b);
                let header = slice_of(key, b, key.len());
                let full_header = if value.len() == 0 {
                    header
                } else {
                    let mut h = header;
                    let ghost hv = h@;
                    h.push(':');
                    crate::text::append_chars(&mut h, value);
                    assert(h@ =~= hv + seq![':'] + value@);
                    h
                };
                match self.try_parse_array_header(&full_header, item_depth, line_num) {
                    Err(e) => Err(e),
                    Ok(Some(a)) => match self.unescape_string_cow(&key_part, line_num) {
                        Ok(k) => Ok((k, a)),
                        Err(e) => Err(e),
                    },
                    Ok(None) => {
                        let mut msg = chars_of("Invalid array header in key: ");
                        crate::text::append_chars(&mut msg, key);
                        Err(DecodeError::InvalidArrayHeader(string_from_chars(&msg)))
                    },
                }
            },
            None => {
                let k = slice_of(key, 0, key.len());
                assert(k@ =~= key@);
                match self.decode_item_field(item_depth, value, line_num) {
                    Ok(x) => Ok((k, x)),
                    Err(e) => Err(e),
                }
            },
        }
    }

    /// An object that is a list item: its first field on the hyphen line, the
    /// rest on the following lines at the same depth.
    pub fn decode_list_item_object(
        &mut self,
        first_key: Vec<char>,
        first_value: Vec<char>,
        item_depth: usize,
        line_num: usize,
        bare: bool,
    ) -> (r: Result<Vec<(String, Value)>, DecodeError>)
        requires
            old(self).pos <= old(self).lines@.len(),
            depths_ok(old(self).lv()),
            item_depth <= usize::MAX - 2,
        ensures
            advanced(*old(self), *final(self)),
            match r {
                Ok(o) => list_item_object(
                    old(self).lv(),
                    old(self).options.strict,
                    old(self).pos as int,
                    first_key@,
                    first_value@,
                    item_depth as int,
                    line_num as int,
                    bare,
                ) == (Ok::<Fields, DecodeFault>(fields_view(o@)), final(self).pos as int),
                Err(e) => list_item_object(
                    old(self).lv(),
                    old(self).options.strict,
                    old(self).pos as int,
                    first_key@,
                    first_value@,
                    item_depth as int,
                    line_num as int,
                    bare,
                ).0 == Err::<Fields, DecodeFault>(e@),
            },
        decreases old(self).lines@.len() - old(self).pos, 4int,
    {
        let ghost ls = self.lv();
        let ghost st = self.options.strict;
        let ghost whole = list_item_object(
            ls,
            st,
            self.pos as int,
            first_key@,
            first_value@,
            item_depth as int,
            line_num as int,
            bare,
        );
        let (first_name, first) = match self.decode_item_entry(
            item_depth,
            &first_key,
            &first_value,
            line_num,
            bare,
        ) {
            Ok(e) => e,
            Err(e) => {
                return Err(e);
            },
        };
        let mut obj: Vec<(String, Value)> = Vec::new();
        assert(fields_view(obj@) =~= Seq::<(Seq<char>, Json)>::empty());
        insert_field(&mut obj, string_from_chars(&first_name), first);
        let n = self.lines.len();
        while self.pos < n && self.lines[self.pos].depth == item_depth && !is_hyphen(
            &self.lines[self.pos].content,
        )
            invariant
                advanced(*old(self), *self),
                n == self.lines@.len(),
                ls == self.lv(),
                ls == old(self).lv(),
                depths_ok(ls),
                item_depth <= usize::MAX - 2,
                st == self.options.strict,
                whole == list_item_object(
                    old(self).lv(),
                    old(self).options.strict,
                    old(self).pos as int,
                    first_key@,
                    first_value@,
                    item_depth as int,
                    line_num as int,
                    bare,
                ),
                whole == item_fields_loop(
                    ls,
                    st,
                    self.pos as int,
                    item_depth as int,
                    fields_view(obj@),
                ),
            decreases n - self.pos,
        {
            let ln = self.lines[self.pos].line_num;
            let content = slice_of(&self.lines[self.pos].content, 0, self.lines[self.pos].content.len());
            proof {
                let p = self.pos as int;
                assert(content@ =~= ls[p].content);
            }
            match self.parse_key_value(&content, ln) {
                Err(e) => {
                    return Err(e);
                },
                Ok(None) => {
                    return Ok(obj);
                },
                Ok(Some((k, v))) => {
                    let field_bare = key_is_bare_text(&content);
                    self.pos = self.pos + 1;
                    match self.decode_item_entry(item_depth, &k, &v, ln, field_bare) {
                        Ok((name, val)) => {
                            insert_field(&mut obj, string_from_chars(&name), val);
                        },
                        Err(e) => {
                            return Err(e);
                        },
                    }
                },
            }
        }
        Ok(obj)
    }

    /// An array whose header `header_part` stands on a line at `parent_depth`;
    /// `None` when the text is no header.
    pub fn try_parse_array_header(
        &mut self,
        header_part: &Vec<char>,
        parent_depth: usize,
        line_num: usize,
    ) -> (r: Result<Option<Value>, DecodeError>)
        requires
            old(self).pos <= old(self).lines@.len(),
            depths_ok(old(self).lv()),
            parent_depth <= usize::MAX - 2,
        ensures
            advanced(*old(self), *final(self)),
            match r {
                Ok(None) => try_array(
                    old(self).lv(),
                    old(self).options.strict,
                    old(self).pos as int,
                    parent_depth as int,
                    header_part@,
                    line_num as int,
                ) == (Ok::<Option<Json>, DecodeFault>(None), final(self).pos as int),
                Ok(Some(v)) => try_array(
                    old(self).lv(),
                    old(self).options.strict,
                    old(self).pos as int,
                    parent_depth as int,
                    header_part@,
                    line_num as int,
                ) == (Ok::<Option<Json>, DecodeFault>(Some(v@)), final(self).pos as int),
                Err(e) => try_array(
                    old(self).lv(),
                    old(self).options.strict,
                    old(self).pos as int,
                    parent_depth as int,
                    header_part@,
                    line_num as int,
                ).0 == Err::<Option<Json>, DecodeFault>(e@),
            },
        decreases old(self).lines@.len() - old(self).pos, 1int,
    {
        if !(header_part.len() > 0 && header_part[0] == '[') {
            return Ok(None);
        }
        let (length, delimiter, fields) = match self.parse_array_header(header_part, line_num) {
            Ok(h) => h,
            Err(e) => {
                return Err(e);
            },
        };
        let (after, _colon) = after_colon_text(header_part);
        if after.len() > 0 {
            return match self.decode_inline_array(&after, delimiter, length, line_num) {
                Ok(a) => Ok(Some(a)),
                Err(e) => Err(e),
            };
        }
        let r = if fields.len() > 0 {
            self.decode_tabular_array(parent_depth + 1, length, delimiter, &fields)
        } else {
            self.decode_list_array(parent_depth + 1, length, delimiter)
        };
        match r {
            Ok(a) => Ok(Some(a)),
            Err(e) => Err(e),
        }
    }

    /// The field that an object line opens, given its key and the text after
    /// the colon: the field name and its value.
    fn decode_field(
        &mut self,
        depth: usize,
        key: &Vec<char>,
        value_part: &Vec<char>,
        line_num: usize,
        bare: bool,
    ) -> (r: Result<(Vec<char>, Value), DecodeError>)
        requires
            old(self).pos <= old(self).lines@.len(),
            depths_ok(old(self).lv()),
            depth <= usize::MAX - 2,
        ensures
            advanced(*old(self), *final(self)),
            match r {
                Ok((k, v)) => field_value(
                    old(self).lv(),
                    old(self).options.strict,
                    old(self).pos as int,
                    depth as int,
                    key@,
                    value_part@,
                    line_num as int,
                    bare,
                ) == (Ok::<(Seq<char>, Json), DecodeFault>((k@, v@)), final(self).pos as int),
                Err(e) => field_value(
                    old(self).lv(),
                    old(self).options.strict,
                    old(self).pos as int,
                    depth as int,
                    key@,
                    value_part@,
                    line_num as int,
                    bare,
                ).0 == Err::<(Seq<char>, Json), DecodeFault>(e@),
            },
        decreases old(self).lines@.len() - old(self).pos, 2int,
    {
        let bracket = if bare {
            open_bracket(key)
        } else {
            None
        };
        match bracket {
            Some(b) => {
                let key_part = slice_of(key, 0, b);
                let header = slice_of(key, b, key.len());
                let full_header = if value_part.len() == 0 {
                    header
                } else {
                    let mut h = header;
                    let ghost hv = h@;
                    h.push(':');
                    crate::text::append_chars(&mut h, value_part);
                    assert(h@ =~= hv + seq![':'] + value_part@);
                    h
                };
                match self.try_parse_array_header(&full_header, depth, line_num) {
                    Err(e) => Err(e),
                    Ok(Some(v)) => match self.unescape_string_cow(&key_part, line_num) {
                        Ok(k) => Ok((k, v)),
                        Err(e) => Err(e),
                    },
                    Ok(None) => {
                        let mut msg = chars_of("Invalid array header in key: ");
                        crate::text::append_chars(&mut msg, key);
                        Err(DecodeError::InvalidArrayHeader(string_from_chars(&msg)))
                    },
                }
            },
            None => {
                if value_part.len() == 0 {
                    if self.pos < self.lines.len() && self.lines[self.pos].depth > depth {
                        let k = slice_of(key, 0, key.len());
                        assert(k@ =~= key@);
                        return match self.decode_object(depth + 1) {
                            Ok(v) => Ok((k, v)),
                            Err(e) => Err(e),
                        };
                    }
                    let empty: Vec<(String, Value)> = Vec::new();
                    proof {
                        lemma_object_view(empty);
                        assert(fields_view(empty@) =~= Seq::<(Seq<char>, Json)>::empty());
                    }
                    let k = slice_of(key, 0, key.len());
                    assert(k@ =~= key@);
                    return Ok((k, Value::Object(empty)));
                }
                let k = slice_of(key, 0, key.len());
                assert(k@ =~= key@);
                match self.parse_primitive(value_part, line_num) {
                    Ok(v) => Ok((k, v)),
                    Err(e) => Err(e),
                }
            },
        }
    }

    /// An object's fields at `start_depth`; deeper lines reached directly are skipped.
    pub fn decode_object(&mut self, start_depth: usize) -> (r: Result<Value, DecodeError>)
        requires
            old(self).pos <= old(self).lines@.len(),
            depths_ok(old(self).lv()),
            start_depth <= usize::MAX - 2,
        ensures
            advanced(*old(self), *final(self)),
            match r {
                Ok(v) => object_loop(
                    old(self).lv(),
                    old(self).options.strict,
                    old(self).pos as int,
                    start_depth as int,
                    Seq::empty(),
                ) == (Ok::<Json, DecodeFault>(v@), final(self).pos as int),
                Err(e) => object_loop(
                    old(self).lv(),
                    old(self).options.strict,
                    old(self).pos as int,
                    start_depth as int,
                    Seq::empty(),
                ).0 == Err::<Json, DecodeFault>(e@),
            },
        decreases old(self).lines@.len() - old(self).pos, 0int,
    {
        let ghost ls = self.lv();
        let ghost st = self.options.strict;
        let ghost whole = object_loop(ls, st, self.pos as int, start_depth as int, Seq::empty());
        let mut obj: Vec<(String, Value)> = Vec::new();
        assert(fields_view(obj@) =~= Seq::<(Seq<char>, Json)>::empty());
        let n = self.lines.len();
        while self.pos < n
            invariant
                advanced(*old(self), *self),
                n == self.lines@.len(),
                ls == self.lv(),
                ls == old(self).lv(),
                depths_ok(ls),
                start_depth <= usize::MAX - 2,
                st == self.options.strict,
                whole == object_loop(
                    old(self).lv(),
                    old(self).options.strict,
                    old(self).pos as int,
                    start_depth as int,
                    Seq::empty(),
                ),
                whole == object_loop(ls, st, self.pos as int, start_depth as int, fields_view(obj@)),
            decreases n - self.pos,
        {
            let line_num = self.lines[self.pos].line_num;
            let depth = self.lines[self.pos].depth;
            if depth < start_depth {
                proof {
                    lemma_object_view(obj);
                }
                return Ok(Value::Object(obj));
            }
            if depth > start_depth {
                self.pos = self.pos + 1;
                continue;
            }
            let content = slice_of(&self.lines[self.pos].content, 0, self.lines[self.pos].content.len());
            proof {
                let p = self.pos as int;
                assert(content@ =~= ls[p].content);
            }
            match self.parse_key_value(&content, line_num) {
                Err(e) => {
                    return Err(e);
                },
                Ok(None) => {
                    return Err(
                        DecodeError::InvalidLine { line: line_num, content: string_from_chars(&content) },
                    );
                },
                Ok(Some((key, value_part))) => {
                    self.pos = self.pos + 1;
                    let bare = key_is_bare_text(&content);
                    match self.decode_field(start_depth, &key, &value_part, line_num, bare) {
                        Ok((k, v)) => {
                            insert_field(&mut obj, string_from_chars(&k), v);
                        },
                        Err(e) => {
                            return Err(e);
                        },
                    }
                },
            }
        }
        proof {
            lemma_object_view(obj);
        }
        Ok(Value::Object(obj))
    }

    /// The root array whose header is the first line.
    fn decode_array(&mut self, depth: usize) -> (r: Result<Value, DecodeError>)
        requires
            old(self).lines@.len() > 0,
            old(self).lines@[0].content@.len() > 0,
            old(self).lines@[0].content@[0] == '[',
            depths_ok(old(self).lv()),
            depth == 0,
        ensures
            result_view(r) == root_array_spec(old(self).lv(), old(self).options.strict),
    {
        let line_num = self.lines[0].line_num;
        let content = slice_of(&self.lines[0].content, 0, self.lines[0].content.len());
        assert(content@ =~= self.lv()[0].content);
        let (length, delimiter, fields) = match self.parse_array_header(&content, line_num) {
            Ok(h) => h,
            Err(e) => {
                return Err(e);
            },
        };
        let (after, _colon) = after_colon_text(&content);
        if after.len() > 0 {
            return self.decode_inline_array(&after, delimiter, length, line_num);
        }
        self.pos = 1;
        if fields.len() > 0 {
            self.decode_tabular_array(depth + 1, length, delimiter, &fields)
        } else {
            self.decode_list_array(depth + 1, length, delimiter)
        }
    }

    /// Decodes the whole document: empty, a root array, a single scalar, or an object.
    pub fn decode(&mut self) -> (r: Result<Value, DecodeError>)
        requires
            old(self).pos == 0,
            depths_ok(old(self).lv()),
        ensures
            result_view(r) == decode_lines_spec(old(self).lv(), old(self).options.strict),
    {
        if self.lines.len() == 0 {
            let empty: Vec<(String, Value)> = Vec::new();
            proof {
                lemma_object_view(empty);
                assert(fields_view(empty@) =~= Seq::<(Seq<char>, Json)>::empty());
            }
            return Ok(Value::Object(empty));
        }
        if self.is_root_array() {
            return self.decode_array(0);
        }
        let content = slice_of(&self.lines[0].content, 0, self.lines[0].content.len());
        assert(content@ =~= self.lv()[0].content);
        if self.lines.len() == 1 && !self.is_key_value(&content) {
            return self.parse_primitive(&content, self.lines[0].line_num);
        }
        self.decode_object(0)
    }
}

/// Decodes TOON text into a value tree; every object in it holds each key once.
pub fn decode(input: &str, options: &DecoderOptions) -> (r: Result<Value, DecodeError>)
    requires
        options.indent > 0,
    ensures
        result_view(r) == decode_spec(input@, options.indent as int, options.strict),
        r is Ok ==> crate::wf::well_formed(r.unwrap()@),
{
    proof {
        crate::wf::lemma_decode_wf(input@, options.indent as int, options.strict);
    }
    match Decoder::new(input, options) {
        Ok(mut decoder) => decoder.decode(),
        Err(e) => Err(e),
    }
}

} // verus!
