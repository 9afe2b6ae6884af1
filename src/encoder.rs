//! Value tree to TOON text.

use vstd::prelude::*;
use crate::common::Delimiter;
use crate::text::{
    append_chars, chars_of, contains_spec, decimal_spec, exp_index, int_text, is_digit,
    is_float_literal, is_float_literal_text, is_special_float, parse_i64, parse_i64_spec,
    push_decimal, push_i64, strip_sign, string_from_chars, is_special_float_text, exp_index_of,
    find_char, slice_of, is_ws,
};
use crate::value::{Json, Number, NumberModel, Value};
use crate::decoder::{fields_view, lemma_array_view, lemma_object_view, texts_view, values_view};

verus! {

/// Encoder configuration.
#[derive(Debug, Clone, Copy)]
pub struct EncoderOptions {
    /// Spaces per indentation level.
    pub indent: usize,
    /// Delimiter of array values and tabular cells, for the whole document.
    pub delimiter: Delimiter,
}

impl Default for EncoderOptions {
    fn default() -> (r: Self)
        ensures
            r.indent == 2,
            r.delimiter == Delimiter::Comma,
    {
        EncoderOptions { indent: 2, delimiter: Delimiter::Comma }
    }
}

// ---------------------------------------------------------------------------
// Scalars

/// The two characters that stand for `c` inside quotes, or `c` itself.
pub open spec fn escape_char(c: char) -> Seq<char> {
    if c == '\\' {
        seq!['\\', '\\']
    } else if c == '"' {
        seq!['\\', '"']
    } else if c == '\n' {
        seq!['\\', 'n']
    } else if c == '\r' {
        seq!['\\', 'r']
    } else if c == '\t' {
        seq!['\\', 't']
    } else {
        seq![c]
    }
}

pub open spec fn escape_seq(s: Seq<char>) -> Seq<char>
    decreases s.len(),
{
    if s.len() == 0 {
        Seq::empty()
    } else {
        escape_char(s[0]) + escape_seq(s.drop_first())
    }
}

/// `s` escaped and wrapped in double quotes.
pub open spec fn quoted_spec(s: Seq<char>) -> Seq<char> {
    seq!['"'] + escape_seq(s) + seq!['"']
}

pub proof fn lemma_escape_push(s: Seq<char>, c: char)
    ensures
        escape_seq(s.push(c)) == escape_seq(s) + escape_char(c),
    decreases s.len(),
{
    if s.len() == 0 {
        assert(s.push(c).drop_first() =~= Seq::<char>::empty());
        assert(s.push(c)[0] == c);
        assert(escape_seq(Seq::<char>::empty()) == Seq::<char>::empty());
        assert(escape_seq(s) == Seq::<char>::empty());
        assert(escape_seq(s.push(c)) =~= escape_char(c) + Seq::<char>::empty());
        assert(escape_seq(s.push(c)) =~= escape_seq(s) + escape_char(c));
    } else {
        assert(s.push(c).drop_first() =~= s.drop_first().push(c));
        lemma_escape_push(s.drop_first(), c);
        assert(escape_seq(s.push(c)) =~= escape_seq(s) + escape_char(c));
    }
}

/// Text that a reader could take for a number: a leading zero before a digit,
/// or anything that parses as a double.
pub open spec fn numeric_like_spec(s: Seq<char>) -> bool {
    (s.len() >= 2 && s[0] == '0' && is_digit(s[1])) || is_float_literal(s)
}

pub open spec fn is_structural_char(c: char) -> bool {
    c == ':' || c == '"' || c == '\\' || c == '[' || c == ']' || c == '{' || c == '}' || c == '\n'
        || c == '\r' || c == '\t'
}

/// Whether a string value must be quoted under delimiter `d`: among others,
/// when whitespace at an edge would be lost to the reader's trimming.
pub open spec fn needs_quotes(s: Seq<char>, d: char) -> bool {
    s.len() == 0 || is_ws(s[0]) || is_ws(s.last()) || s == seq!['t', 'r', 'u', 'e'] || s == seq![
        'f',
        'a',
        'l',
        's',
        'e',
    ] || s == seq!['n', 'u', 'l', 'l'] || s[0] == '-' || (exists|i: int|
        0 <= i < s.len() && is_structural_char(#[trigger] s[i])) || contains_spec(s, d)
        || numeric_like_spec(s)
}

/// A string value as written: quoted when it must be.
pub open spec fn string_text(s: Seq<char>, d: char) -> Seq<char> {
    if needs_quotes(s, d) {
        quoted_spec(s)
    } else {
        s
    }
}

pub open spec fn is_key_start(c: char) -> bool {
    ('a' <= c && c <= 'z') || ('A' <= c && c <= 'Z') || c == '_'
}

pub open spec fn is_key_char(c: char) -> bool {
    is_key_start(c) || ('0' <= c && c <= '9') || c == '.'
}

/// A key that needs no quotes: a letter or `_`, then letters, digits, `_` or `.`.
pub open spec fn is_plain_key(k: Seq<char>) -> bool {
    k.len() > 0 && is_key_start(k[0]) && forall|i: int| 0 <= i < k.len() ==> is_key_char(#[trigger] k[i])
}

/// A key as written.
pub open spec fn key_text(k: Seq<char>) -> Seq<char> {
    if is_plain_key(k) {
        k
    } else {
        quoted_spec(k)
    }
}

pub open spec fn trim_zeros_spec(s: Seq<char>) -> Seq<char>
    decreases s.len(),
{
    if s.len() > 0 && s.last() == '0' {
        trim_zeros_spec(s.drop_last())
    } else {
        s
    }
}

/// Trailing zeros of a fraction dropped, then a bare trailing point.
pub open spec fn trim_fraction_spec(s: Seq<char>) -> Seq<char> {
    if contains_spec(s, '.') {
        let t = trim_zeros_spec(s);
        if t.len() > 0 && t.last() == '.' {
            t.drop_last()
        } else {
            t
        }
    } else {
        s
    }
}

pub open spec fn zeros(n: int) -> Seq<char> {
    Seq::new(n as nat, |i: int| '0')
}

/// The largest exponent that is written out in full.
pub const MAX_EXPANDED_EXPONENT: i64 = 1000;

/// Digits of a mantissa without its sign, with the point removed.
pub open spec fn mantissa_digits(um: Seq<char>) -> Seq<char> {
    match crate::text::find_spec(um, '.') {
        Some(p) => um.subrange(0, p) + um.subrange(p + 1, um.len() as int),
        None => um,
    }
}

/// Digits before the point of a mantissa without its sign.
pub open spec fn mantissa_point(um: Seq<char>) -> int {
    match crate::text::find_spec(um, '.') {
        Some(p) => p,
        None => um.len() as int,
    }
}

/// Digits with a point placed after the first `p` of them (before them when
/// `p` is not positive), padded with zeros as needed.
pub open spec fn place_point(digits: Seq<char>, p: int) -> Seq<char> {
    if p <= 0 {
        seq!['0', '.'] + zeros(-p) + digits
    } else if p >= digits.len() {
        digits + zeros(p - digits.len())
    } else {
        digits.subrange(0, p) + seq!['.'] + digits.subrange(p, digits.len() as int)
    }
}

/// Scientific notation written out as a plain decimal; text whose exponent does
/// not read as an integer within the cap stays as it is.
pub open spec fn expand_exponent(t: Seq<char>) -> Seq<char> {
    let e = exp_index(t);
    let m = t.subrange(0, e);
    let um = strip_sign(m);
    match parse_i64_spec(t.subrange(e + 1, t.len() as int)) {
        Some(x) => if -MAX_EXPANDED_EXPONENT <= x <= MAX_EXPANDED_EXPONENT {
            let body = place_point(mantissa_digits(um), mantissa_point(um) + x);
            if m.len() > 0 && m[0] == '-' {
                seq!['-'] + body
            } else {
                body
            }
        } else {
            t
        },
        None => t,
    }
}

/// A mantissa of zeros only: the text of a zero.
pub open spec fn is_zero_text(t: Seq<char>) -> bool {
    forall|i: int|
        0 <= i < exp_index(t) ==> (#[trigger] t[i] == '0' || t[i] == '.' || t[i] == '-' || t[i]
            == '+')
}

/// A number as written: integers in plain decimal; doubles without exponent and
/// without trailing fraction zeros, zero as `0`, a non-finite one as `null`.
pub open spec fn number_text(n: NumberModel) -> Seq<char> {
    match n {
        NumberModel::Int(i) => int_text(i),
        NumberModel::Float(t) => if is_special_float(strip_sign(t)) {
            seq!['n', 'u', 'l', 'l']
        } else if is_zero_text(t) {
            seq!['0']
        } else if exp_index(t) < t.len() {
            trim_fraction_spec(expand_exponent(t))
        } else {
            trim_fraction_spec(t)
        },
    }
}

/// A scalar as written; nothing for an array or an object.
pub open spec fn prim_text(v: Json, d: char) -> Seq<char> {
    match v {
        Json::Null => seq!['n', 'u', 'l', 'l'],
        Json::Bool(b) => if b {
            seq!['t', 'r', 'u', 'e']
        } else {
            seq!['f', 'a', 'l', 's', 'e']
        },
        Json::Num(n) => number_text(n),
        Json::Str(s) => string_text(s, d),
        _ => Seq::empty(),
    }
}

pub open spec fn spaces(n: int) -> Seq<char> {
    Seq::new(n as nat, |i: int| ' ')
}

fn push_zeros(out: &mut Vec<char>, n: usize)
    ensures
        final(out)@ == old(out)@ + zeros(n as int),
{
    let mut i: usize = 0;
    while i < n
        invariant
            i <= n,
            out@ == old(out)@ + zeros(i as int),
        decreases n - i,
    {
        out.push('0');
        assert(zeros(i + 1) =~= zeros(i as int).push('0'));
        i += 1;
    }
}

fn trim_fraction(s: Vec<char>) -> (r: Vec<char>)
    ensures
        r@ == trim_fraction_spec(s@),
{
    if find_char(&s, '.').is_none() {
        return s;
    }
    let mut b: usize = s.len();
    assert(s@.subrange(0, b as int) =~= s@);
    while b > 0 && s[b - 1] == '0'
        invariant
            b <= s@.len(),
            trim_zeros_spec(s@) == trim_zeros_spec(s@.subrange(0, b as int)),
        decreases b,
    {
        assert(s@.subrange(0, b as int).drop_last() =~= s@.subrange(0, b - 1));
        b -= 1;
    }
    if b > 0 && s[b - 1] == '.' {
        slice_of(&s, 0, b - 1)
    } else {
        slice_of(&s, 0, b)
    }
}

fn mantissa_parts(um: &Vec<char>) -> (r: (Vec<char>, usize))
    ensures
        r.0@ == mantissa_digits(um@),
        r.1 == mantissa_point(um@),
        r.1 <= r.0@.len(),
{
    let n = um.len();
    match find_char(um, '.') {
        Some(p) => {
            let mut d = slice_of(um, 0, p);
            let rest = slice_of(um, p + 1, n);
            append_chars(&mut d, &rest);
            (d, p)
        },
        None => {
            let d = slice_of(um, 0, um.len());
            assert(d@ =~= um@);
            (d, um.len())
        },
    }
}

fn place_point_text(digits: &Vec<char>, p: i128) -> (r: Vec<char>)
    requires
        -1000 <= p <= digits@.len() + 1000,
    ensures
        r@ == place_point(digits@, p as int),
{
    let dl = digits.len();
    let mut out: Vec<char> = Vec::new();
    if p <= 0 {
        out.push('0');
        out.push('.');
        push_zeros(&mut out, (-p) as usize);
        append_chars(&mut out, digits);
        assert(out@ =~= seq!['0', '.'] + zeros(-p) + digits@);
    } else if p >= dl as i128 {
        append_chars(&mut out, digits);
        push_zeros(&mut out, (p - dl as i128) as usize);
        assert(out@ =~= digits@ + zeros(p - dl));
    } else {
        let head = slice_of(digits, 0, p as usize);
        let tail = slice_of(digits, p as usize, dl);
        append_chars(&mut out, &head);
        out.push('.');
        append_chars(&mut out, &tail);
        assert(out@ =~= digits@.subrange(0, p as int) + seq!['.'] + digits@.subrange(
            p as int,
            dl as int,
        ));
    }
    out
}

/// Writes scientific notation out as a plain decimal.
fn expand_exponent_text(t: &Vec<char>, e: usize) -> (r: Vec<char>)
    requires
        e == exp_index(t@),
        e < t@.len(),
    ensures
        r@ == expand_exponent(t@),
{
    let len = t.len();
    let exp_text = slice_of(t, e + 1, len);
    let x = match parse_i64(&exp_text) {
        Some(x) => x,
        None => {
            let r = slice_of(t, 0, len);
            assert(r@ =~= t@);
            return r;
        },
    };
    if x < -MAX_EXPANDED_EXPONENT || x > MAX_EXPANDED_EXPONENT {
        let r = slice_of(t, 0, len);
        assert(r@ =~= t@);
        return r;
    }
    let m = slice_of(t, 0, e);
    let neg = m.len() > 0 && m[0] == '-';
    let start: usize = if m.len() > 0 && (m[0] == '-' || m[0] == '+') {
        1
    } else {
        0
    };
    let um = slice_of(&m, start, m.len());
    assert(um@ =~= strip_sign(m@));
    let (digits, point) = mantissa_parts(&um);
    let body = place_point_text(&digits, point as i128 + x as i128);
    if neg {
        let mut out: Vec<char> = vec!['-'];
        append_chars(&mut out, &body);
        assert(out@ =~= seq!['-'] + body@);
        out
    } else {
        body
    }
}

pub fn normalize_float(t: &Vec<char>) -> (r: Vec<char>)
    ensures
        r@ == number_text(NumberModel::Float(t@)),
{
    if is_special_float_text(t) {
        let r = vec!['n', 'u', 'l', 'l'];
        assert(r@ =~= seq!['n', 'u', 'l', 'l']);
        return r;
    }
    let e = exp_index_of(t);
    let mut i: usize = 0;
    let mut zero = true;
    while i < e
        invariant
            i <= e == exp_index(t@),
            e <= t@.len(),
            zero == forall|j: int|
                0 <= j < i ==> (#[trigger] t@[j] == '0' || t@[j] == '.' || t@[j] == '-' || t@[j]
                    == '+'),
        decreases e - i,
    {
        let c = t[i];
        if !(c == '0' || c == '.' || c == '-' || c == '+') {
            zero = false;
        }
        i += 1;
    }
    if zero {
        let r = vec!['0'];
        assert(r@ =~= seq!['0']);
        return r;
    }
    if e < t.len() {
        trim_fraction(expand_exponent_text(t, e))
    } else {
        let c = slice_of(t, 0, t.len());
        assert(c@ =~= t@);
        trim_fraction(c)
    }
}

/// The header `[len<marker>]{fields}:`; the field list only when there is one.
pub open spec fn header_text(n: nat, d: Delimiter, fields: Option<Seq<Seq<char>>>) -> Seq<char> {
    seq!['['] + decimal_spec(n) + d.symbol_spec() + seq![']'] + match fields {
        Some(fs) => seq!['{'] + keys_joined(fs, fs.len() as int, d.char_spec()) + seq!['}'],
        None => Seq::empty(),
    } + seq![':']
}

/// The first `n` keys as written, joined by `d`.
pub open spec fn keys_joined(fs: Seq<Seq<char>>, n: int, d: char) -> Seq<char>
    decreases n,
{
    if n <= 0 {
        Seq::empty()
    } else if n == 1 {
        key_text(fs[0])
    } else {
        keys_joined(fs, n - 1, d) + seq![d] + key_text(fs[n - 1])
    }
}

// ---------------------------------------------------------------------------
// Structure

pub open spec fn is_prim(v: Json) -> bool {
    !(v is Arr) && !(v is Obj)
}

/// Number, string, boolean or null.
pub open spec fn type_tag(v: Json) -> int {
    match v {
        Json::Num(_) => 0,
        Json::Str(_) => 1,
        Json::Bool(_) => 2,
        _ => 3,
    }
}

/// Empty, or scalars all of one kind.
pub open spec fn inline_ok(a: Seq<Json>) -> bool {
    a.len() == 0 || ((forall|i: int| 0 <= i < a.len() ==> is_prim(#[trigger] a[i])) && forall|
        i: int,
    |
        0 <= i < a.len() ==> type_tag(#[trigger] a[i]) == type_tag(a[0]))
}

pub open spec fn keys_of(fs: Seq<(Seq<char>, Json)>) -> Seq<Seq<char>> {
    Seq::new(fs.len(), |i: int| fs[i].0)
}

pub open spec fn values_of(fs: Seq<(Seq<char>, Json)>) -> Seq<Json> {
    Seq::new(fs.len(), |i: int| fs[i].1)
}

/// Objects with the same keys in the same order, every value a scalar.
pub open spec fn tabular_ok(a: Seq<Json>) -> bool {
    a.len() > 0 && (forall|i: int| 0 <= i < a.len() ==> (#[trigger] a[i]) is Obj) && (forall|i: int|
        0 <= i < a.len() ==> #[trigger] keys_of(a[i]->Obj_0) == keys_of(a[0]->Obj_0)) && (forall|
        i: int,
        j: int,
    |
        0 <= i < a.len() && 0 <= j < (#[trigger] a[i]->Obj_0).len() ==> is_prim(
            #[trigger] a[i]->Obj_0[j].1,
        ))
}

/// The first `n` scalars as written, joined by `d`.
pub open spec fn prims_joined(a: Seq<Json>, n: int, d: char) -> Seq<char>
    decreases n,
{
    if n <= 0 {
        Seq::empty()
    } else if n == 1 {
        prim_text(a[0], d)
    } else {
        prims_joined(a, n - 1, d) + seq![d] + prim_text(a[n - 1], d)
    }
}

/// What follows the header of an inline array.
pub open spec fn inline_values(a: Seq<Json>, d: char) -> Seq<char> {
    if a.len() > 0 {
        seq![' '] + prims_joined(a, a.len() as int, d)
    } else {
        Seq::empty()
    }
}

/// The first `n` rows of a tabular array, each on its own line one level deeper.
pub open spec fn rows_text(a: Seq<Json>, n: int, depth: int, ind: int, d: char) -> Seq<char>
    decreases n,
{
    if n <= 0 {
        Seq::empty()
    } else {
        let fs = a[n - 1]->Obj_0;
        rows_text(a, n - 1, depth, ind, d) + seq!['\n'] + spaces((depth + 1) * ind) + prims_joined(
            values_of(fs),
            fs.len() as int,
            d,
        )
    }
}

/// A value as written at `depth`.
pub open spec fn enc_value(v: Json, depth: int, ind: int, d: Delimiter) -> Seq<char>
    decreases v, 4int, 0int, 0int,
{
    match v {
        Json::Obj(_) => enc_object(v, depth, ind, d),
        Json::Arr(_) => enc_array(v, depth, ind, d),
        _ => prim_text(v, d.char_spec()),
    }
}

/// An object's fields, each on its own line at `depth`; the first one on a
/// fresh line only below the root.
pub open spec fn enc_object(v: Json, depth: int, ind: int, d: Delimiter) -> Seq<char>
    decreases v, 1int, 0int, 0int,
{
    match v {
        Json::Obj(fs) => object_fields(v, fs.len() as int, depth, ind, d),
        _ => Seq::empty(),
    }
}

pub open spec fn object_fields(v: Json, n: int, depth: int, ind: int, d: Delimiter) -> Seq<char>
    decreases v, 0int, n, 1int,
{
    match v {
        Json::Obj(fs) => if n <= 0 || n > fs.len() {
            Seq::empty()
        } else {
            object_fields(v, n - 1, depth, ind, d) + object_field(v, n - 1, depth, ind, d)
        },
        _ => Seq::empty(),
    }
}

/// Field `i` of an object, on its own line at `depth`.
pub open spec fn object_field(v: Json, i: int, depth: int, ind: int, d: Delimiter) -> Seq<char>
    decreases v, 0int, i + 1, 0int,
{
    match v {
        Json::Obj(fs) => if i < 0 || i >= fs.len() {
            Seq::empty()
        } else {
            let (k, c) = fs[i];
            (if i > 0 || depth > 0 {
                seq!['\n']
            } else {
                Seq::empty()
            }) + spaces(depth * ind) + key_text(k) + match c {
                Json::Obj(_) => seq![':'] + enc_object(c, depth + 1, ind, d),
                Json::Arr(_) => enc_array(c, depth, ind, d),
                _ => seq![':', ' '] + prim_text(c, d.char_spec()),
            }
        },
        _ => Seq::empty(),
    }
}

/// An array after its key (or at the root): tabular, inline or a list.
pub open spec fn enc_array(v: Json, depth: int, ind: int, d: Delimiter) -> Seq<char>
    decreases v, 3int, 0int, 0int,
{
    match v {
        Json::Arr(a) => if tabular_ok(a) {
            header_text(a.len(), d, Some(keys_of(a[0]->Obj_0))) + rows_text(
                a,
                a.len() as int,
                depth,
                ind,
                d.char_spec(),
            )
        } else if inline_ok(a) {
            header_text(a.len(), d, None) + inline_values(a, d.char_spec())
        } else {
            header_text(a.len(), d, None) + list_items(v, a.len() as int, depth, ind, d)
        },
        _ => Seq::empty(),
    }
}

/// The first `n` items of a list array, each after a hyphen one level deeper.
pub open spec fn list_items(v: Json, n: int, depth: int, ind: int, d: Delimiter) -> Seq<char>
    decreases v, 2int, n, 0int,
{
    match v {
        Json::Arr(a) => if n <= 0 || n > a.len() {
            Seq::empty()
        } else {
            list_items(v, n - 1, depth, ind, d) + seq!['\n'] + spaces((depth + 1) * ind) + seq![
                '-',
                ' ',
            ] + item_text(a[n - 1], depth + 1, ind, d)
        },
        _ => Seq::empty(),
    }
}

/// A list item after its hyphen: an inline array, an object with its first
/// field on the hyphen line, or a scalar.
pub open spec fn item_text(x: Json, depth: int, ind: int, d: Delimiter) -> Seq<char>
    decreases x, 1int, 0int, 0int,
{
    match x {
        Json::Arr(inner) => header_text(inner.len(), d, None) + inline_values(inner, d.char_spec()),
        Json::Obj(fs) => item_fields(x, fs.len() as int, depth, ind, d),
        _ => prim_text(x, d.char_spec()),
    }
}

pub open spec fn item_fields(x: Json, n: int, depth: int, ind: int, d: Delimiter) -> Seq<char>
    decreases x, 0int, n, 1int,
{
    match x {
        Json::Obj(fs) => if n <= 0 || n > fs.len() {
            Seq::empty()
        } else {
            item_fields(x, n - 1, depth, ind, d) + item_field(x, n - 1, depth, ind, d)
        },
        _ => Seq::empty(),
    }
}

/// Field `i` of a list-item object; the first one stays on the hyphen line.
pub open spec fn item_field(x: Json, i: int, depth: int, ind: int, d: Delimiter) -> Seq<char>
    decreases x, 0int, i + 1, 0int,
{
    match x {
        Json::Obj(fs) => if i < 0 || i >= fs.len() {
            Seq::empty()
        } else {
            let (k, c) = fs[i];
            (if i > 0 {
                seq!['\n'] + spaces(depth * ind)
            } else {
                Seq::empty()
            }) + key_text(k) + item_value_text(c, depth, ind, d)
        },
        _ => Seq::empty(),
    }
}

/// What follows the key of a list-item object's field: a nested object on the
/// lines below, an array's header and values, or a colon and a scalar.
pub open spec fn item_value_text(c: Json, depth: int, ind: int, d: Delimiter) -> Seq<char>
    decreases c, 5int, 0int, 0int,
{
    match c {
        Json::Obj(_) => seq![':'] + enc_object(c, depth + 1, ind, d),
        Json::Arr(_) => enc_array(c, depth, ind, d),
        _ => seq![':', ' '] + prim_text(c, d.char_spec()),
    }
}

/// The TOON text of a value tree.
pub open spec fn encode_spec(v: Json, ind: int, d: Delimiter) -> Seq<char> {
    enc_value(v, 0, ind, d)
}

/// Levels of nesting below a value.
pub open spec fn height(v: Json) -> nat
    decreases v, 1int, 0int,
{
    match v {
        Json::Arr(a) => 1 + arr_height(v, a.len() as int),
        Json::Obj(fs) => 1 + obj_height(v, fs.len() as int),
        _ => 0,
    }
}

pub open spec fn arr_height(v: Json, n: int) -> nat
    decreases v, 0int, n,
{
    match v {
        Json::Arr(a) => if n <= 0 || n > a.len() {
            0
        } else {
            let h = height(a[n - 1]);
            let r = arr_height(v, n - 1);
            if h > r {
                h
            } else {
                r
            }
        },
        _ => 0,
    }
}

pub open spec fn obj_height(v: Json, n: int) -> nat
    decreases v, 0int, n,
{
    match v {
        Json::Obj(fs) => if n <= 0 || n > fs.len() {
            0
        } else {
            let h = height(fs[n - 1].1);
            let r = obj_height(v, n - 1);
            if h > r {
                h
            } else {
                r
            }
        },
        _ => 0,
    }
}

proof fn lemma_arr_height(v: Json, i: int, n: int)
    requires
        v is Arr,
        0 <= i < n <= v->Arr_0.len(),
    ensures
        height(v->Arr_0[i]) <= arr_height(v, n),
    decreases n,
{
    if i < n - 1 {
        lemma_arr_height(v, i, n - 1);
    }
}

proof fn lemma_obj_height(v: Json, i: int, n: int)
    requires
        v is Obj,
        0 <= i < n <= v->Obj_0.len(),
    ensures
        height(v->Obj_0[i].1) <= obj_height(v, n),
    decreases n,
{
    if i < n - 1 {
        lemma_obj_height(v, i, n - 1);
    }
}

/// An element of an array is lower than the array.
pub proof fn lemma_elem_lower(v: Json, i: int)
    requires
        v is Arr,
        0 <= i < v->Arr_0.len(),
    ensures
        height(v->Arr_0[i]) < height(v),
{
    lemma_arr_height(v, i, v->Arr_0.len() as int);
}

/// A field value of an object is lower than the object.
pub proof fn lemma_field_lower(v: Json, i: int)
    requires
        v is Obj,
        0 <= i < v->Obj_0.len(),
    ensures
        height(v->Obj_0[i].1) < height(v),
{
    lemma_obj_height(v, i, v->Obj_0.len() as int);
}

/// Encoding state: the options and the text written so far.
pub struct Encoder {
    pub options: EncoderOptions,
    pub output: Vec<char>,
}

impl Encoder {
    pub fn new(options: &EncoderOptions) -> (r: Encoder)
        ensures
            r.options == *options,
            r.output@ == Seq::<char>::empty(),
    {
        Encoder { options: *options, output: Vec::new() }
    }

    /// Writes `depth` levels of indentation.
    pub fn indent(&mut self, depth: usize)
        ensures
            final(self).options == old(self).options,
            final(self).output@ == old(self).output@ + spaces(depth * old(self).options.indent),
    {
        let w = self.options.indent;
        let mut level: usize = 0;
        while level < depth
            invariant
                level <= depth,
                w == self.options.indent,
                self.options == old(self).options,
                self.output@ == old(self).output@ + spaces(level * w),
            decreases depth - level,
        {
            let mut k: usize = 0;
            while k < w
                invariant
                    k <= w,
                    level < depth,
                    w == self.options.indent,
                    self.options == old(self).options,
                    self.output@ == old(self).output@ + spaces(level * w + k),
                decreases w - k,
            {
                self.output.push(' ');
                assert(spaces(level * w + k + 1) =~= spaces(level * w + k).push(' '));
                k += 1;
            }
            assert((level + 1) * w == level * w + w) by (nonlinear_arith);
            level += 1;
        }
    }

    /// `s` escaped and wrapped in double quotes.
    pub fn quote_and_escape(&self, s: &Vec<char>) -> (r: Vec<char>)
        ensures
            r@ == quoted_spec(s@),
    {
        let mut result: Vec<char> = Vec::new();
        result.push('"');
        let mut i: usize = 0;
        assert(s@.subrange(0, 0) =~= Seq::<char>::empty());
        while i < s.len()
            invariant
                i <= s@.len(),
                result@ == seq!['"'] + escape_seq(s@.subrange(0, i as int)),
            decreases s@.len() - i,
        {
            let c = s[i];
            let ghost before = result@;
            if c == '\\' {
                result.push('\\');
                result.push('\\');
            } else if c == '"' {
                result.push('\\');
                result.push('"');
            } else if c == '\n' {
                result.push('\\');
                result.push('n');
            } else if c == '\r' {
                result.push('\\');
                result.push('r');
            } else if c == '\t' {
                result.push('\\');
                result.push('t');
            } else {
                result.push(c);
            }
            proof {
                assert(result@ =~= before + escape_char(c));
                assert(s@.subrange(0, i + 1) =~= s@.subrange(0, i as int).push(c));
                lemma_escape_push(s@.subrange(0, i as int), c);
            }
            i += 1;
        }
        result.push('"');
        assert(s@.subrange(0, s@.len() as int) =~= s@);
        assert(result@ =~= quoted_spec(s@));
        result
    }

    /// Whether a reader could take `s` for a number.
    pub fn is_numeric_like(&self, s: &Vec<char>) -> (r: bool)
        ensures
            r == numeric_like_spec(s@),
    {
        if s.len() >= 2 && s[0] == '0' && '0' <= s[1] && s[1] <= '9' {
            return true;
        }
        is_float_literal_text(s)
    }

    /// A string value as written under delimiter `delim`: quoted when it is
    /// empty, has whitespace at an edge, reads as a literal or a number, starts with `-`,
    /// or holds a structural character or the delimiter.
    pub fn quote_string(&self, s: &Vec<char>, delim: Delimiter) -> (r: Vec<char>)
        ensures
            r@ == string_text(s@, delim.char_spec()),
    {
        let n = s.len();
        let w_true = vec!['t', 'r', 'u', 'e'];
        let w_false = vec!['f', 'a', 'l', 's', 'e'];
        let w_null = vec!['n', 'u', 'l', 'l'];
        assert(w_true@ =~= seq!['t', 'r', 'u', 'e']);
        assert(w_false@ =~= seq!['f', 'a', 'l', 's', 'e']);
        assert(w_null@ =~= seq!['n', 'u', 'l', 'l']);
        let mut structural = false;
        let mut i: usize = 0;
        while i < n
            invariant
                i <= n == s@.len(),
                structural == exists|j: int| 0 <= j < i && is_structural_char(#[trigger] s@[j]),
            decreases n - i,
        {
            let c = s[i];
            if c == ':' || c == '"' || c == '\\' || c == '[' || c == ']' || c == '{' || c == '}'
                || c == '\n' || c == '\r' || c == '\t' {
                structural = true;
            }
            i += 1;
        }
        let needs = n == 0 || crate::text::is_ws_char(s[0]) || crate::text::is_ws_char(s[n - 1]) || crate::text::eq_chars(s, &w_true)
            || crate::text::eq_chars(s, &w_false) || crate::text::eq_chars(s, &w_null) || s[0]
            == '-' || structural || crate::text::contains_char(s, delim.as_char())
            || self.is_numeric_like(s);
        if needs {
            self.quote_and_escape(s)
        } else {
            slice_of(s, 0, n)
        }
    }

    /// A key as written: bare when it is an identifier-like word, else quoted.
    pub fn encode_key(&self, key: &Vec<char>) -> (r: Vec<char>)
        ensures
            r@ == key_text(key@),
    {
        let n = key.len();
        let mut plain = n > 0 && (('a' <= key[0] && key[0] <= 'z') || ('A' <= key[0] && key[0]
            <= 'Z') || key[0] == '_');
        let mut i: usize = 0;
        while i < n
            invariant
                i <= n == key@.len(),
                plain == (n > 0 && is_key_start(key@[0]) && forall|j: int|
                    0 <= j < i ==> is_key_char(#[trigger] key@[j])),
            decreases n - i,
        {
            let c = key[i];
            if !(('a' <= c && c <= 'z') || ('A' <= c && c <= 'Z') || c == '_' || ('0' <= c && c
                <= '9') || c == '.') {
                plain = false;
            }
            i += 1;
        }
        if plain {
            let r = slice_of(key, 0, n);
            assert(r@ =~= key@);
            r
        } else {
            self.quote_and_escape(key)
        }
    }

    /// A number as written.
    pub fn normalize_number(&self, n: &Number) -> (r: Vec<char>)
        ensures
            r@ == number_text(n@),
    {
        let mut out: Vec<char> = Vec::new();
        match n {
            Number::PosInt(u) => {
                push_decimal(&mut out, *u);
                assert(out@ =~= int_text(*u as int));
            },
            Number::NegInt(i) => {
                push_i64(&mut out, *i);
                assert(out@ =~= int_text(*i as int));
            },
            Number::Float(t) => {
                let tc = chars_of(t.as_str());
                out = normalize_float(&tc);
            },
        }
        out
    }

    /// A scalar as written; nothing for an array or an object.
    pub fn quote_primitive(&self, value: &Value, delim: Delimiter) -> (r: Vec<char>)
        ensures
            r@ == prim_text(value@, delim.char_spec()),
    {
        match value {
            Value::Null => {
                let r = vec!['n', 'u', 'l', 'l'];
                assert(r@ =~= seq!['n', 'u', 'l', 'l']);
                r
            },
            Value::Bool(b) => {
                if *b {
                    let r = vec!['t', 'r', 'u', 'e'];
                    assert(r@ =~= seq!['t', 'r', 'u', 'e']);
                    r
                } else {
                    let r = vec!['f', 'a', 'l', 's', 'e'];
                    assert(r@ =~= seq!['f', 'a', 'l', 's', 'e']);
                    r
                }
            },
            Value::Number(n) => self.normalize_number(n),
            Value::String(s) => {
                let sc = chars_of(s.as_str());
                self.quote_string(&sc, delim)
            },
            _ => Vec::new(),
        }
    }

    /// Writes an array header.
    pub fn write_array_header(&mut self, len: usize, delim: Delimiter, fields: Option<&Vec<Vec<char>>>)
        ensures
            final(self).options == old(self).options,
            final(self).output@ == old(self).output@ + header_text(
                len as nat,
                delim,
                match fields {
                    Some(f) => Some(crate::decoder::texts_view(f@)),
                    None => None,
                },
            ),
    {
        let ghost start = self.output@;
        self.output.push('[');
        push_decimal(&mut self.output, len as u64);
        let sym = delim.header_symbol();
        let sym_chars = chars_of(sym);
        append_chars(&mut self.output, &sym_chars);
        self.output.push(']');
        let ghost mid = self.output@;
        assert(mid =~= start + (seq!['['] + decimal_spec(len as nat) + delim.symbol_spec() + seq![
            ']',
        ]));
        match fields {
            Some(fs) => {
                self.output.push('{');
                let ghost fv = crate::decoder::texts_view(fs@);
                let mut i: usize = 0;
                while i < fs.len()
                    invariant
                        i <= fs@.len(),
                        fv == crate::decoder::texts_view(fs@),
                        self.options == old(self).options,
                        self.output@ == mid + seq!['{'] + keys_joined(fv, i as int, delim.char_spec()),
                    decreases fs@.len() - i,
                {
                    let ghost before = self.output@;
                    if i > 0 {
                        self.output.push(delim.as_char());
                    }
                    let k = self.encode_key(&fs[i]);
                    append_chars(&mut self.output, &k);
                    proof {
                        if i == 0 {
                            assert(self.output@ =~= mid + seq!['{'] + keys_joined(fv, 1, delim.char_spec()));
                        } else {
                            assert(self.output@ =~= before + seq![delim.char_spec()] + key_text(fv[i as int]));
                        }
                    }
                    i += 1;
                }
                self.output.push('}');
                let ghost after = self.output@;
                self.output.push(':');
                assert(self.output@ =~= start + header_text(len as nat, delim, Some(fv)));
            },
            None => {
                self.output.push(':');
                assert(self.output@ =~= start + header_text(len as nat, delim, None));
            },
        }
    }

    /// Writes a scalar.
    pub fn encode_primitive(&mut self, value: &Value, delim: Delimiter)
        ensures
            final(self).options == old(self).options,
            final(self).output@ == old(self).output@ + prim_text(value@, delim.char_spec()),
    {
        let t = self.quote_primitive(value, delim);
        append_chars(&mut self.output, &t);
    }

    /// Whether an array is empty or holds scalars of one kind only.
    pub fn is_inline_primitive_array(&self, arr: &Vec<Value>) -> (r: bool)
        ensures
            r == inline_ok(values_view(arr@)),
    {
        let ghost a = values_view(arr@);
        let n = arr.len();
        if n == 0 {
            return true;
        }
        let first_tag: u8 = match &arr[0] {
            Value::Number(_) => 0,
            Value::String(_) => 1,
            Value::Bool(_) => 2,
            _ => 3,
        };
        assert(first_tag == type_tag(a[0]));
        let mut i: usize = 0;
        while i < n
            invariant
                i <= n == arr@.len(),
                a == values_view(arr@),
                first_tag == type_tag(a[0]),
                forall|j: int| 0 <= j < i ==> is_prim(#[trigger] a[j]) && type_tag(a[j]) == type_tag(
                    a[0],
                ),
            decreases n - i,
        {
            let tag: u8 = match &arr[i] {
                Value::Number(_) => 0,
                Value::String(_) => 1,
                Value::Bool(_) => 2,
                Value::Null => 3,
                _ => {
                    assert(!is_prim(a[i as int]));
                    return false;
                },
            };
            if tag != first_tag {
                assert(type_tag(a[i as int]) != type_tag(a[0]));
                return false;
            }
            i += 1;
        }
        true
    }

    /// The field names when the array qualifies for the tabular form.
    pub fn detect_tabular(&self, arr: &Vec<Value>) -> (r: Option<Vec<Vec<char>>>)
        ensures
            r.is_some() == tabular_ok(values_view(arr@)),
            r.is_some() ==> texts_view(r.unwrap()@) == keys_of(values_view(arr@)[0]->Obj_0),
    {
        let ghost a = values_view(arr@);
        let n = arr.len();
        if n == 0 {
            return None;
        }
        let first = match &arr[0] {
            Value::Object(o) => o,
            _ => {
                assert(!(a[0] is Obj));
                return None;
            },
        };
        proof {
            lemma_object_view(*first);
        }
        let mut fields: Vec<Vec<char>> = Vec::new();
        let mut k: usize = 0;
        while k < first.len()
            invariant
                k <= first@.len(),
                a == values_view(arr@),
                a[0] == Json::Obj(fields_view(first@)),
                texts_view(fields@) == keys_of(fields_view(first@)).subrange(0, k as int),
            decreases first@.len() - k,
        {
            let name = chars_of(first[k].0.as_str());
            let ghost before = fields@;
            let ghost nv = name@;
            assert(nv == keys_of(fields_view(first@))[k as int]);
            fields.push(name);
            assert(texts_view(fields@) =~= texts_view(before).push(nv));
            assert(texts_view(fields@) =~= keys_of(fields_view(first@)).subrange(0, k + 1));
            k += 1;
        }
        let ghost keys0 = keys_of(fields_view(first@));
        assert(texts_view(fields@) =~= keys0);
        let mut i: usize = 0;
        while i < n
            invariant
                i <= n == arr@.len(),
                a == values_view(arr@),
                a[0] == Json::Obj(fields_view(first@)),
                keys0 == keys_of(fields_view(first@)),
                texts_view(fields@) == keys0,
                forall|j: int| 0 <= j < i ==> (#[trigger] a[j]) is Obj,
                forall|j: int| 0 <= j < i ==> #[trigger] keys_of(a[j]->Obj_0) == keys0,
                forall|j: int, m: int|
                    0 <= j < i && 0 <= m < (#[trigger] a[j]->Obj_0).len() ==> is_prim(
                        #[trigger] a[j]->Obj_0[m].1,
                    ),
            decreases n - i,
        {
            let o = match &arr[i] {
                Value::Object(o) => o,
                _ => {
                    assert(!(a[i as int] is Obj));
                    assert(!tabular_ok(a));
                    return None;
                },
            };
            proof {
                lemma_object_view(*o);
            }
            if o.len() != fields.len() {
                assert(keys_of(a[i as int]->Obj_0).len() != keys0.len());
                assert(!tabular_ok(a));
                return None;
            }
            let mut m: usize = 0;
            while m < o.len()
                invariant
                    m <= o@.len() == fields@.len(),
                    a == values_view(arr@),
                    i < n == arr@.len(),
                    a[0] == Json::Obj(fields_view(first@)),
                    keys0 == keys_of(fields_view(first@)),
                    a[i as int] == Json::Obj(fields_view(o@)),
                    texts_view(fields@) == keys0,
                    forall|q: int| 0 <= q < m ==> (#[trigger] fields_view(o@)[q]).0 == keys0[q],
                    forall|q: int| 0 <= q < m ==> is_prim((#[trigger] fields_view(o@)[q]).1),
                decreases o@.len() - m,
            {
                let name = chars_of(o[m].0.as_str());
                if !crate::text::eq_chars(&name, &fields[m]) {
                    assert(keys_of(a[i as int]->Obj_0)[m as int] != keys0[m as int]);
                    assert(!tabular_ok(a));
                    return None;
                }
                match &o[m].1 {
                    Value::Array(_) | Value::Object(_) => {
                        assert(!is_prim(a[i as int]->Obj_0[m as int].1));
                        assert(!tabular_ok(a));
                        return None;
                    },
                    _ => {},
                }
                m += 1;
            }
            assert(keys_of(a[i as int]->Obj_0) =~= keys0);
            i += 1;
        }
        Some(fields)
    }

    /// Writes scalars joined by the delimiter.
    fn write_joined(&mut self, vals: &Vec<Value>, delim: Delimiter)
        ensures
            final(self).options == old(self).options,
            final(self).output@ == old(self).output@ + prims_joined(
                values_view(vals@),
                vals@.len() as int,
                delim.char_spec(),
            ),
    {
        let ghost a = values_view(vals@);
        let mut i: usize = 0;
        while i < vals.len()
            invariant
                i <= vals@.len(),
                a == values_view(vals@),
                self.options == old(self).options,
                self.output@ == old(self).output@ + prims_joined(a, i as int, delim.char_spec()),
            decreases vals@.len() - i,
        {
            let ghost before = self.output@;
            if i > 0 {
                self.output.push(delim.as_char());
            }
            self.encode_primitive(&vals[i], delim);
            proof {
                if i == 0 {
                    assert(self.output@ =~= old(self).output@ + prims_joined(a, 1, delim.char_spec()));
                } else {
                    assert(self.output@ =~= before + seq![delim.char_spec()] + prim_text(
                        a[i as int],
                        delim.char_spec(),
                    ));
                }
            }
            i += 1;
        }
    }

    /// Writes the values of one tabular row joined by the delimiter.
    fn write_row(&mut self, o: &Vec<(String, Value)>, delim: Delimiter)
        ensures
            final(self).options == old(self).options,
            final(self).output@ == old(self).output@ + prims_joined(
                values_of(fields_view(o@)),
                o@.len() as int,
                delim.char_spec(),
            ),
    {
        let ghost a = values_of(fields_view(o@));
        let mut i: usize = 0;
        while i < o.len()
            invariant
                i <= o@.len(),
                a == values_of(fields_view(o@)),
                self.options == old(self).options,
                self.output@ == old(self).output@ + prims_joined(a, i as int, delim.char_spec()),
            decreases o@.len() - i,
        {
            let ghost before = self.output@;
            if i > 0 {
                self.output.push(delim.as_char());
            }
            assert(a[i as int] == o@[i as int].1@);
            self.encode_primitive(&o[i].1, delim);
            proof {
                if i == 0 {
                    assert(self.output@ =~= old(self).output@ + prims_joined(a, 1, delim.char_spec()));
                } else {
                    assert(self.output@ =~= before + seq![delim.char_spec()] + prim_text(
                        a[i as int],
                        delim.char_spec(),
                    ));
                }
            }
            i += 1;
        }
    }

    /// Writes field `i` of an object at `depth`.
    #[verifier::rlimit(100)]
    fn encode_field(&mut self, obj: &Vec<(String, Value)>, i: usize, depth: usize)
        requires
            i < obj@.len(),
            depth + 2 * height(Json::Obj(fields_view(obj@))) <= usize::MAX,
        ensures
            final(self).options == old(self).options,
            final(self).output@ == old(self).output@ + object_field(
                Json::Obj(fields_view(obj@)),
                i as int,
                depth as int,
                old(self).options.indent as int,
                old(self).options.delimiter,
            ),
        decreases Json::Obj(fields_view(obj@)), 0int,
    {
        let ghost j = Json::Obj(fields_view(obj@));
        let ghost ind = self.options.indent as int;
        let delim = self.options.delimiter;
        if i > 0 || depth > 0 {
            self.output.push('\n');
        }
        self.indent(depth);
        let kc = chars_of(obj[i].0.as_str());
        let kt = self.encode_key(&kc);
        append_chars(&mut self.output, &kt);
        let ghost mid = self.output@;
        let ghost c = fields_view(obj@)[i as int].1;
        proof {
            lemma_field_lower(j, i as int);
        }
        match &obj[i].1 {
            Value::Object(nested) => {
                proof {
                    lemma_object_view(*nested);
                }
                self.output.push(':');
                self.encode_object(nested, depth + 1);
                assert(self.output@ =~= mid + (seq![':'] + enc_object(c, depth + 1, ind, delim)));
            },
            Value::Array(arr) => {
                proof {
                    lemma_array_view(*arr);
                }
                self.encode_array_after_key(arr, depth);
            },
            _ => {
                self.output.push(':');
                self.output.push(' ');
                self.encode_primitive(&obj[i].1, delim);
                assert(self.output@ =~= mid + (seq![':', ' '] + prim_text(c, delim.char_spec())));
            },
        }
        assert(self.output@ =~= old(self).output@ + object_field(j, i as int, depth as int, ind, delim));
    }

    /// Writes an object's fields at `depth`.
    pub fn encode_object(&mut self, obj: &Vec<(String, Value)>, depth: usize)
        requires
            depth + 2 * height(Json::Obj(fields_view(obj@))) <= usize::MAX,
        ensures
            final(self).options == old(self).options,
            final(self).output@ == old(self).output@ + enc_object(
                Json::Obj(fields_view(obj@)),
                depth as int,
                old(self).options.indent as int,
                old(self).options.delimiter,
            ),
        decreases Json::Obj(fields_view(obj@)), 1int,
    {
        let ghost j = Json::Obj(fields_view(obj@));
        let ghost ind = self.options.indent as int;
        let ghost delim = self.options.delimiter;
        let mut i: usize = 0;
        while i < obj.len()
            invariant
                i <= obj@.len(),
                j == Json::Obj(fields_view(obj@)),
                depth + 2 * height(j) <= usize::MAX,
                delim == self.options.delimiter,
                ind == self.options.indent as int,
                self.options == old(self).options,
                self.output@ == old(self).output@ + object_fields(j, i as int, depth as int, ind, delim),
            decreases obj@.len() - i,
        {
            self.encode_field(obj, i, depth);
            i += 1;
        }
    }

    /// Writes an array after its key: its header, then its rows, values or items.
    #[verifier::rlimit(100)]
    pub fn encode_array_after_key(&mut self, arr: &Vec<Value>, depth: usize)
        requires
            depth + 2 * height(Json::Arr(values_view(arr@))) <= usize::MAX,
        ensures
            final(self).options == old(self).options,
            final(self).output@ == old(self).output@ + enc_array(
                Json::Arr(values_view(arr@)),
                depth as int,
                old(self).options.indent as int,
                old(self).options.delimiter,
            ),
        decreases Json::Arr(values_view(arr@)), 3int,
    {
        let ghost j = Json::Arr(values_view(arr@));
        let ghost a = values_view(arr@);
        let ghost ind = self.options.indent as int;
        let len = arr.len();
        let delim = self.options.delimiter;
        let ghost start = self.output@;
        if let Some(fields) = self.detect_tabular(arr) {
            self.write_array_header(len, delim, Some(&fields));
            let ghost mid = self.output@;
            let mut i: usize = 0;
            while i < len
                invariant
                    i <= len == arr@.len(),
                    a == values_view(arr@),
                    tabular_ok(a),
                    delim == self.options.delimiter,
                    ind == self.options.indent as int,
                    depth + 2 <= usize::MAX,
                    self.options == old(self).options,
                    self.output@ == mid + rows_text(a, i as int, depth as int, ind, delim.char_spec()),
                decreases len - i,
            {
                let ghost before = self.output@;
                self.output.push('\n');
                self.indent(depth + 1);
                match &arr[i] {
                    Value::Object(o) => {
                        proof {
                            lemma_object_view(*o);
                        }
                        self.write_row(o, delim);
                    },
                    _ => {
                        assert(a[i as int] is Obj);
                    },
                }
                assert(self.output@ =~= mid + rows_text(
                    a,
                    i + 1,
                    depth as int,
                    ind,
                    delim.char_spec(),
                ));
                i += 1;
            }
            return;
        }
        if self.is_inline_primitive_array(arr) {
            self.write_array_header(len, delim, None);
            if len > 0 {
                self.output.push(' ');
                self.write_joined(arr, delim);
            }
            assert(self.output@ =~= start + enc_array(j, depth as int, ind, delim));
            return;
        }
        self.write_array_header(len, delim, None);
        let ghost mid = self.output@;
        let mut i: usize = 0;
        while i < len
            invariant
                i <= len == arr@.len(),
                a == values_view(arr@),
                j == Json::Arr(a),
                depth + 2 * height(j) <= usize::MAX,
                delim == self.options.delimiter,
                ind == self.options.indent as int,
                self.options == old(self).options,
                self.output@ == mid + list_items(j, i as int, depth as int, ind, delim),
            decreases len - i,
        {
            let ghost before = self.output@;
            self.encode_list_item(arr, i, depth);
            assert(self.output@ =~= mid + list_items(j, i + 1, depth as int, ind, delim));
            i += 1;
        }
    }

    /// Writes item `i` of a list array, on its own line after a hyphen.
    fn encode_list_item(&mut self, arr: &Vec<Value>, i: usize, depth: usize)
        requires
            i < arr@.len(),
            depth + 2 * height(Json::Arr(values_view(arr@))) <= usize::MAX,
        ensures
            final(self).options == old(self).options,
            final(self).output@ == old(self).output@ + seq!['\n'] + spaces(
                (depth + 1) * old(self).options.indent,
            ) + seq!['-', ' '] + item_text(
                values_view(arr@)[i as int],
                depth + 1,
                old(self).options.indent as int,
                old(self).options.delimiter,
            ),
        decreases Json::Arr(values_view(arr@)), 2int,
    {
        let ghost j = Json::Arr(values_view(arr@));
        let ghost a = values_view(arr@);
        let ghost ind = self.options.indent as int;
        let delim = self.options.delimiter;
        proof {
            lemma_elem_lower(j, i as int);
        }
        self.output.push('\n');
        self.indent(depth + 1);
        self.output.push('-');
        self.output.push(' ');
        let ghost hy = self.output@;
        match &arr[i] {
            Value::Array(inner) => {
                proof {
                    lemma_array_view(*inner);
                }
                self.write_array_header(inner.len(), delim, None);
                if inner.len() > 0 {
                    self.output.push(' ');
                    self.write_joined(inner, delim);
                }
                assert(self.output@ =~= hy + item_text(a[i as int], depth + 1, ind, delim));
            },
            Value::Object(o) => {
                proof {
                    lemma_object_view(*o);
                }
                self.encode_object_as_list_item(o, depth + 1);
            },
            _ => {
                self.encode_primitive(&arr[i], delim);
            },
        }
        assert(self.output@ =~= old(self).output@ + seq!['\n'] + spaces((depth + 1) * ind)
            + seq!['-', ' '] + item_text(a[i as int], depth + 1, ind, delim));
    }

    /// Writes an array at the root.
    pub fn encode_array(&mut self, arr: &Vec<Value>, depth: usize)
        requires
            depth + 2 * height(Json::Arr(values_view(arr@))) <= usize::MAX,
        ensures
            final(self).options == old(self).options,
            final(self).output@ == old(self).output@ + enc_array(
                Json::Arr(values_view(arr@)),
                depth as int,
                old(self).options.indent as int,
                old(self).options.delimiter,
            ),
        decreases Json::Arr(values_view(arr@)), 4int,
    {
        self.encode_array_after_key(arr, depth);
    }

    /// Writes what follows the key of a list-item object's field.
    fn encode_item_value(&mut self, value: &Value, depth: usize)
        requires
            depth + 1 + 2 * height(value@) <= usize::MAX,
        ensures
            final(self).options == old(self).options,
            final(self).output@ == old(self).output@ + item_value_text(
                value@,
                depth as int,
                old(self).options.indent as int,
                old(self).options.delimiter,
            ),
        decreases value@, 6int,
    {
        let ghost ind = self.options.indent as int;
        let delim = self.options.delimiter;
        let ghost start = self.output@;
        match value {
            Value::Object(nested) => {
                proof {
                    lemma_object_view(*nested);
                }
                self.output.push(':');
                self.encode_object(nested, depth + 1);
                assert(self.output@ =~= start + (seq![':'] + enc_object(value@, depth + 1, ind, delim)));
            },
            Value::Array(arr) => {
                proof {
                    lemma_array_view(*arr);
                }
                self.encode_array_after_key(arr, depth);
            },
            _ => {
                self.output.push(':');
                self.output.push(' ');
                self.encode_primitive(value, delim);
                assert(self.output@ =~= start + (seq![':', ' '] + prim_text(value@, delim.char_spec())));
            },
        }
    }

    /// Writes field `i` of a list-item object.
    fn encode_item_field(&mut self, obj: &Vec<(String, Value)>, i: usize, depth: usize)
        requires
            i < obj@.len(),
            depth + 2 * height(Json::Obj(fields_view(obj@))) <= usize::MAX,
        ensures
            final(self).options == old(self).options,
            final(self).output@ == old(self).output@ + item_field(
                Json::Obj(fields_view(obj@)),
                i as int,
                depth as int,
                old(self).options.indent as int,
                old(self).options.delimiter,
            ),
        decreases Json::Obj(fields_view(obj@)), 0int,
    {
        let ghost j = Json::Obj(fields_view(obj@));
        let ghost ind = self.options.indent as int;
        let delim = self.options.delimiter;
        if i > 0 {
            self.output.push('\n');
            self.indent(depth);
        }
        let kc = chars_of(obj[i].0.as_str());
        let kt = self.encode_key(&kc);
        append_chars(&mut self.output, &kt);
        let ghost mid = self.output@;
        proof {
            lemma_field_lower(j, i as int);
        }
        assert(obj@[i as int].1@ == fields_view(obj@)[i as int].1);
        self.encode_item_value(&obj[i].1, depth);
        assert(self.output@ =~= old(self).output@ + item_field(j, i as int, depth as int, ind, delim));
    }

    /// Writes an object that is a list item: its first field right after the
    /// hyphen, the others on their own lines at `depth`.
    pub fn encode_object_as_list_item(&mut self, obj: &Vec<(String, Value)>, depth: usize)
        requires
            depth + 2 * height(Json::Obj(fields_view(obj@))) <= usize::MAX,
        ensures
            final(self).options == old(self).options,
            final(self).output@ == old(self).output@ + item_fields(
                Json::Obj(fields_view(obj@)),
                obj@.len() as int,
                depth as int,
                old(self).options.indent as int,
                old(self).options.delimiter,
            ),
        decreases Json::Obj(fields_view(obj@)), 1int,
    {
        let ghost j = Json::Obj(fields_view(obj@));
        let ghost ind = self.options.indent as int;
        let ghost delim = self.options.delimiter;
        let mut i: usize = 0;
        while i < obj.len()
            invariant
                i <= obj@.len(),
                j == Json::Obj(fields_view(obj@)),
                depth + 2 * height(j) <= usize::MAX,
                delim == self.options.delimiter,
                ind == self.options.indent as int,
                self.options == old(self).options,
                self.output@ == old(self).output@ + item_fields(j, i as int, depth as int, ind, delim),
            decreases obj@.len() - i,
        {
            self.encode_item_field(obj, i, depth);
            i += 1;
        }
    }

    /// Writes a value at `depth`.
    pub fn encode_value(&mut self, value: &Value, depth: usize)
        requires
            depth + 2 * height(value@) <= usize::MAX,
        ensures
            final(self).options == old(self).options,
            final(self).output@ == old(self).output@ + enc_value(
                value@,
                depth as int,
                old(self).options.indent as int,
                old(self).options.delimiter,
            ),
        decreases value@, 5int,
    {
        match value {
            Value::Object(o) => {
                proof {
                    lemma_object_view(*o);
                }
                self.encode_object(o, depth);
            },
            Value::Array(a) => {
                proof {
                    lemma_array_view(*a);
                }
                self.encode_array(a, depth);
            },
            _ => {
                let d = self.options.delimiter;
                self.encode_primitive(value, d);
            },
        }
    }
}

/// Encodes a value tree as TOON text. The tree holds each key once per object
/// and its doubles as decimal literals: [`crate::wf::is_encodable`] tells.
pub fn encode(value: &Value, options: &EncoderOptions) -> (r: String)
    requires
        crate::wf::encodable(value@),
        2 * height(value@) <= usize::MAX,
    ensures
        r@ == encode_spec(value@, options.indent as int, options.delimiter),
{
    let mut encoder = Encoder::new(options);
    encoder.encode_value(value, 0);
    string_from_chars(&encoder.output)
}

} // verus!
