//! Properties that relate the encoder and the decoder: single tokens (a scalar,
//! a key, a quoted string) and whole objects nested to any depth whose leaves
//! are scalars or inline arrays of scalars.

use vstd::prelude::*;
use crate::common::Delimiter;
use crate::decoder::{
    after_colon, colon_scan, key_is_bare, decode_lines_spec, decode_spec, escape_target, field_value,
    has_colon_scan, header_delimiter, header_spec, inline_spec, is_quoted, key_index_from,
    key_value_spec, lines_spec, number_guard, obj_insert, object_loop, parse_usize_spec,
    piece_line, prims_from, primitive_spec, quote_inner, scan_lines, split_scan, split_spec,
    try_array, unescape_spec, unquote_spec, EscapeFault, Fields, LineModel, brace_scan,
    unquote_from, bracket_scan, opens_root_array, root_array_spec, has_bracket_colon,
    header_rest,
};
use crate::encoder::{
    enc_array, enc_object, encode_spec, escape_char, escape_seq, header_text, inline_ok,
    inline_values, is_key_char, is_plain_key, is_structural_char, key_text, needs_quotes,
    object_field, object_fields, prim_text, prims_joined, quoted_spec, spaces, tabular_ok,
    keys_of, list_items, keys_joined,
};
use crate::text::{
    all_digits, decimal_spec, digit_char, digits_value, exp_index, find_from, int_text,
    is_decimal_literal, is_digit, is_float_literal, is_mantissa, is_ws, leading_ws_bytes,
    parse_i64_spec, strip_sign, trim_end_spec, trim_spec, trim_start_spec,
};
use crate::value::{Json, NumberModel};

verus! {

/// Text whose first and last characters are not whitespace is its own trim.
pub proof fn lemma_trim_no_edge_ws(t: Seq<char>)
    requires
        t.len() == 0 || (!is_ws(t[0]) && !is_ws(t.last())),
    ensures
        trim_spec(t) == t,
{
    assert(trim_start_spec(t) == t);
    assert(trim_end_spec(t) == t);
}

/// Resolving the escapes of an escaped text gives the text back, in either mode.
pub proof fn lemma_unescape_escape(s: Seq<char>, strict: bool)
    ensures
        unescape_spec(escape_seq(s), strict) == Ok::<Seq<char>, EscapeFault>(s),
    decreases s.len(),
{
    if s.len() == 0 {
        assert(escape_seq(s) == Seq::<char>::empty());
        assert(s =~= Seq::<char>::empty());
    } else {
        let c = s[0];
        let rest = s.drop_first();
        let e = escape_seq(s);
        lemma_unescape_escape(rest, strict);
        assert(e == escape_char(c) + escape_seq(rest));
        if c == '\\' || c == '"' || c == '\n' || c == '\r' || c == '\t' {
            assert(escape_char(c).len() == 2);
            assert(e.len() >= 2);
            assert(e[0] == escape_char(c)[0]);
            assert(e[1] == escape_char(c)[1]);
            assert(e[0] == '\\');
            assert(e.subrange(2, e.len() as int) =~= escape_seq(rest));
            assert(escape_target(e[1]) == Some(c));
            assert(seq![c] + rest =~= s);
        } else {
            assert(escape_char(c) == seq![c]);
            assert(e[0] == c);
            assert(e.drop_first() =~= escape_seq(rest));
            assert(seq![c] + rest =~= s);
        }
    }
}

/// A quoted string token reads back as the string it quotes.
pub proof fn lemma_quoted_round_trip(s: Seq<char>, strict: bool, line: int)
    ensures
        unquote_spec(quoted_spec(s), strict, line) == Ok::<
            Seq<char>,
            crate::error::DecodeFault,
        >(s),
{
    let q = quoted_spec(s);
    assert(q[0] == '"');
    assert(q.last() == '"');
    lemma_trim_no_edge_ws(q);
    assert(quote_inner(q) =~= escape_seq(s));
    lemma_unescape_escape(s, strict);
}

/// Every key, as the encoder writes it, reads back as itself.
pub proof fn lemma_key_round_trip(k: Seq<char>, strict: bool, line: int)
    ensures
        unquote_spec(key_text(k), strict, line) == Ok::<Seq<char>, crate::error::DecodeFault>(k),
{
    if is_plain_key(k) {
        assert(is_key_char(k[0]));
        assert(is_key_char(k.last()));
        lemma_trim_no_edge_ws(k);
        assert(!is_quoted(k));
    } else {
        lemma_quoted_round_trip(k, strict, line);
    }
}

proof fn lemma_exp_index_digits(d: Seq<char>)
    requires
        all_digits(d),
    ensures
        exp_index(d) == d.len(),
    decreases d.len(),
{
    if d.len() > 0 {
        assert(is_digit(d[0]));
        assert(all_digits(d.drop_first())) by {
            assert forall|i: int| 0 <= i < d.drop_first().len() implies is_digit(
                #[trigger] d.drop_first()[i],
            ) by {
                assert(d.drop_first()[i] == d[i + 1]);
            }
        }
        lemma_exp_index_digits(d.drop_first());
    }
}

/// Text that reads as an `i64` also reads as a double.
pub proof fn lemma_int_text_is_float(s: Seq<char>)
    requires
        parse_i64_spec(s).is_some(),
    ensures
        is_float_literal(s),
{
    let d = strip_sign(s);
    lemma_exp_index_digits(d);
    assert(d.subrange(0, d.len() as int) =~= d);
    assert(is_mantissa(d.subrange(0, exp_index(d))));
    assert(is_decimal_literal(d));
}

proof fn lemma_decimal(n: nat)
    ensures
        decimal_spec(n).len() >= 1,
        all_digits(decimal_spec(n)),
        digits_value(decimal_spec(n)) == n,
        n == 0 ==> decimal_spec(n) == seq!['0'],
        n > 0 ==> decimal_spec(n)[0] != '0',
    decreases n,
{
    let t = seq!['0', '1', '2', '3', '4', '5', '6', '7', '8', '9'];
    assert forall|k: int| 0 <= k < 10 implies is_digit(#[trigger] digit_char(k)) && (digit_char(
        k,
    ) as u32) - ('0' as u32) == k by {
        assert(digit_char(k) == t[k]);
    }
    if n < 10 {
        assert(decimal_spec(n) =~= seq![digit_char(n as int)]);
        assert(decimal_spec(n).drop_last() =~= Seq::<char>::empty());
        assert(digits_value(Seq::<char>::empty()) == 0);
        assert(is_digit(digit_char(n as int)) && (digit_char(n as int) as u32) - ('0' as u32) == n);
        if n > 0 {
            assert(digit_char(n as int) != '0');
        }
    } else {
        lemma_decimal(n / 10);
        let p = decimal_spec(n / 10);
        let r = decimal_spec(n);
        assert(r == p.push(digit_char((n % 10) as int)));
        assert(r.drop_last() =~= p);
        let k = (n % 10) as int;
        assert(is_digit(digit_char(k)) && (digit_char(k) as u32) - ('0' as u32) == k);
        assert(n == 10 * (n / 10) + n % 10);
        assert(all_digits(r)) by {
            assert forall|i: int| 0 <= i < r.len() implies is_digit(#[trigger] r[i]) by {
                if i < p.len() {
                    assert(r[i] == p[i]);
                }
            }
        }
        assert(r[0] == p[0]);
    }
}

proof fn lemma_int_text(i: int)
    requires
        i64::MIN <= i <= i64::MAX,
    ensures
        int_text(i).len() >= 1,
        int_text(i)[0] == '-' || is_digit(int_text(i)[0]),
        is_digit(int_text(i).last()),
        number_guard(int_text(i)),
        parse_i64_spec(int_text(i)) == Some(i),
{
    let t = int_text(i);
    if i < 0 {
        let m = (-i) as nat;
        lemma_decimal(m);
        let d = decimal_spec(m);
        assert(t.drop_first() =~= d);
        assert(t.last() == d.last());
        assert(is_digit(d[d.len() - 1]));
    } else {
        lemma_decimal(i as nat);
        let d = decimal_spec(i as nat);
        assert(is_digit(d[0]));
        assert(is_digit(d[d.len() - 1]));
        if i == 0 {
            assert(t == seq!['0']);
        }
    }
}

/// The literal texts differ from one another and from other text in their
/// first character.
proof fn lemma_literals_differ(t: Seq<char>)
    requires
        t.len() > 0,
    ensures
        t[0] != 't' ==> t != seq!['t', 'r', 'u', 'e'],
        t[0] != 'f' ==> t != seq!['f', 'a', 'l', 's', 'e'],
        t[0] != 'n' ==> t != seq!['n', 'u', 'l', 'l'],
{
    if t[0] != 't' {
        assert(seq!['t', 'r', 'u', 'e'][0] == 't');
    }
    if t[0] != 'f' {
        assert(seq!['f', 'a', 'l', 's', 'e'][0] == 'f');
    }
    if t[0] != 'n' {
        assert(seq!['n', 'u', 'l', 'l'][0] == 'n');
    }
}

/// The scalars that survive the trip through text: null, booleans, integers
/// within `i64`, and every string.
pub open spec fn round_trips(v: Json, d: char) -> bool {
    match v {
        Json::Null => true,
        Json::Bool(_) => true,
        Json::Num(NumberModel::Int(i)) => i64::MIN <= i <= i64::MAX,
        Json::Str(_) => true,
        _ => false,
    }
}

/// A scalar written by the encoder reads back as the same scalar, under every
/// delimiter and in either mode.
pub proof fn lemma_scalar_round_trip(v: Json, d: Delimiter, strict: bool, line: int)
    requires
        round_trips(v, d.char_spec()),
    ensures
        primitive_spec(prim_text(v, d.char_spec()), strict, line) == Ok::<
            Json,
            crate::error::DecodeFault,
        >(v),
{
    let dc = d.char_spec();
    let t = prim_text(v, dc);
    match v {
        Json::Null => {
            assert(t == seq!['n', 'u', 'l', 'l']);
            lemma_trim_no_edge_ws(t);
            lemma_literals_differ(t);
        },
        Json::Bool(b) => {
            if b {
                assert(t == seq!['t', 'r', 'u', 'e']);
            } else {
                assert(t == seq!['f', 'a', 'l', 's', 'e']);
            }
            lemma_trim_no_edge_ws(t);
            lemma_literals_differ(t);
        },
        Json::Num(NumberModel::Int(i)) => {
            lemma_int_text(i);
            assert(t == int_text(i));
            lemma_trim_no_edge_ws(t);
            lemma_literals_differ(t);
        },
        Json::Str(s) => {
            if needs_quotes(s, dc) {
                assert(t == quoted_spec(s));
                let q = quoted_spec(s);
                assert(q[0] == '"');
                assert(q.last() == '"');
                lemma_trim_no_edge_ws(q);
                assert(quote_inner(q) =~= escape_seq(s));
                lemma_unescape_escape(s, strict);
            } else {
                assert(t == s);
                assert(!is_structural_char(s[0]));
                lemma_trim_no_edge_ws(s);
                lemma_literals_differ(s);
                if parse_i64_spec(s).is_some() {
                    lemma_int_text_is_float(s);
                }
            }
        },
        _ => {},
    }
}

/// Reading a scalar back and writing it again gives the text first written.
pub proof fn lemma_scalar_reencode(v: Json, d: Delimiter, strict: bool, line: int)
    requires
        round_trips(v, d.char_spec()),
    ensures
        match primitive_spec(prim_text(v, d.char_spec()), strict, line) {
            Ok(w) => prim_text(w, d.char_spec()) == prim_text(v, d.char_spec()),
            Err(_) => false,
        },
{
    lemma_scalar_round_trip(v, d, strict, line);
}

/// A token that starts with `0` and another digit reads as text, never as a number.
pub proof fn lemma_leading_zero_stays_text(t: Seq<char>, strict: bool, line: int)
    requires
        t.len() >= 2,
        t[0] == '0',
        is_digit(t[1]),
        !is_ws(t.last()),
    ensures
        primitive_spec(t, strict, line) == Ok::<Json, crate::error::DecodeFault>(Json::Str(t)),
{
    lemma_trim_no_edge_ws(t);
    lemma_literals_differ(t);
    assert(!number_guard(t)) by {
        assert(t != seq!['0']);
        assert(t.subrange(0, 2) != seq!['0', '.']) by {
            assert(t.subrange(0, 2)[1] == t[1]);
        }
        assert(t.subrange(0, 2) != seq!['-', '0']) by {
            assert(t.subrange(0, 2)[0] == t[0]);
        }
    }
}

/// A key that the reader splits back out of its line: no quote, backslash,
/// bracket, line break, carriage return or tab.
pub open spec fn simple_key(k: Seq<char>) -> bool {
    forall|i: int|
        0 <= i < k.len() ==> #[trigger] k[i] != '"' && k[i] != '\\' && k[i] != '[' && k[i] != '\n'
            && k[i] != '\r' && k[i] != '\t'
}

proof fn lemma_escape_identity(s: Seq<char>)
    requires
        simple_key(s),
    ensures
        escape_seq(s) == s,
    decreases s.len(),
{
    if s.len() > 0 {
        assert(simple_key(s.drop_first())) by {
            assert forall|i: int| 0 <= i < s.drop_first().len() implies #[trigger] s.drop_first()[i]
                != '"' && s.drop_first()[i] != '\\' && s.drop_first()[i] != '[' && s.drop_first()[i]
                != '\n' && s.drop_first()[i] != '\r' && s.drop_first()[i] != '\t' by {
                assert(s.drop_first()[i] == s[i + 1]);
            }
        }
        lemma_escape_identity(s.drop_first());
        assert(s[0] != '"');
        assert(escape_char(s[0]) == seq![s[0]]);
        assert(seq![s[0]] + s.drop_first() =~= s);
    }
}

/// Scanning for a colon skips a run without quotes or colons.
proof fn lemma_colon_scan_skip(s: Seq<char>, i: int, j: int, q: bool)
    requires
        0 <= i <= j <= s.len(),
        forall|m: int|
            i <= m < j ==> #[trigger] s[m] != '"' && (q || s[m] != ':') && (!q || s[m] != '\\'),
    ensures
        colon_scan(s, i, q) == colon_scan(s, j, q),
    decreases j - i,
{
    if i < j {
        lemma_colon_scan_skip(s, i + 1, j, q);
    }
}

/// The same for the scan that ignores backslashes.
proof fn lemma_has_colon_skip(s: Seq<char>, i: int, j: int, q: bool)
    requires
        0 <= i <= j <= s.len(),
        forall|m: int|
            i <= m < j ==> #[trigger] s[m] != '"' && (q || s[m] != ':') && (!q || s[m] != '\\'),
    ensures
        has_colon_scan(s, i, q) == has_colon_scan(s, j, q),
    decreases j - i,
{
    if i < j {
        lemma_has_colon_skip(s, i + 1, j, q);
    }
}

/// The text of the line that the encoder writes for a scalar field, after its
/// indentation.
pub open spec fn field_line(k: Seq<char>, v: Json, d: char) -> Seq<char> {
    key_text(k) + seq![':', ' '] + prim_text(v, d)
}

/// Where the colon after a written key stands.
proof fn lemma_key_colon(k: Seq<char>, rest: Seq<char>)
    requires
        simple_key(k),
    ensures
        colon_scan(key_text(k) + seq![':'] + rest, 0, false) == Some(key_text(k).len() as int),
        has_colon_scan(key_text(k) + seq![':'] + rest, 0, false),
{
    let t = key_text(k);
    let s = t + seq![':'] + rest;
    lemma_escape_identity(k);
    if is_plain_key(k) {
        assert forall|m: int| 0 <= m < t.len() implies #[trigger] s[m] != '"' && s[m] != ':' by {
            assert(s[m] == k[m]);
            assert(is_key_char(k[m]));
        }
        lemma_colon_scan_skip(s, 0, t.len() as int, false);
        lemma_has_colon_skip(s, 0, t.len() as int, false);
        assert(s[t.len() as int] == ':');
        assert(colon_scan(s, t.len() as int, false) == Some(t.len() as int));
        assert(has_colon_scan(s, t.len() as int, false));
    } else {
        assert(t == seq!['"'] + k + seq!['"']);
        assert(s[0] == '"');
        assert forall|m: int| 1 <= m < k.len() as int + 1 implies #[trigger] s[m] != '"' && (true
            || s[m] != ':') by {
            assert(s[m] == k[m - 1]);
        }
        lemma_colon_scan_skip(s, 1, k.len() as int + 1, true);
        lemma_has_colon_skip(s, 1, k.len() as int + 1, true);
        let c = k.len() as int + 1;
        assert(s[c] == '"');
        if k.len() > 0 {
            assert(s[c - 1] == k[k.len() - 1]);
        } else {
            assert(s[c - 1] == '"');
        }
        assert(s[c + 1] == ':');
        assert(c + 1 == t.len());
        assert(colon_scan(s, c + 1, false) == Some(c + 1));
        assert(colon_scan(s, c, true) == colon_scan(s, c + 1, false));
        assert(colon_scan(s, 0, false) == colon_scan(s, 1, true));
        assert(has_colon_scan(s, c + 1, false));
        assert(has_colon_scan(s, c, true) == has_colon_scan(s, c + 1, false));
        assert(has_colon_scan(s, 0, false) == has_colon_scan(s, 1, true));
    }
}

/// A scalar field line splits back into its key and the text of its value.
pub proof fn lemma_field_line(k: Seq<char>, v: Json, d: Delimiter, strict: bool, line: int)
    requires
        simple_key(k),
        round_trips(v, d.char_spec()),
    ensures
        key_value_spec(field_line(k, v, d.char_spec()), strict, line) == Ok::<
            Option<(Seq<char>, Seq<char>)>,
            crate::error::DecodeFault,
        >(Some((k, prim_text(v, d.char_spec())))),
{
    let dc = d.char_spec();
    let t = key_text(k);
    let p = prim_text(v, dc);
    let s = field_line(k, v, dc);
    assert(s =~= t + seq![':'] + (seq![' '] + p));
    lemma_key_colon(k, seq![' '] + p);
    assert(s.subrange(0, t.len() as int) =~= t);
    assert(s.subrange(t.len() as int + 1, s.len() as int) =~= seq![' '] + p);
    lemma_key_edges(k);
    lemma_trim_no_edge_ws(t);
    lemma_key_round_trip(k, strict, line);
    lemma_prim_edges(v, dc);
    lemma_trim_no_edge_ws(p);
    let sp = seq![' '] + p;
    assert(sp.drop_first() =~= p);
    assert(trim_start_spec(sp) == trim_start_spec(p));
}

proof fn lemma_key_edges(k: Seq<char>)
    ensures
        key_text(k).len() > 0,
        !is_ws(key_text(k)[0]),
        !is_ws(key_text(k).last()),
{
    if is_plain_key(k) {
        assert(is_key_char(k[0]));
        assert(is_key_char(k.last()));
    } else {
        assert(quoted_spec(k)[0] == '"');
        assert(quoted_spec(k).last() == '"');
    }
}

/// The text of a scalar that survives the trip is not empty and has no
/// whitespace at either edge.
pub proof fn lemma_prim_edges(v: Json, d: char)
    requires
        round_trips(v, d),
    ensures
        prim_text(v, d).len() > 0,
        !is_ws(prim_text(v, d)[0]),
        !is_ws(prim_text(v, d).last()),
{
    match v {
        Json::Num(NumberModel::Int(i)) => {
            lemma_int_text(i);
        },
        Json::Str(s) => {
            if needs_quotes(s, d) {
                assert(quoted_spec(s)[0] == '"');
                assert(quoted_spec(s).last() == '"');
            }
        },
        _ => {},
    }
}

proof fn lemma_trim_start_shorter(s: Seq<char>)
    requires
        s.len() > 0,
        is_ws(s[0]),
    ensures
        trim_start_spec(s).len() < s.len(),
{
    lemma_trim_start_not_longer(s.drop_first());
}

proof fn lemma_trim_start_not_longer(s: Seq<char>)
    ensures
        trim_start_spec(s).len() <= s.len(),
        trim_start_spec(s) == s.subrange(s.len() - trim_start_spec(s).len(), s.len() as int),
    decreases s.len(),
{
    if s.len() > 0 && is_ws(s[0]) {
        lemma_trim_start_not_longer(s.drop_first());
        let t = trim_start_spec(s.drop_first());
        assert(s.drop_first().subrange(s.len() - 1 - t.len(), s.len() - 1) =~= s.subrange(
            s.len() - t.len(),
            s.len() as int,
        ));
    } else {
        assert(s.subrange(0, s.len() as int) =~= s);
    }
}

proof fn lemma_trim_end_not_longer(s: Seq<char>)
    ensures
        trim_end_spec(s).len() <= s.len(),
        trim_end_spec(s) == s.subrange(0, trim_end_spec(s).len() as int),
    decreases s.len(),
{
    if s.len() > 0 && is_ws(s.last()) {
        lemma_trim_end_not_longer(s.drop_last());
        let t = trim_end_spec(s.drop_last());
        assert(s.drop_last().subrange(0, t.len() as int) =~= s.subrange(0, t.len() as int));
    } else {
        assert(s.subrange(0, s.len() as int) =~= s);
    }
}

/// Text that is its own trim has no whitespace at either edge.
pub proof fn lemma_trim_fixed_edges(s: Seq<char>)
    requires
        trim_spec(s) == s,
        s.len() > 0,
    ensures
        !is_ws(s[0]),
        !is_ws(s.last()),
{
    let u = trim_start_spec(s);
    lemma_trim_start_not_longer(s);
    lemma_trim_end_not_longer(u);
    assert(u.len() == s.len());
    assert(u =~= s);
    if is_ws(s[0]) {
        lemma_trim_start_shorter(s);
    }
    if is_ws(s.last()) {
        lemma_trim_end_not_longer(s.drop_last());
    }
}

proof fn lemma_escape_no_newline(s: Seq<char>)
    ensures
        forall|i: int| 0 <= i < escape_seq(s).len() ==> #[trigger] escape_seq(s)[i] != '\n',
    decreases s.len(),
{
    if s.len() > 0 {
        lemma_escape_no_newline(s.drop_first());
        let e = escape_seq(s);
        let h = escape_char(s[0]);
        assert(e == h + escape_seq(s.drop_first()));
        assert forall|i: int| 0 <= i < e.len() implies #[trigger] e[i] != '\n' by {
            if i < h.len() {
                assert(e[i] == h[i]);
            } else {
                assert(e[i] == escape_seq(s.drop_first())[i - h.len()]);
            }
        }
    }
}

proof fn lemma_line_facts(k: Seq<char>, v: Json, d: char)
    requires
        simple_key(k),
        round_trips(v, d),
    ensures
        field_line(k, v, d).len() > 0,
        forall|i: int|
            0 <= i < field_line(k, v, d).len() ==> #[trigger] field_line(k, v, d)[i] != '\n',
        trim_spec(field_line(k, v, d)) == field_line(k, v, d),
        leading_ws_bytes(field_line(k, v, d)) == 0,
        field_line(k, v, d)[0] != '[',
{
    let t = key_text(k);
    let p = prim_text(v, d);
    let l = field_line(k, v, d);
    lemma_key_edges(k);
    lemma_prim_edges(v, d);
    lemma_escape_identity(k);
    assert(l[0] == t[0]);
    assert(l.last() == p.last());
    lemma_trim_no_edge_ws(l);
    if is_plain_key(k) {
        assert(is_key_char(k[0]));
    } else {
        assert(quoted_spec(k)[0] == '"');
    }
    assert forall|i: int| 0 <= i < t.len() implies #[trigger] t[i] != '\n' by {
        if is_plain_key(k) {
            assert(is_key_char(k[i]));
        } else {
            assert(t == seq!['"'] + k + seq!['"']);
            if 0 < i < t.len() - 1 {
                assert(t[i] == k[i - 1]);
            }
        }
    }
    assert forall|i: int| 0 <= i < p.len() implies #[trigger] p[i] != '\n' by {
        match v {
            Json::Num(NumberModel::Int(n)) => {
                lemma_int_text(n);
                lemma_int_text_chars(n);
            },
            Json::Str(s) => {
                if needs_quotes(s, d) {
                    lemma_escape_no_newline(s);
                    let q = quoted_spec(s);
                    if 0 < i < q.len() - 1 {
                        assert(q[i] == escape_seq(s)[i - 1]);
                    }
                } else {
                    assert(!is_structural_char(s[i]));
                }
            },
            Json::Bool(b) => {},
            _ => {},
        }
    }
    assert forall|i: int| 0 <= i < l.len() implies #[trigger] l[i] != '\n' by {
        if i < t.len() {
            assert(l[i] == t[i]);
        } else if i >= t.len() + 2 {
            assert(l[i] == p[i - t.len() - 2]);
        }
    }
}

proof fn lemma_int_text_chars(n: int)
    requires
        i64::MIN <= n <= i64::MAX,
    ensures
        forall|i: int| 0 <= i < int_text(n).len() ==> #[trigger] int_text(n)[i] != '\n',
{
    if n < 0 {
        lemma_decimal((-n) as nat);
        let d = decimal_spec((-n) as nat);
        assert forall|i: int| 0 <= i < int_text(n).len() implies #[trigger] int_text(n)[i] != '\n' by {
            if i > 0 {
                assert(int_text(n)[i] == d[i - 1]);
            }
        }
    } else {
        lemma_decimal(n as nat);
    }
}

/// A run without line breaks only extends the current line.
proof fn lemma_scan_run(
    s: Seq<char>,
    i: int,
    j: int,
    cur: Seq<char>,
    k: int,
    acc: Seq<LineModel>,
    ind: int,
    st: bool,
)
    requires
        0 <= i <= j <= s.len(),
        forall|m: int| i <= m < j ==> #[trigger] s[m] != '\n',
    ensures
        scan_lines(s, i, cur, k, acc, ind, st) == scan_lines(
            s,
            j,
            cur + s.subrange(i, j),
            k,
            acc,
            ind,
            st,
        ),
    decreases j - i,
{
    if i < j {
        lemma_scan_run(s, i + 1, j, cur.push(s[i]), k, acc, ind, st);
        assert(cur.push(s[i]) + s.subrange(i + 1, j) =~= cur + s.subrange(i, j));
    } else {
        assert(cur + s.subrange(i, j) =~= cur);
    }
}

proof fn lemma_no_char(s: Seq<char>, c: char, i: int)
    requires
        forall|m: int| 0 <= m < s.len() ==> #[trigger] s[m] != c,
    ensures
        find_from(s, c, i) is None,
    decreases s.len() - i,
{
    if 0 <= i < s.len() {
        lemma_no_char(s, c, i + 1);
    }
}

proof fn lemma_key_absent(o: Fields, k: Seq<char>, i: int)
    requires
        forall|m: int| 0 <= m < o.len() ==> #[trigger] o[m].0 != k,
    ensures
        key_index_from(o, k, i) is None,
    decreases o.len() - i,
{
    if 0 <= i < o.len() {
        lemma_key_absent(o, k, i + 1);
    }
}

// ---------------------------------------------------------------------------
// Nested objects

/// An object whose values are scalars that survive the trip, inline arrays of
/// such scalars under plain keys, or objects of the same kind, with simple and
/// distinct keys at every level.
pub open spec fn nested_ok(v: Json, d: char) -> bool
    decreases v,
{
    match v {
        Json::Obj(fs) => (forall|i: int| 0 <= i < fs.len() ==> simple_key((#[trigger] fs[i]).0))
            && (forall|i: int, j: int|
            0 <= i < j < fs.len() ==> #[trigger] fs[i].0 != #[trigger] fs[j].0) && (forall|i: int|
            0 <= i < fs.len() ==> if (#[trigger] fs[i]).1 is Obj {
                nested_ok(fs[i].1, d)
            } else if fs[i].1 is Arr {
                inline_array_ok(fs[i].0, fs[i].1->Arr_0, d)
            } else {
                round_trips(fs[i].1, d)
            }),
        _ => false,
    }
}

/// The delimiter whose character is `c`.
pub open spec fn delim_of(c: char) -> Delimiter {
    if c == ',' {
        Delimiter::Comma
    } else if c == '\t' {
        Delimiter::Tab
    } else {
        Delimiter::Pipe
    }
}

/// The lines that the encoder writes for the first `n` fields of an object at
/// depth `dep`: each line's text without its indentation, and its depth.
pub open spec fn raw_fields(v: Json, n: int, dep: int, d: char) -> Seq<(Seq<char>, int)>
    decreases v, 0int, n, 1int,
{
    match v {
        Json::Obj(fs) => if n <= 0 || n > fs.len() {
            Seq::empty()
        } else {
            raw_fields(v, n - 1, dep, d) + raw_field(v, n - 1, dep, d)
        },
        _ => Seq::empty(),
    }
}

pub open spec fn raw_field(v: Json, i: int, dep: int, d: char) -> Seq<(Seq<char>, int)>
    decreases v, 0int, i + 1, 0int,
{
    match v {
        Json::Obj(fs) => if i < 0 || i >= fs.len() {
            Seq::empty()
        } else {
            let (k, c) = fs[i];
            match c {
                Json::Obj(cf) => seq![(key_text(k) + seq![':'], dep)] + raw_fields(
                    c,
                    cf.len() as int,
                    dep + 1,
                    d,
                ),
                Json::Arr(arr) => seq![(array_line(k, arr, delim_of(d)), dep)],
                _ => seq![(key_text(k) + seq![':', ' '] + prim_text(c, d), dep)],
            }
        },
        _ => Seq::empty(),
    }
}

/// Lines joined, each after a line break and its indentation.
pub open spec fn nl_concat(r: Seq<(Seq<char>, int)>, ind: int) -> Seq<char>
    decreases r.len(),
{
    if r.len() == 0 {
        Seq::empty()
    } else {
        nl_concat(r.drop_last(), ind) + seq!['\n'] + spaces(r.last().1 * ind) + r.last().0
    }
}

proof fn lemma_nl_concat_append(a: Seq<(Seq<char>, int)>, b: Seq<(Seq<char>, int)>, ind: int)
    ensures
        nl_concat(a + b, ind) == nl_concat(a, ind) + nl_concat(b, ind),
    decreases b.len(),
{
    if b.len() == 0 {
        assert(a + b =~= a);
        assert(nl_concat(a, ind) + nl_concat(b, ind) =~= nl_concat(a, ind));
    } else {
        lemma_nl_concat_append(a, b.drop_last(), ind);
        assert((a + b).drop_last() =~= a + b.drop_last());
        assert((a + b).last() == b.last());
        assert(nl_concat(a + b, ind) =~= nl_concat(a, ind) + nl_concat(b, ind));
    }
}

/// The encoder's text of a nested object below the root is its lines, each
/// after a line break.
proof fn lemma_nested_text(v: Json, n: int, dep: int, ind: int, d: Delimiter)
    requires
        v is Obj,
        0 <= n <= v->Obj_0.len(),
        dep > 0,
        nested_ok(v, d.char_spec()),
    ensures
        object_fields(v, n, dep, ind, d) == nl_concat(raw_fields(v, n, dep, d.char_spec()), ind),
    decreases v, n, 1int,
{
    let dc = d.char_spec();
    if n > 0 {
        lemma_nested_text(v, n - 1, dep, ind, d);
        lemma_nested_field_text(v, n - 1, dep, ind, d);
        lemma_nl_concat_append(raw_fields(v, n - 1, dep, dc), raw_field(v, n - 1, dep, dc), ind);
    } else {
        assert(raw_fields(v, n, dep, dc) =~= Seq::<(Seq<char>, int)>::empty());
    }
}

#[verifier::rlimit(80)]
proof fn lemma_nested_field_text(v: Json, i: int, dep: int, ind: int, d: Delimiter)
    requires
        v is Obj,
        0 <= i < v->Obj_0.len(),
        dep >= 0,
        nested_ok(v, d.char_spec()),
    ensures
        (if i > 0 || dep > 0 {
            Seq::empty()
        } else {
            seq!['\n']
        }) + object_field(v, i, dep, ind, d) == nl_concat(raw_field(v, i, dep, d.char_spec()), ind),
    decreases v, i + 1, 0int,
{
    assert(nl_concat(Seq::<(Seq<char>, int)>::empty(), ind) == Seq::<char>::empty());
    let dc = d.char_spec();
    let fs = v->Obj_0;
    let (k, c) = fs[i];
    let head = key_text(k) + seq![':'];
    match c {
        Json::Obj(cf) => {
            assert(nested_ok(c, dc));
            let inner = raw_fields(c, cf.len() as int, dep + 1, dc);
            lemma_nested_text(c, cf.len() as int, dep + 1, ind, d);
            let one = seq![(head, dep)];
            lemma_nl_concat_append(one, inner, ind);
            assert(one.drop_last() =~= Seq::<(Seq<char>, int)>::empty());
            assert(one.last() == (head, dep));
            assert(nl_concat(one, ind) =~= seq!['\n'] + spaces(dep * ind) + head);
            assert(enc_object(c, dep + 1, ind, d) == object_fields(c, cf.len() as int, dep + 1, ind, d));
            if dep == 0 {
                assert(spaces(0 * ind) =~= Seq::<char>::empty());
                let inner0 = raw_fields(c, cf.len() as int, 1, dc);
                assert(raw_field(v, i, 0, dc) == seq![(head, 0int)] + inner0);
            }
            assert(object_field(v, i, dep, ind, d) =~= (if i > 0 || dep > 0 {
                seq!['\n']
            } else {
                Seq::empty()
            }) + spaces(dep * ind) + key_text(k) + (seq![':'] + enc_object(c, dep + 1, ind, d)));
            assert(seq!['\n'] + spaces(dep * ind) + key_text(k) + (seq![':'] + enc_object(
                c,
                dep + 1,
                ind,
                d,
            )) =~= nl_concat(one, ind) + nl_concat(inner, ind));
        },
        Json::Arr(arr) => {
            lemma_delim_of(d);
            assert(inline_array_ok(k, arr, dc));
            if arr.len() > 0 {
                assert(round_trips(arr[0], dc));
                assert(!(arr[0] is Obj));
            }
            assert(!tabular_ok(arr));
            let line = array_line(k, arr, d);
            let one = seq![(line, dep)];
            assert(one.drop_last() =~= Seq::<(Seq<char>, int)>::empty());
            assert(one.last() == (line, dep));
            assert(raw_field(v, i, dep, dc) == one);
            assert(nl_concat(one, ind) =~= seq!['\n'] + spaces(dep * ind) + line);
            assert(enc_array(c, dep, ind, d) == header_text(arr.len(), d, None) + inline_values(
                arr,
                dc,
            ));
            assert(object_field(v, i, dep, ind, d) =~= (if i > 0 || dep > 0 {
                seq!['\n']
            } else {
                Seq::empty()
            }) + spaces(dep * ind) + line);
        },
        _ => {
            let line = key_text(k) + seq![':', ' '] + prim_text(c, dc);
            let one = seq![(line, dep)];
            assert(one.drop_last() =~= Seq::<(Seq<char>, int)>::empty());
            assert(one.last() == (line, dep));
            assert(raw_field(v, i, dep, dc) == one);
            assert(nl_concat(one, ind) =~= seq!['\n'] + spaces(dep * ind) + line);
            assert(object_field(v, i, dep, ind, d) =~= (if i > 0 || dep > 0 {
                seq!['\n']
            } else {
                Seq::empty()
            }) + spaces(dep * ind) + line);
        },
    }
}

/// The root text: the lines joined by line breaks.
proof fn lemma_root_text(v: Json, n: int, ind: int, d: Delimiter)
    requires
        v is Obj,
        1 <= n <= v->Obj_0.len(),
        nested_ok(v, d.char_spec()),
    ensures
        seq!['\n'] + object_fields(v, n, 0, ind, d) == nl_concat(raw_fields(v, n, 0, d.char_spec()), ind),
    decreases n,
{
    let dc = d.char_spec();
    lemma_nested_field_text(v, n - 1, 0, ind, d);
    if n == 1 {
        assert(object_fields(v, 0, 0, ind, d) == Seq::<char>::empty());
        assert(raw_fields(v, 0, 0, dc) =~= Seq::<(Seq<char>, int)>::empty());
        assert(raw_fields(v, 1, 0, dc) =~= raw_field(v, 0, 0, dc));
        assert(object_fields(v, 1, 0, ind, d) =~= object_field(v, 0, 0, ind, d));
    } else {
        lemma_root_text(v, n - 1, ind, d);
        lemma_nl_concat_append(raw_fields(v, n - 1, 0, dc), raw_field(v, n - 1, 0, dc), ind);
        assert(seq!['\n'] + object_fields(v, n, 0, ind, d) =~= (seq!['\n'] + object_fields(
            v,
            n - 1,
            0,
            ind,
            d,
        )) + object_field(v, n - 1, 0, ind, d));
    }
}

/// A raw line that the reader takes back as it was written.
pub open spec fn raw_line_ok(l: (Seq<char>, int)) -> bool {
    l.0.len() > 0 && !is_ws(l.0[0]) && !is_ws(l.0.last()) && l.0[0] != '[' && l.1 >= 0 && (forall|
        m: int,
    | 0 <= m < l.0.len() ==> #[trigger] l.0[m] != '\n')
}

proof fn lemma_head_line(k: Seq<char>, dep: int)
    requires
        simple_key(k),
        dep >= 0,
    ensures
        raw_line_ok((key_text(k) + seq![':'], dep)),
{
    let t = key_text(k);
    let h = t + seq![':'];
    lemma_key_edges(k);
    lemma_escape_identity(k);
    assert(h[0] == t[0]);
    if is_plain_key(k) {
        assert(is_key_char(k[0]));
    } else {
        assert(quoted_spec(k)[0] == '"');
    }
    assert forall|m: int| 0 <= m < h.len() implies #[trigger] h[m] != '\n' by {
        if m < t.len() {
            assert(h[m] == t[m]);
            if is_plain_key(k) {
                assert(is_key_char(k[m]));
            } else {
                assert(t == seq!['"'] + k + seq!['"']);
                if 0 < m < t.len() - 1 {
                    assert(t[m] == k[m - 1]);
                }
            }
        }
    }
}

proof fn lemma_raw_ok(v: Json, n: int, dep: int, d: char)
    requires
        d == ',' || d == '\t' || d == '|',
        v is Obj,
        0 <= n <= v->Obj_0.len(),
        dep >= 0,
        nested_ok(v, d),
    ensures
        forall|i: int|
            0 <= i < raw_fields(v, n, dep, d).len() ==> raw_line_ok(
                #[trigger] raw_fields(v, n, dep, d)[i],
            ),
    decreases v, n, 1int,
{
    if n > 0 {
        lemma_raw_ok(v, n - 1, dep, d);
        lemma_raw_field_ok(v, n - 1, dep, d);
        let a = raw_fields(v, n - 1, dep, d);
        let b = raw_field(v, n - 1, dep, d);
        assert(raw_fields(v, n, dep, d) == a + b);
        assert forall|i: int| 0 <= i < (a + b).len() implies raw_line_ok(#[trigger] (a + b)[i]) by {
            if i < a.len() {
                assert((a + b)[i] == a[i]);
            } else {
                assert((a + b)[i] == b[i - a.len()]);
            }
        }
    }
}

proof fn lemma_raw_field_ok(v: Json, i: int, dep: int, d: char)
    requires
        d == ',' || d == '\t' || d == '|',
        v is Obj,
        0 <= i < v->Obj_0.len(),
        dep >= 0,
        nested_ok(v, d),
    ensures
        forall|m: int|
            0 <= m < raw_field(v, i, dep, d).len() ==> raw_line_ok(#[trigger] raw_field(v, i, dep, d)[m]),
    decreases v, i + 1, 0int,
{
    let fs = v->Obj_0;
    let (k, c) = fs[i];
    assert(simple_key(fs[i].0));
    match c {
        Json::Obj(cf) => {
            assert(nested_ok(c, d));
            lemma_head_line(k, dep);
            lemma_raw_ok(c, cf.len() as int, dep + 1, d);
            let a = seq![(key_text(k) + seq![':'], dep)];
            let b = raw_fields(c, cf.len() as int, dep + 1, d);
            assert(raw_field(v, i, dep, d) == a + b);
            assert forall|m: int| 0 <= m < raw_field(v, i, dep, d).len() implies raw_line_ok(
                #[trigger] raw_field(v, i, dep, d)[m],
            ) by {
                assert(raw_field(v, i, dep, d)[m] == (a + b)[m]);
                if m < 1 {
                    assert((a + b)[m] == a[m]);
                } else {
                    assert((a + b)[m] == b[m - 1]);
                }
            }
        },
        Json::Arr(arr) => {
            assert(inline_array_ok(k, arr, d));
            lemma_delim_of(delim_of(d));
            assert(delim_of(d).char_spec() == d);
            lemma_array_line_ok(k, arr, delim_of(d), dep);
            assert(raw_field(v, i, dep, d) == seq![(array_line(k, arr, delim_of(d)), dep)]);
        },
        _ => {
            assert(round_trips(c, d));
            lemma_line_facts(k, c, d);
            lemma_trim_fixed_edges(field_line(k, c, d));
            assert(raw_field(v, i, dep, d) == seq![(field_line(k, c, d), dep)]);
            assert(raw_line_ok((field_line(k, c, d), dep)));
        },
    }
}

/// Spaces before a text: the reader strips them and counts them.
proof fn lemma_spaces_prefix(m: nat, x: Seq<char>)
    requires
        x.len() > 0,
        !is_ws(x[0]),
    ensures
        trim_start_spec(spaces(m as int) + x) == x,
        leading_ws_bytes(spaces(m as int) + x) == m,
    decreases m,
{
    let t = spaces(m as int) + x;
    if m == 0 {
        assert(t =~= x);
        assert(trim_start_spec(x) == x);
        assert(leading_ws_bytes(x) == 0);
    } else {
        assert(t[0] == ' ');
        assert(t.drop_first() =~= spaces(m - 1) + x);
        lemma_spaces_prefix((m - 1) as nat, x);
    }
}

pub open spec fn raw_piece(l: (Seq<char>, int), ind: int) -> Seq<char> {
    spaces(l.1 * ind) + l.0
}

proof fn lemma_raw_piece(l: (Seq<char>, int), ind: int, k: int, st: bool)
    requires
        raw_line_ok(l),
        ind > 0,
    ensures
        piece_line(raw_piece(l, ind), k, ind, st) == Some(
            Ok::<LineModel, crate::error::DecodeFault>(
                LineModel { content: l.0, depth: l.1, line_num: k + 1 },
            ),
        ),
        forall|m: int| 0 <= m < raw_piece(l, ind).len() ==> #[trigger] raw_piece(l, ind)[m] != '\n',
{
    let x = l.0;
    let dep = l.1;
    assert(dep * ind >= 0) by (nonlinear_arith)
        requires
            dep >= 0,
            ind > 0,
    ;
    let m = (dep * ind) as nat;
    let t = raw_piece(l, ind);
    lemma_spaces_prefix(m, x);
    lemma_trim_no_edge_ws(x);
    assert(trim_spec(t) == x);
    vstd::arithmetic::div_mod::lemma_mod_multiples_basic(dep, ind);
    vstd::arithmetic::div_mod::lemma_div_multiples_vanish(dep, ind);
    assert(ind * dep == dep * ind) by (nonlinear_arith);
    assert forall|j: int| 0 <= j < t.len() implies #[trigger] t[j] != '\n' by {
        if j < m {
            assert(t[j] == ' ');
        } else {
            assert(t[j] == x[j - m]);
        }
    }
}

pub open spec fn raw_models(r: Seq<(Seq<char>, int)>) -> Seq<LineModel> {
    Seq::new(r.len(), |i: int| LineModel { content: r[i].0, depth: r[i].1, line_num: i + 1 })
}

/// Past line `j - 1`'s line break, the reader reads line `j` whole.
#[verifier::rlimit(60)]
proof fn lemma_raw_scan_step(r: Seq<(Seq<char>, int)>, ind: int, st: bool, j: int)
    requires
        ind > 0,
        1 <= j < r.len(),
        forall|i: int| 0 <= i < r.len() ==> raw_line_ok(#[trigger] r[i]),
    ensures
        scan_lines(
            nl_concat(r, ind).drop_first(),
            nl_concat(r.subrange(0, j), ind).len() - 1,
            raw_piece(r[j - 1], ind),
            j - 1,
            raw_models(r.subrange(0, j - 1)),
            ind,
            st,
        ) == scan_lines(
            nl_concat(r, ind).drop_first(),
            nl_concat(r.subrange(0, j + 1), ind).len() - 1,
            raw_piece(r[j], ind),
            j,
            raw_models(r.subrange(0, j)),
            ind,
            st,
        ),
{
    let s = nl_concat(r, ind).drop_first();
    let a = nl_concat(r.subrange(0, j), ind);
    let b = nl_concat(r.subrange(0, j + 1), ind);
    let pj = raw_piece(r[j], ind);
    let full = nl_concat(r, ind);
    lemma_raw_piece(r[j - 1], ind, j - 1, st);
    lemma_raw_piece(r[j], ind, j, st);
    assert(raw_models(r.subrange(0, j - 1)).push(
        LineModel { content: r[j - 1].0, depth: r[j - 1].1, line_num: j },
    ) =~= raw_models(r.subrange(0, j)));
    assert(r.subrange(0, j).drop_last() =~= r.subrange(0, j - 1));
    assert(r.subrange(0, j + 1).drop_last() =~= r.subrange(0, j));
    assert(b =~= a + seq!['\n'] + pj);
    assert(r.subrange(0, j + 1) + r.subrange(j + 1, r.len() as int) =~= r);
    lemma_nl_concat_append(r.subrange(0, j + 1), r.subrange(j + 1, r.len() as int), ind);
    assert(full.subrange(0, b.len() as int) =~= b);
    assert(a.len() >= 1);
    assert(s[a.len() - 1] == full[a.len() as int]);
    assert(full[a.len() as int] == b[a.len() as int]);
    assert(s[a.len() - 1] == '\n');
    assert forall|m: int| a.len() <= m < b.len() - 1 implies #[trigger] s[m] != '\n' by {
        assert(s[m] == full[m + 1]);
        assert(full[m + 1] == b[m + 1]);
        assert(b[m + 1] == pj[m + 1 - a.len() - 1]);
    }
    lemma_scan_run(
        s,
        a.len() as int,
        b.len() - 1,
        Seq::empty(),
        j,
        raw_models(r.subrange(0, j)),
        ind,
        st,
    );
    assert(s.subrange(a.len() as int, b.len() - 1) =~= pj) by {
        assert forall|m: int| 0 <= m < pj.len() implies s.subrange(a.len() as int, b.len() - 1)[m]
            == pj[m] by {
            assert(s[a.len() + m] == full[a.len() + m + 1]);
            assert(full[a.len() + m + 1] == b[a.len() + m + 1]);
        }
    }
    assert(Seq::<char>::empty() + pj =~= pj);
}

/// From the end of line `j - 1` on, the reader yields all the lines.
proof fn lemma_raw_scan_from(r: Seq<(Seq<char>, int)>, ind: int, st: bool, j: int)
    requires
        ind > 0,
        1 <= j <= r.len(),
        forall|i: int| 0 <= i < r.len() ==> raw_line_ok(#[trigger] r[i]),
    ensures
        scan_lines(
            nl_concat(r, ind).drop_first(),
            nl_concat(r.subrange(0, j), ind).len() - 1,
            raw_piece(r[j - 1], ind),
            j - 1,
            raw_models(r.subrange(0, j - 1)),
            ind,
            st,
        ) == Ok::<Seq<LineModel>, crate::error::DecodeFault>(raw_models(r)),
    decreases r.len() - j,
{
    if j == r.len() {
        let s = nl_concat(r, ind).drop_first();
        let a = nl_concat(r.subrange(0, j), ind);
        lemma_raw_piece(r[j - 1], ind, j - 1, st);
        assert(raw_models(r.subrange(0, j - 1)).push(
            LineModel { content: r[j - 1].0, depth: r[j - 1].1, line_num: j },
        ) =~= raw_models(r.subrange(0, j)));
        assert(r.subrange(0, j) =~= r);
        assert(r.subrange(0, j).drop_last() =~= r.subrange(0, j - 1));
        assert(a.len() >= 1);
        assert(s.len() == a.len() - 1);
    } else {
        lemma_raw_scan_step(r, ind, st, j);
        lemma_raw_scan_from(r, ind, st, j + 1);
    }
}

/// The reader takes the first raw line whole.
#[verifier::rlimit(60)]
proof fn lemma_raw_first(r: Seq<(Seq<char>, int)>, ind: int, st: bool)
    requires
        ind > 0,
        r.len() >= 1,
        forall|i: int| 0 <= i < r.len() ==> raw_line_ok(#[trigger] r[i]),
    ensures
        nl_concat(r.subrange(0, 1), ind).len() - 1 == raw_piece(r[0], ind).len(),
        scan_lines(nl_concat(r, ind).drop_first(), 0, Seq::empty(), 0, Seq::empty(), ind, st)
            == scan_lines(
            nl_concat(r, ind).drop_first(),
            raw_piece(r[0], ind).len() as int,
            raw_piece(r[0], ind),
            0,
            Seq::empty(),
            ind,
            st,
        ),
{
    let s = nl_concat(r, ind).drop_first();
    let one = r.subrange(0, 1);
    assert(one.drop_last() =~= Seq::<(Seq<char>, int)>::empty());
    let a = nl_concat(one, ind);
    let p0 = raw_piece(r[0], ind);
    assert(one.last() == r[0]);
    assert(nl_concat(Seq::<(Seq<char>, int)>::empty(), ind) == Seq::<char>::empty());
    assert(a =~= seq!['\n'] + p0);
    lemma_raw_piece(r[0], ind, 0, st);
    assert(one + r.subrange(1, r.len() as int) =~= r);
    lemma_nl_concat_append(one, r.subrange(1, r.len() as int), ind);
    let full = nl_concat(r, ind);
    assert forall|m: int| 0 <= m < p0.len() implies #[trigger] s[m] != '\n' by {
        assert(s[m] == full[m + 1]);
        assert(full[m + 1] == a[m + 1]);
    }
    lemma_scan_run(s, 0, p0.len() as int, Seq::empty(), 0, Seq::empty(), ind, st);
    assert(s.subrange(0, p0.len() as int) =~= p0) by {
        assert forall|m: int| 0 <= m < p0.len() implies s.subrange(0, p0.len() as int)[m]
            == p0[m] by {
            assert(s[m] == full[m + 1]);
            assert(full[m + 1] == a[m + 1]);
        }
    }
    assert(Seq::<char>::empty() + p0 =~= p0);
}

/// The reader splits text made of raw lines back into those lines.
proof fn lemma_raw_lines(r: Seq<(Seq<char>, int)>, ind: int, st: bool)
    requires
        ind > 0,
        r.len() >= 1,
        forall|i: int| 0 <= i < r.len() ==> raw_line_ok(#[trigger] r[i]),
    ensures
        lines_spec(nl_concat(r, ind).drop_first(), ind, st) == Ok::<
            Seq<LineModel>,
            crate::error::DecodeFault,
        >(raw_models(r)),
{
    lemma_raw_first(r, ind, st);
    assert(raw_models(r.subrange(0, 0)) =~= Seq::<LineModel>::empty());
    lemma_raw_scan_from(r, ind, st, 1);
}

/// Line `p + i` holds raw line `i` of `r`.
pub open spec fn lines_at(ls: Seq<LineModel>, p: int, r: Seq<(Seq<char>, int)>) -> bool {
    0 <= p && p + r.len() <= ls.len() && forall|i: int|
        0 <= i < r.len() ==> (#[trigger] ls[p + i]).content == r[i].0 && ls[p + i].depth == r[i].1
}

/// Line `q` ends a block at depth `dep`: there is none, or it is shallower.
pub open spec fn ends_block(ls: Seq<LineModel>, q: int, dep: int) -> bool {
    q == ls.len() || (0 <= q < ls.len() && ls[q].depth < dep)
}

proof fn lemma_raw_prefix(v: Json, j: int, n: int, dep: int, d: char)
    requires
        v is Obj,
        0 <= j <= n <= v->Obj_0.len(),
    ensures
        raw_fields(v, j, dep, d).len() <= raw_fields(v, n, dep, d).len(),
        raw_fields(v, n, dep, d).subrange(0, raw_fields(v, j, dep, d).len() as int) == raw_fields(
            v,
            j,
            dep,
            d,
        ),
    decreases n - j,
{
    if j < n {
        lemma_raw_prefix(v, j, n - 1, dep, d);
        let a = raw_fields(v, n - 1, dep, d);
        let b = raw_fields(v, n, dep, d);
        let t = raw_fields(v, j, dep, d);
        assert(b == a + raw_field(v, n - 1, dep, d));
        assert(b.subrange(0, t.len() as int) =~= a.subrange(0, t.len() as int));
    } else {
        let t = raw_fields(v, j, dep, d);
        assert(t.subrange(0, t.len() as int) =~= t);
    }
}

/// Where field `j` stands among the lines of its object.
proof fn lemma_raw_field_at(v: Json, j: int, dep: int, d: char)
    requires
        v is Obj,
        0 <= j < v->Obj_0.len(),
    ensures
        raw_field(v, j, dep, d).len() >= 1,
        raw_field(v, j, dep, d)[0].1 == dep,
        raw_fields(v, j + 1, dep, d) == raw_fields(v, j, dep, d) + raw_field(v, j, dep, d),
        forall|m: int|
            0 <= m < raw_field(v, j, dep, d).len() ==> raw_fields(
                v,
                v->Obj_0.len() as int,
                dep,
                d,
            )[raw_fields(v, j, dep, d).len() + m] == #[trigger] raw_field(v, j, dep, d)[m],
{
    let n = v->Obj_0.len() as int;
    lemma_raw_prefix(v, j + 1, n, dep, d);
    let a = raw_fields(v, j, dep, d);
    let f = raw_field(v, j, dep, d);
    let full = raw_fields(v, n, dep, d);
    assert(raw_fields(v, j + 1, dep, d) == a + f);
    assert forall|m: int| 0 <= m < f.len() implies full[a.len() + m] == #[trigger] f[m] by {
        assert(full.subrange(0, (a + f).len() as int)[a.len() + m] == (a + f)[a.len() + m]);
    }
}

/// What the reader takes for the key of a field's line.
pub open spec fn read_key(k: Seq<char>, c: Json, d: Delimiter) -> Seq<char> {
    match c {
        Json::Arr(a) => array_read_key(k, a, d),
        _ => k,
    }
}

/// What the reader takes for the value of a field's line.
pub open spec fn read_value(c: Json, d: Delimiter) -> Seq<char> {
    match c {
        Json::Obj(_) => Seq::empty(),
        Json::Arr(a) => array_read_value(a, d.char_spec()),
        _ => prim_text(c, d.char_spec()),
    }
}

proof fn lemma_delim_of(d: Delimiter)
    ensures
        delim_of(d.char_spec()) == d,
        d.char_spec() == ',' || d.char_spec() == '\t' || d.char_spec() == '|',
{
}

/// Field `j` of a nested object: its line splits into key and value, and its
/// value is read back, up to the end of the field's block.
#[verifier::rlimit(80)]
proof fn lemma_field_step(ls: Seq<LineModel>, st: bool, v: Json, dep: int, d: Delimiter, p: int, j: int)
    requires
        v is Obj,
        nested_ok(v, d.char_spec()),
        dep >= 0,
        0 <= j < v->Obj_0.len(),
        lines_at(ls, p, raw_fields(v, v->Obj_0.len() as int, dep, d.char_spec())),
        ends_block(ls, p + raw_fields(v, v->Obj_0.len() as int, dep, d.char_spec()).len(), dep),
    ensures
        ({
            let q = p + raw_fields(v, j, dep, d.char_spec()).len();
            &&& ls[q].depth == dep
            &&& key_value_spec(ls[q].content, st, ls[q].line_num) == Ok::<
                Option<(Seq<char>, Seq<char>)>,
                crate::error::DecodeFault,
            >(Some((read_key(v->Obj_0[j].0, v->Obj_0[j].1, d), read_value(v->Obj_0[j].1, d))))
            &&& field_value(
                ls,
                st,
                q + 1,
                dep,
                read_key(v->Obj_0[j].0, v->Obj_0[j].1, d),
                read_value(v->Obj_0[j].1, d),
                ls[q].line_num,
                key_is_bare(ls[q].content),
            ) == (
                Ok::<(Seq<char>, Json), crate::error::DecodeFault>((v->Obj_0[j].0, v->Obj_0[j].1)),
                p + raw_fields(v, j + 1, dep, d.char_spec()).len(),
            )
        }),
    decreases v, v->Obj_0.len() - j, 0int,
{
    let dc = d.char_spec();
    let fs = v->Obj_0;
    let n = fs.len() as int;
    let full = raw_fields(v, n, dep, dc);
    let end = p + full.len();
    let q = p + raw_fields(v, j, dep, dc).len();
    lemma_raw_prefix(v, j, n, dep, dc);
    lemma_raw_field_at(v, j, dep, dc);
    lemma_raw_prefix(v, j + 1, n, dep, dc);
    let f = raw_field(v, j, dep, dc);
    let next = p + raw_fields(v, j + 1, dep, dc).len();
    assert(next == q + f.len());
    assert(ls[q] == ls[p + raw_fields(v, j, dep, dc).len() + 0]);
    assert(ls[q].content == f[0].0 && ls[q].depth == dep) by {
        assert(full[raw_fields(v, j, dep, dc).len() as int + 0] == f[0]);
    }
    assert(next == end || (next < ls.len() && ls[next].depth == dep)) by {
        if j + 1 < n {
            lemma_raw_field_at(v, j + 1, dep, dc);
            assert(full[raw_fields(v, j + 1, dep, dc).len() as int + 0] == raw_field(
                v,
                j + 1,
                dep,
                dc,
            )[0]);
        }
    }
    let k = fs[j].0;
    let c = fs[j].1;
    assert(simple_key(fs[j].0));
    lemma_bracket_none(k);
        let ln = ls[q].line_num;
        match c {
            Json::Obj(cf) => {
                assert(nested_ok(c, dc));
                let head = key_text(k) + seq![':'];
                let rc = raw_fields(c, cf.len() as int, dep + 1, dc);
                assert(f == seq![(head, dep)] + rc);
                lemma_key_colon(k, Seq::empty());
                assert(key_text(k) + seq![':'] + Seq::<char>::empty() =~= head);
                lemma_key_edges(k);
                lemma_trim_no_edge_ws(key_text(k));
                lemma_key_round_trip(k, st, ln);
                assert(head.subrange(0, key_text(k).len() as int) =~= key_text(k));
                assert(head.subrange(key_text(k).len() as int + 1, head.len() as int) =~= Seq::<char>::empty());
                assert(trim_spec(Seq::<char>::empty()) == Seq::<char>::empty());
                assert(key_value_spec(head, st, ln) == Ok::<
                    Option<(Seq<char>, Seq<char>)>,
                    crate::error::DecodeFault,
                >(Some((k, Seq::empty()))));
                assert(lines_at(ls, q + 1, rc)) by {
                    assert forall|i: int| 0 <= i < rc.len() implies (#[trigger] ls[q + 1 + i]).content
                        == rc[i].0 && ls[q + 1 + i].depth == rc[i].1 by {
                        assert(f[1 + i] == rc[i]);
                        assert(full[raw_fields(v, j, dep, dc).len() as int + (1 + i)] == f[1 + i]);
                        assert(ls[p + (raw_fields(v, j, dep, dc).len() + 1 + i)] == ls[q + 1 + i]);
                    }
                }
                if cf.len() == 0 {
                    assert(rc =~= Seq::<(Seq<char>, int)>::empty());
                    assert(cf =~= Seq::<(Seq<char>, Json)>::empty());
                    assert(field_value(ls, st, q + 1, dep, k, Seq::empty(), ln, key_is_bare(ls[q].content)) == (
                        Ok::<(Seq<char>, Json), crate::error::DecodeFault>((k, c)),
                        q + 1,
                    ));
                } else {
                    lemma_raw_field_at(c, 0, dep + 1, dc);
                    assert(raw_fields(c, 0, dep + 1, dc) =~= Seq::<(Seq<char>, int)>::empty());
                    lemma_raw_prefix(c, 1, cf.len() as int, dep + 1, dc);
                    assert(rc[0] == raw_field(c, 0, dep + 1, dc)[0]) by {
                        assert(raw_fields(c, 1, dep + 1, dc) =~= raw_field(c, 0, dep + 1, dc));
                        assert(rc.subrange(0, raw_fields(c, 1, dep + 1, dc).len() as int)[0] == rc[0]);
                    }
                    assert(ls[q + 1 + 0].depth == dep + 1);
                    assert(ends_block(ls, q + 1 + rc.len(), dep + 1));
                    lemma_decode_fields(ls, st, c, dep + 1, d, q + 1, 0);
                    assert(cf.subrange(0, 0) =~= Seq::<(Seq<char>, Json)>::empty());
                    assert(field_value(ls, st, q + 1, dep, k, Seq::empty(), ln, key_is_bare(ls[q].content)) == (
                        Ok::<(Seq<char>, Json), crate::error::DecodeFault>((k, c)),
                        next,
                    ));
                }
            },
            Json::Arr(arr) => {
                lemma_delim_of(d);
                assert(inline_array_ok(k, arr, dc));
                assert(f == seq![(array_line(k, arr, d), dep)]);
                assert(next == q + 1);
                assert(end == ls.len() || ls[end].depth < dep);
                lemma_array_line(ls, st, q, dep, k, arr, d, ln);
            },
            _ => {
                assert(round_trips(c, dc));
                assert(f == seq![(field_line(k, c, dc), dep)]);
                lemma_field_line(k, c, d, st, ln);
                lemma_prim_edges(c, dc);
                lemma_scalar_round_trip(c, d, st, ln);
                assert(field_value(ls, st, q + 1, dep, k, prim_text(c, dc), ln, key_is_bare(ls[q].content)) == (
                    Ok::<(Seq<char>, Json), crate::error::DecodeFault>((k, c)),
                    q + 1,
                ));
            },
        }
}

/// The reader's object loop rebuilds a nested object from its block of lines,
/// from field `j` on, and stops right after the block.
#[verifier::rlimit(60)]
proof fn lemma_decode_fields(ls: Seq<LineModel>, st: bool, v: Json, dep: int, d: Delimiter, p: int, j: int)
    requires
        v is Obj,
        nested_ok(v, d.char_spec()),
        dep >= 0,
        0 <= j <= v->Obj_0.len(),
        lines_at(ls, p, raw_fields(v, v->Obj_0.len() as int, dep, d.char_spec())),
        ends_block(ls, p + raw_fields(v, v->Obj_0.len() as int, dep, d.char_spec()).len(), dep),
    ensures
        object_loop(
            ls,
            st,
            p + raw_fields(v, j, dep, d.char_spec()).len(),
            dep,
            v->Obj_0.subrange(0, j),
        ) == (
            Ok::<Json, crate::error::DecodeFault>(v),
            p + raw_fields(v, v->Obj_0.len() as int, dep, d.char_spec()).len(),
        ),
    decreases v, v->Obj_0.len() - j, 1int,
{
    let dc = d.char_spec();
    let fs = v->Obj_0;
    let n = fs.len() as int;
    let full = raw_fields(v, n, dep, dc);
    let end = p + full.len();
    let q = p + raw_fields(v, j, dep, dc).len();
    lemma_raw_prefix(v, j, n, dep, dc);
    if j == n {
        assert(fs.subrange(0, n) =~= fs);
    } else {
        lemma_raw_field_at(v, j, dep, dc);
        lemma_raw_prefix(v, j + 1, n, dep, dc);
        let f = raw_field(v, j, dep, dc);
        let next = p + raw_fields(v, j + 1, dep, dc).len();
        assert(next == q + f.len());
        assert(ls[q] == ls[p + raw_fields(v, j, dep, dc).len() + 0]);
        assert(ls[q].content == f[0].0 && ls[q].depth == dep) by {
            assert(full[raw_fields(v, j, dep, dc).len() as int + 0] == f[0]);
        }
        // The line after the field's block ends it.
        assert(next == end || (next < ls.len() && ls[next].depth == dep)) by {
            if j + 1 < n {
                lemma_raw_field_at(v, j + 1, dep, dc);
                assert(full[raw_fields(v, j + 1, dep, dc).len() as int + 0] == raw_field(
                    v,
                    j + 1,
                    dep,
                    dc,
                )[0]);
            }
        }
        let k = fs[j].0;
        let c = fs[j].1;
        assert(simple_key(fs[j].0));
        lemma_bracket_none(k);
        let acc = fs.subrange(0, j);
        assert forall|m: int| 0 <= m < acc.len() implies #[trigger] acc[m].0 != k by {
            assert(acc[m] == fs[m]);
        }
        lemma_key_absent(acc, k, 0);
        assert(obj_insert(acc, k, c) =~= fs.subrange(0, j + 1));
        let ln = ls[q].line_num;
        lemma_field_step(ls, st, v, dep, d, p, j);
        lemma_decode_fields(ls, st, v, dep, d, p, j + 1);
    }
}

/// The first line of an object holds a colon outside quotes.
proof fn lemma_first_line_colon(v: Json, d: Delimiter)
    requires
        v is Obj,
        v->Obj_0.len() >= 1,
        nested_ok(v, d.char_spec()),
    ensures
        raw_fields(v, v->Obj_0.len() as int, 0, d.char_spec()).len() >= 1,
        has_colon_scan(raw_fields(v, v->Obj_0.len() as int, 0, d.char_spec())[0].0, 0, false),
{
    let dc = d.char_spec();
    let fs = v->Obj_0;
    let n = fs.len() as int;
    let k = fs[0].0;
    let c = fs[0].1;
    assert(simple_key(fs[0].0));
    lemma_raw_field_at(v, 0, 0, dc);
    lemma_raw_prefix(v, 1, n, 0, dc);
    assert(raw_fields(v, 0, 0, dc) =~= Seq::<(Seq<char>, int)>::empty());
    assert(raw_fields(v, 1, 0, dc) =~= raw_field(v, 0, 0, dc));
    assert(raw_fields(v, n, 0, dc).len() >= 1);
    assert(raw_fields(v, n, 0, dc)[0] == raw_field(v, 0, 0, dc)[0]) by {
        assert(raw_fields(v, n, 0, dc)[raw_fields(v, 0, 0, dc).len() as int + 0] == raw_field(
            v,
            0,
            0,
            dc,
        )[0]);
    }
    match c {
        Json::Obj(cf) => {
            lemma_key_colon(k, Seq::empty());
            assert(key_text(k) + seq![':'] + Seq::<char>::empty() =~= key_text(k) + seq![':']);
            assert(raw_field(v, 0, 0, dc)[0] == (key_text(k) + seq![':'], 0int));
        },
        Json::Arr(arr) => {
            lemma_delim_of(d);
            assert(inline_array_ok(k, arr, dc));
            lemma_array_line_colon(k, arr, d);
            assert(raw_field(v, 0, 0, dc)[0] == (array_line(k, arr, d), 0int));
        },
        _ => {
            lemma_key_colon(k, seq![' '] + prim_text(c, dc));
            assert(field_line(k, c, dc) =~= key_text(k) + seq![':'] + (seq![' '] + prim_text(
                c,
                dc,
            )));
            assert(raw_field(v, 0, 0, dc)[0] == (field_line(k, c, dc), 0int));
        },
    }
}

/// The reader takes the text of a non-empty nested object back to the object.
proof fn lemma_nested_nonempty(v: Json, ind: int, d: Delimiter, strict: bool)
    requires
        ind > 0,
        v is Obj,
        v->Obj_0.len() >= 1,
        nested_ok(v, d.char_spec()),
    ensures
        decode_spec(object_fields(v, v->Obj_0.len() as int, 0, ind, d), ind, strict) == Ok::<
            Json,
            crate::error::DecodeFault,
        >(v),
{
    let dc = d.char_spec();
    let fs = v->Obj_0;
    let n = fs.len() as int;
    let r = raw_fields(v, n, 0, dc);
    lemma_root_text(v, n, ind, d);
    assert((seq!['\n'] + object_fields(v, n, 0, ind, d)).drop_first() =~= object_fields(
        v,
        n,
        0,
        ind,
        d,
    ));
    lemma_raw_ok(v, n, 0, dc);
    lemma_first_line_colon(v, d);
    lemma_raw_lines(r, ind, strict);
    let ls = raw_models(r);
    assert(lines_at(ls, 0, r)) by {
        assert forall|i: int| 0 <= i < r.len() implies (#[trigger] ls[0 + i]).content == r[i].0
            && ls[0 + i].depth == r[i].1 by {}
    }
    assert(ends_block(ls, 0 + r.len() as int, 0));
    lemma_decode_fields(ls, strict, v, 0, d, 0, 0);
    assert(raw_fields(v, 0, 0, dc) =~= Seq::<(Seq<char>, int)>::empty());
    assert(fs.subrange(0, 0) =~= Seq::<(Seq<char>, Json)>::empty());
    assert(raw_line_ok(r[0]));
    assert(ls[0].content == r[0].0);
    assert(decode_lines_spec(ls, strict) == object_loop(ls, strict, 0, 0, Seq::empty()).0);
}

/// A nested object whose leaves are scalars or inline arrays of scalars comes
/// back from the trip through text unchanged, under every delimiter and indent
/// width, in either mode.
pub proof fn lemma_nested_round_trip(v: Json, ind: int, d: Delimiter, strict: bool)
    requires
        ind > 0,
        nested_ok(v, d.char_spec()),
    ensures
        decode_spec(encode_spec(v, ind, d), ind, strict) == Ok::<Json, crate::error::DecodeFault>(v),
{
    let fs = v->Obj_0;
    let n = fs.len() as int;
    assert(encode_spec(v, ind, d) == object_fields(v, n, 0, ind, d));
    if n == 0 {
        let e = Seq::<char>::empty();
        assert(object_fields(v, 0, 0, ind, d) == e);
        assert(trim_spec(e) == e);
        assert(lines_spec(e, ind, strict) == Ok::<Seq<LineModel>, crate::error::DecodeFault>(
            Seq::empty(),
        ));
        assert(fs =~= Seq::<(Seq<char>, Json)>::empty());
        assert(v == Json::Obj(Seq::<(Seq<char>, Json)>::empty()));
    } else {
        lemma_nested_nonempty(v, ind, d, strict);
    }
}

/// Writing such a nested object, reading it back and writing it again gives
/// the text first written.
pub proof fn lemma_nested_reencode(v: Json, ind: int, d: Delimiter, strict: bool)
    requires
        ind > 0,
        nested_ok(v, d.char_spec()),
    ensures
        match decode_spec(encode_spec(v, ind, d), ind, strict) {
            Ok(w) => encode_spec(w, ind, d) == encode_spec(v, ind, d),
            Err(_) => false,
        },
{
    lemma_nested_round_trip(v, ind, d, strict);
}

// ---------------------------------------------------------------------------
// Inline arrays

proof fn lemma_find_none(s: Seq<char>, c: char, i: int, m: int)
    requires
        find_from(s, c, i) is None,
        0 <= i <= m < s.len(),
    ensures
        s[m] != c,
    decreases m - i,
{
    if i < m {
        lemma_find_none(s, c, i + 1, m);
    }
}

/// A run without quotes or delimiters stays in the current cell.
proof fn lemma_split_plain(
    s: Seq<char>,
    i: int,
    j: int,
    cur: Seq<char>,
    acc: Seq<Seq<char>>,
    d: char,
)
    requires
        0 <= i <= j <= s.len(),
        forall|m: int| i <= m < j ==> #[trigger] s[m] != '"' && s[m] != d,
    ensures
        split_scan(s, i, false, cur, acc, d) == split_scan(s, j, false, cur + s.subrange(i, j), acc, d),
    decreases j - i,
{
    if i < j {
        lemma_split_plain(s, i + 1, j, cur.push(s[i]), acc, d);
        assert(cur.push(s[i]) + s.subrange(i + 1, j) =~= cur + s.subrange(i, j));
    } else {
        assert(cur + s.subrange(i, j) =~= cur);
    }
}

/// Inside quotes, an escaped text stays in the current cell.
proof fn lemma_split_escaped(
    s: Seq<char>,
    i: int,
    x: Seq<char>,
    cur: Seq<char>,
    acc: Seq<Seq<char>>,
    d: char,
)
    requires
        0 <= i,
        i + escape_seq(x).len() < s.len(),
        s.subrange(i, i + escape_seq(x).len()) == escape_seq(x),
    ensures
        split_scan(s, i, true, cur, acc, d) == split_scan(
            s,
            i + escape_seq(x).len(),
            true,
            cur + escape_seq(x),
            acc,
            d,
        ),
    decreases x.len(),
{
    let e = escape_seq(x);
    if x.len() == 0 {
        assert(cur + e =~= cur);
    } else {
        let h = escape_char(x[0]);
        let rest = escape_seq(x.drop_first());
        assert(e == h + rest);
        assert(s.subrange(i + h.len(), i + h.len() + rest.len()) =~= rest) by {
            assert forall|m: int| 0 <= m < rest.len() implies s.subrange(
                i + h.len(),
                i + h.len() + rest.len(),
            )[m] == rest[m] by {
                assert(s.subrange(i, i + e.len())[h.len() + m] == e[h.len() + m]);
            }
        }
        assert(s[i] == h[0]) by {
            assert(s.subrange(i, i + e.len())[0] == e[0]);
        }
        lemma_split_escaped(s, i + h.len(), x.drop_first(), cur + h, acc, d);
        assert(cur + h + rest =~= cur + e);
        if h.len() == 2 {
            assert(s[i + 1] == h[1]) by {
                assert(s.subrange(i, i + e.len())[1] == e[1]);
            }
            assert(cur.push(s[i]).push(s[i + 1]) =~= cur + h);
        } else {
            assert(h == seq![x[0]]);
            assert(cur.push(s[i]) =~= cur + h);
        }
    }
}

/// The text of a scalar that survives the trip is one whole cell.
proof fn lemma_split_prim(
    s: Seq<char>,
    i: int,
    v: Json,
    d: Delimiter,
    cur: Seq<char>,
    acc: Seq<Seq<char>>,
)
    requires
        round_trips(v, d.char_spec()),
        0 <= i,
        i + prim_text(v, d.char_spec()).len() <= s.len(),
        s.subrange(i, i + prim_text(v, d.char_spec()).len()) == prim_text(v, d.char_spec()),
    ensures
        split_scan(s, i, false, cur, acc, d.char_spec()) == split_scan(
            s,
            i + prim_text(v, d.char_spec()).len(),
            false,
            cur + prim_text(v, d.char_spec()),
            acc,
            d.char_spec(),
        ),
{
    let dc = d.char_spec();
    let t = prim_text(v, dc);
    let j = i + t.len();
    assert(dc == ',' || dc == '\t' || dc == '|');
    assert forall|m: int| 0 <= m < t.len() implies #[trigger] s[i + m] == t[m] by {
        assert(s.subrange(i, j)[m] == t[m]);
    }
    match v {
        Json::Str(x) => {
            if needs_quotes(x, dc) {
                let e = escape_seq(x);
                assert(t == seq!['"'] + e + seq!['"']);
                assert(s[i] == '"') by {
                    assert(s[i + 0] == t[0]);
                }
                assert(s.subrange(i + 1, i + 1 + e.len()) =~= e) by {
                    assert forall|m: int| 0 <= m < e.len() implies s.subrange(i + 1, i + 1 + e.len())[m]
                        == e[m] by {
                        assert(s[i + (m + 1)] == t[m + 1]);
                    }
                }
                lemma_split_escaped(s, i + 1, x, cur.push('"'), acc, dc);
                assert(s[i + 1 + e.len()] == '"') by {
                    assert(s[i + (e.len() + 1)] == t[e.len() as int + 1]);
                }
                assert(cur.push('"') + e + seq!['"'] =~= cur + t);
                assert((cur.push('"') + e).push('"') =~= cur + t);
            } else {
                assert forall|m: int| i <= m < j implies #[trigger] s[m] != '"' && s[m] != dc by {
                    assert(s[i + (m - i)] == t[m - i]);
                    assert(!is_structural_char(x[m - i]));
                    if x.len() > 0 {
                        lemma_find_none(x, dc, 0, m - i);
                    }
                }
                lemma_split_plain(s, i, j, cur, acc, dc);
                assert(s.subrange(i, j) == t);
            }
        },
        Json::Num(NumberModel::Int(n)) => {
            lemma_int_text(n);
            lemma_int_digits(n);
            assert forall|m: int| i <= m < j implies #[trigger] s[m] != '"' && s[m] != dc by {
                assert(s[i + (m - i)] == t[m - i]);
            }
            lemma_split_plain(s, i, j, cur, acc, dc);
        },
        _ => {
            assert forall|m: int| i <= m < j implies #[trigger] s[m] != '"' && s[m] != dc by {
                assert(s[i + (m - i)] == t[m - i]);
            }
            lemma_split_plain(s, i, j, cur, acc, dc);
        },
    }
}

proof fn lemma_int_digits(n: int)
    requires
        i64::MIN <= n <= i64::MAX,
    ensures
        forall|m: int|
            0 <= m < int_text(n).len() ==> #[trigger] int_text(n)[m] == '-' || is_digit(int_text(n)[m]),
{
    if n < 0 {
        lemma_decimal((-n) as nat);
        let d = decimal_spec((-n) as nat);
        assert forall|m: int| 0 <= m < int_text(n).len() implies #[trigger] int_text(n)[m] == '-'
            || is_digit(int_text(n)[m]) by {
            if m > 0 {
                assert(int_text(n)[m] == d[m - 1]);
            }
        }
    } else {
        lemma_decimal(n as nat);
    }
}

pub open spec fn cells_of(a: Seq<Json>, n: int, d: char) -> Seq<Seq<char>> {
    Seq::new(n as nat, |i: int| prim_text(a[i], d))
}

proof fn lemma_joined_prefix(a: Seq<Json>, j: int, n: int, d: char)
    requires
        1 <= j <= n,
    ensures
        prims_joined(a, j, d).len() <= prims_joined(a, n, d).len(),
        prims_joined(a, n, d).subrange(0, prims_joined(a, j, d).len() as int) == prims_joined(a, j, d),
    decreases n - j,
{
    if j < n {
        lemma_joined_prefix(a, j, n - 1, d);
        let x = prims_joined(a, n - 1, d);
        let y = prims_joined(a, n, d);
        let t = prims_joined(a, j, d);
        assert(y == x + seq![d] + prim_text(a[n - 1], d));
        assert(y.subrange(0, t.len() as int) =~= x.subrange(0, t.len() as int));
    } else {
        let t = prims_joined(a, j, d);
        assert(t.subrange(0, t.len() as int) =~= t);
    }
}

/// Splitting the cells of an inline array, from the end of cell `k - 1` on.
#[verifier::rlimit(60)]
proof fn lemma_split_joined_from(a: Seq<Json>, n: int, d: Delimiter, k: int)
    requires
        1 <= k <= n <= a.len(),
        forall|i: int| 0 <= i < n ==> round_trips(#[trigger] a[i], d.char_spec()),
    ensures
        split_scan(
            prims_joined(a, n, d.char_spec()),
            prims_joined(a, k, d.char_spec()).len() as int,
            false,
            prim_text(a[k - 1], d.char_spec()),
            cells_of(a, k - 1, d.char_spec()),
            d.char_spec(),
        ) == cells_of(a, n, d.char_spec()),
    decreases n - k,
{
    let dc = d.char_spec();
    let s = prims_joined(a, n, dc);
    let x = prims_joined(a, k, dc);
    let t = prim_text(a[k - 1], dc);
    lemma_prim_edges(a[k - 1], dc);
    lemma_trim_no_edge_ws(t);
    assert(cells_of(a, k - 1, dc).push(t) =~= cells_of(a, k, dc));
    lemma_joined_prefix(a, k, n, dc);
    if k == n {
        assert(x.len() == s.len());
    } else {
        let y = prims_joined(a, k + 1, dc);
        let u = prim_text(a[k], dc);
        assert(y == x + seq![dc] + u);
        lemma_joined_prefix(a, k + 1, n, dc);
        assert(s[x.len() as int] == y[x.len() as int]);
        assert(s[x.len() as int] == dc);
        assert(dc != '"' && dc != '\\');
        assert(s.subrange(x.len() as int + 1, x.len() as int + 1 + u.len()) =~= u) by {
            assert forall|m: int| 0 <= m < u.len() implies s.subrange(
                x.len() as int + 1,
                x.len() as int + 1 + u.len(),
            )[m] == u[m] by {
                assert(s[x.len() + 1 + m] == y[x.len() + 1 + m]);
            }
        }
        lemma_split_prim(s, x.len() as int + 1, a[k], d, Seq::empty(), cells_of(a, k, dc));
        assert(Seq::<char>::empty() + u =~= u);
        lemma_split_joined_from(a, n, d, k + 1);
    }
}

/// The cells of an inline array split back into the texts of its elements.
proof fn lemma_split_joined(a: Seq<Json>, d: Delimiter)
    requires
        a.len() >= 1,
        forall|i: int| 0 <= i < a.len() ==> round_trips(#[trigger] a[i], d.char_spec()),
    ensures
        split_spec(prims_joined(a, a.len() as int, d.char_spec()), d.char_spec()) == cells_of(
            a,
            a.len() as int,
            d.char_spec(),
        ),
{
    let dc = d.char_spec();
    let n = a.len() as int;
    let s = prims_joined(a, n, dc);
    let t0 = prim_text(a[0], dc);
    assert(prims_joined(a, 1, dc) == t0);
    lemma_joined_prefix(a, 1, n, dc);
    lemma_split_prim(s, 0, a[0], d, Seq::empty(), Seq::empty());
    assert(Seq::<char>::empty() + t0 =~= t0);
    assert(cells_of(a, 0, dc) =~= Seq::<Seq<char>>::empty());
    lemma_split_joined_from(a, n, d, 1);
}

/// The cells of an inline array read back as its elements.
proof fn lemma_prims_from(a: Seq<Json>, d: Delimiter, st: bool, ln: int, i: int)
    requires
        0 <= i <= a.len(),
        forall|m: int| 0 <= m < a.len() ==> round_trips(#[trigger] a[m], d.char_spec()),
    ensures
        prims_from(cells_of(a, a.len() as int, d.char_spec()), i, a.subrange(0, i), st, ln) == Ok::<
            Seq<Json>,
            crate::error::DecodeFault,
        >(a),
    decreases a.len() - i,
{
    if i == a.len() {
        assert(a.subrange(0, i) =~= a);
    } else {
        lemma_scalar_round_trip(a[i], d, st, ln);
        assert(a.subrange(0, i).push(a[i]) =~= a.subrange(0, i + 1));
        lemma_prims_from(a, d, st, ln, i + 1);
    }
}

/// A length as the encoder writes it reads back.
proof fn lemma_parse_length(n: nat)
    requires
        n <= usize::MAX,
    ensures
        parse_usize_spec(decimal_spec(n)) == Some(n as int),
{
    lemma_decimal(n);
    assert(is_digit(decimal_spec(n)[0]));
}

proof fn lemma_find_first(s: Seq<char>, c: char, i: int, j: int)
    requires
        0 <= i <= j < s.len(),
        s[j] == c,
        forall|m: int| i <= m < j ==> #[trigger] s[m] != c,
    ensures
        find_from(s, c, i) == Some(j),
    decreases j - i,
{
    if i < j {
        lemma_find_first(s, c, i + 1, j);
    }
}

/// An array that the encoder writes on its key's line and the reader reads back.
pub open spec fn inline_array_ok(k: Seq<char>, a: Seq<Json>, d: char) -> bool {
    is_plain_key(k) && a.len() <= usize::MAX && inline_ok(a) && forall|j: int|
        0 <= j < a.len() ==> round_trips(#[trigger] a[j], d)
}

/// The line of a field that holds an inline array, after its indentation.
pub open spec fn array_line(k: Seq<char>, a: Seq<Json>, d: Delimiter) -> Seq<char> {
    key_text(k) + header_text(a.len(), d, None) + inline_values(a, d.char_spec())
}

/// What the reader takes for the key of an array line: the key and the bracket.
pub open spec fn array_read_key(k: Seq<char>, a: Seq<Json>, d: Delimiter) -> Seq<char> {
    k + header_text(a.len(), d, None).drop_last()
}

/// What the reader takes for the value of an array line.
pub open spec fn array_read_value(a: Seq<Json>, d: char) -> Seq<char> {
    if a.len() > 0 {
        prims_joined(a, a.len() as int, d)
    } else {
        Seq::empty()
    }
}

proof fn lemma_joined_edges(a: Seq<Json>, d: char)
    requires
        a.len() >= 1,
        d == ',' || d == '\t' || d == '|',
        forall|i: int| 0 <= i < a.len() ==> round_trips(#[trigger] a[i], d),
    ensures
        prims_joined(a, a.len() as int, d).len() > 0,
        !is_ws(prims_joined(a, a.len() as int, d)[0]),
        !is_ws(prims_joined(a, a.len() as int, d).last()),
        forall|m: int|
            0 <= m < prims_joined(a, a.len() as int, d).len() ==> #[trigger] prims_joined(
                a,
                a.len() as int,
                d,
            )[m] != '\n',
    decreases a.len(),
{
    let n = a.len() as int;
    let j = prims_joined(a, n, d);
    lemma_prim_edges(a[n - 1], d);
    lemma_prim_no_newline(a[n - 1], d);
    if n == 1 {
        assert(j == prim_text(a[0], d));
    } else {
        let b = a.subrange(0, n - 1);
        assert forall|i: int| 0 <= i < b.len() implies round_trips(#[trigger] b[i], d) by {
            assert(b[i] == a[i]);
        }
        lemma_joined_edges(b, d);
        lemma_joined_same(a, b, n - 1, d);
        let x = prims_joined(a, n - 1, d);
        let t = prim_text(a[n - 1], d);
        assert(j == x + seq![d] + t);
        assert(j[0] == x[0]);
        assert(j.last() == t.last());
        assert(d != '\n');
        assert forall|m: int| 0 <= m < j.len() implies #[trigger] j[m] != '\n' by {
            if m < x.len() {
                assert(j[m] == x[m]);
            } else if m > x.len() {
                assert(j[m] == t[m - x.len() - 1]);
            }
        }
    }
}

proof fn lemma_joined_same(a: Seq<Json>, b: Seq<Json>, n: int, d: char)
    requires
        0 <= n <= b.len(),
        n <= a.len(),
        forall|i: int| 0 <= i < n ==> a[i] == b[i],
    ensures
        prims_joined(a, n, d) == prims_joined(b, n, d),
    decreases n,
{
    if n > 1 {
        lemma_joined_same(a, b, n - 1, d);
    }
}

proof fn lemma_prim_no_newline(v: Json, d: char)
    requires
        round_trips(v, d),
    ensures
        forall|i: int| 0 <= i < prim_text(v, d).len() ==> #[trigger] prim_text(v, d)[i] != '\n',
{
    let p = prim_text(v, d);
    assert forall|i: int| 0 <= i < p.len() implies #[trigger] p[i] != '\n' by {
        match v {
            Json::Num(NumberModel::Int(n)) => {
                lemma_int_text(n);
                lemma_int_text_chars(n);
            },
            Json::Str(s) => {
                if needs_quotes(s, d) {
                    lemma_escape_no_newline(s);
                    let q = quoted_spec(s);
                    if 0 < i < q.len() - 1 {
                        assert(q[i] == escape_seq(s)[i - 1]);
                    }
                } else {
                    assert(!is_structural_char(s[i]));
                }
            },
            _ => {},
        }
    }
}

pub open spec fn array_header_body(a: Seq<Json>, d: Delimiter) -> Seq<char> {
    seq!['['] + decimal_spec(a.len()) + d.symbol_spec() + seq![']']
}

/// The header text that the reader rebuilds from an array line.
pub open spec fn array_full(a: Seq<Json>, d: Delimiter) -> Seq<char> {
    if array_read_value(a, d.char_spec()).len() == 0 {
        array_header_body(a, d)
    } else {
        array_header_body(a, d) + seq![':'] + array_read_value(a, d.char_spec())
    }
}

proof fn lemma_body_chars(a: Seq<Json>, d: Delimiter)
    ensures
        array_header_body(a, d).len() == 2 + decimal_spec(a.len()).len() + d.symbol_spec().len(),
        array_header_body(a, d)[0] == '[',
        array_header_body(a, d).last() == ']',
        forall|m: int|
            1 <= m < array_header_body(a, d).len() - 1 ==> #[trigger] array_header_body(a, d)[m]
                != '"' && array_header_body(a, d)[m] != ':' && array_header_body(a, d)[m] != ']'
                && array_header_body(a, d)[m] != '[' && array_header_body(a, d)[m] != '\n',
{
    let dec = decimal_spec(a.len());
    let sym = d.symbol_spec();
    let body = array_header_body(a, d);
    lemma_decimal(a.len());
    assert forall|m: int| 1 <= m < body.len() - 1 implies #[trigger] body[m] != '"' && body[m]
        != ':' && body[m] != ']' && body[m] != '[' && body[m] != '\n' by {
        if m < 1 + dec.len() {
            assert(body[m] == dec[m - 1]);
            assert(is_digit(dec[m - 1]));
        } else {
            assert(body[m] == sym[m - 1 - dec.len()]);
        }
    }
}

/// An array field's line splits into the key with its bracket and the cells.
proof fn lemma_array_kv(k: Seq<char>, a: Seq<Json>, d: Delimiter, st: bool, ln: int)
    requires
        inline_array_ok(k, a, d.char_spec()),
    ensures
        key_value_spec(array_line(k, a, d), st, ln) == Ok::<
            Option<(Seq<char>, Seq<char>)>,
            crate::error::DecodeFault,
        >(Some((array_read_key(k, a, d), array_read_value(a, d.char_spec())))),
        key_is_bare(array_line(k, a, d)),
{
    let dc = d.char_spec();
    let n = a.len();
    let hd = header_text(n, d, None);
    let body = array_header_body(a, d);
    let iv = inline_values(a, dc);
    let vp = array_read_value(a, dc);
    let line = array_line(k, a, d);
    lemma_body_chars(a, d);
    assert(hd =~= body + seq![':']);
    assert(hd.drop_last() =~= body);
    assert(key_text(k) == k);
    assert(line =~= k + body + seq![':'] + iv);
    let pos = (k.len() + body.len()) as int;
    assert forall|m: int| 0 <= m < pos implies #[trigger] line[m] != '"' && line[m] != ':' by {
        if m < k.len() {
            assert(line[m] == k[m]);
            assert(is_key_char(k[m]));
        } else {
            assert(line[m] == body[m - k.len()]);
        }
    }
    lemma_colon_scan_skip(line, 0, pos, false);
    assert(line[pos] == ':');
    assert(colon_scan(line, pos, false) == Some(pos));
    let kb = k + body;
    assert(line.subrange(0, pos) =~= kb);
    assert(line.subrange(pos + 1, line.len() as int) =~= iv);
    assert(is_key_char(k[0]));
    assert(kb[0] == k[0]);
    assert(kb.last() == ']');
    lemma_trim_no_edge_ws(kb);
    assert(!is_quoted(kb));
    if n > 0 {
        lemma_joined_edges(a, dc);
        lemma_trim_no_edge_ws(vp);
        assert(iv == seq![' '] + vp);
        assert(iv.drop_first() =~= vp);
        assert(trim_start_spec(iv) == trim_start_spec(vp));
    } else {
        assert(iv == Seq::<char>::empty());
    }
    assert(trim_spec(iv) == vp);
    assert(array_read_key(k, a, d) == kb);
}

/// The header that the reader rebuilds gives back the length and the delimiter,
/// and the cells after its colon.
#[verifier::rlimit(60)]
proof fn lemma_array_header(a: Seq<Json>, d: Delimiter, st: bool, ln: int)
    requires
        a.len() <= usize::MAX,
        forall|j: int| 0 <= j < a.len() ==> round_trips(#[trigger] a[j], d.char_spec()),
    ensures
        header_spec(array_full(a, d), st, ln) == Ok::<
            (int, Delimiter, Seq<Seq<char>>),
            crate::error::DecodeFault,
        >((a.len() as int, d, Seq::empty())),
        after_colon(array_full(a, d)) == array_read_value(a, d.char_spec()),
        array_full(a, d)[0] == '[',
{
    let dc = d.char_spec();
    let n = a.len();
    let dec = decimal_spec(n);
    let sym = d.symbol_spec();
    let body = array_header_body(a, d);
    let vp = array_read_value(a, dc);
    let full = array_full(a, d);
    lemma_body_chars(a, d);
    lemma_decimal(n);
    let bpos = (1 + dec.len() + sym.len()) as int;
    assert forall|m: int| 0 <= m < bpos implies #[trigger] full[m] != ']' by {
        assert(full[m] == body[m]);
    }
    assert(full[bpos] == ']') by {
        assert(full[bpos] == body[bpos]);
    }
    lemma_find_first(full, ']', 0, bpos);
    let content = full.subrange(1, bpos);
    assert(content =~= dec + sym);
    if sym.len() == 0 {
        assert(content.last() == dec.last());
        assert(is_digit(dec[dec.len() - 1]));
    } else {
        assert(content.last() == sym[0]);
    }
    assert(header_delimiter(content) == d);
    let num = if d == Delimiter::Comma {
        content
    } else {
        content.drop_last()
    };
    assert(num =~= dec);
    lemma_parse_length(n);
    let after = full.subrange(bpos + 1, full.len() as int);
    if vp.len() == 0 {
        assert(after =~= Seq::<char>::empty());
        assert forall|m: int| 0 <= m < full.len() implies #[trigger] full[m] != ':' by {
            assert(full[m] == body[m]);
        }
        lemma_no_char(full, ':', 0);
    } else {
        assert(after[0] == ':');
        assert forall|m: int| 0 <= m < bpos + 1 implies #[trigger] full[m] != ':' by {
            assert(full[m] == body[m]);
        }
        assert(full[bpos + 1] == ':');
        lemma_find_first(full, ':', 0, bpos + 1);
        assert(full.subrange(bpos + 2, full.len() as int) =~= vp);
        lemma_joined_edges(a, dc);
        lemma_trim_no_edge_ws(vp);
    }
}

/// The reader rebuilds an array field from its line.
#[verifier::rlimit(80)]
proof fn lemma_array_line(
    ls: Seq<LineModel>,
    st: bool,
    q: int,
    dep: int,
    k: Seq<char>,
    a: Seq<Json>,
    d: Delimiter,
    ln: int,
)
    requires
        inline_array_ok(k, a, d.char_spec()),
        0 <= q < ls.len(),
        q + 1 == ls.len() || (q + 1 < ls.len() && ls[q + 1].depth <= dep),
    ensures
        key_value_spec(array_line(k, a, d), st, ln) == Ok::<
            Option<(Seq<char>, Seq<char>)>,
            crate::error::DecodeFault,
        >(Some((array_read_key(k, a, d), array_read_value(a, d.char_spec())))),
        field_value(
            ls,
            st,
            q + 1,
            dep,
            array_read_key(k, a, d),
            array_read_value(a, d.char_spec()),
            ln,
            true,
        ) == (Ok::<(Seq<char>, Json), crate::error::DecodeFault>((k, Json::Arr(a))), q + 1),
        key_is_bare(array_line(k, a, d)),
{
    let dc = d.char_spec();
    let n = a.len();
    let body = array_header_body(a, d);
    let vp = array_read_value(a, dc);
    let kb = array_read_key(k, a, d);
    let full = array_full(a, d);
    lemma_array_kv(k, a, d, st, ln);
    lemma_array_header(a, d, st, ln);
    lemma_body_chars(a, d);
    assert(header_text(n, d, None).drop_last() =~= body);
    assert(kb =~= k + body);
    assert forall|m: int| 0 <= m < k.len() implies #[trigger] kb[m] != '[' by {
        assert(kb[m] == k[m]);
        assert(is_key_char(k[m]));
    }
    assert(kb[k.len() as int] == '[');
    lemma_bracket_skip(kb, 0, k.len() as int);
    assert(bracket_scan(kb, k.len() as int, false) == Some(k.len() as int));
    lemma_key_round_trip(k, st, ln);
    assert(kb.subrange(k.len() as int, kb.len() as int) =~= body);
    assert(kb.subrange(0, k.len() as int) =~= k);
    if vp.len() == 0 {
        assert(n == 0) by {
            if n > 0 {
                lemma_joined_edges(a, dc);
            }
        }
        assert(a =~= Seq::<Json>::empty());
        assert(try_array(ls, st, q + 1, dep, full, ln) == (
            Ok::<Option<Json>, crate::error::DecodeFault>(Some(Json::Arr(a))),
            q + 1,
        ));
    } else {
        assert(n > 0);
        lemma_split_joined(a, d);
        lemma_prims_from(a, d, st, ln, 0);
        assert(a.subrange(0, 0) =~= Seq::<Json>::empty());
        assert(inline_spec(vp, d, n as int, st, ln) == Ok::<Json, crate::error::DecodeFault>(
            Json::Arr(a),
        ));
    }
}

/// An array field's line is a raw line that the reader takes back.
proof fn lemma_array_line_ok(k: Seq<char>, a: Seq<Json>, d: Delimiter, dep: int)
    requires
        inline_array_ok(k, a, d.char_spec()),
        dep >= 0,
    ensures
        raw_line_ok((array_line(k, a, d), dep)),
{
    let dc = d.char_spec();
    let body = array_header_body(a, d);
    let iv = inline_values(a, dc);
    let line = array_line(k, a, d);
    lemma_body_chars(a, d);
    lemma_delim_of(d);
    assert(header_text(a.len(), d, None) =~= body + seq![':']);
    assert(key_text(k) == k);
    assert(line =~= k + body + seq![':'] + iv);
    assert(is_key_char(k[0]));
    assert(line[0] == k[0]);
    if a.len() > 0 {
        lemma_joined_edges(a, dc);
        assert(iv == seq![' '] + prims_joined(a, a.len() as int, dc));
        assert(line.last() == iv.last());
    } else {
        assert(iv == Seq::<char>::empty());
        assert(line.last() == ':');
    }
    assert forall|m: int| 0 <= m < line.len() implies #[trigger] line[m] != '\n' by {
        if m < k.len() {
            assert(line[m] == k[m]);
            assert(is_key_char(k[m]));
        } else if m < k.len() + body.len() {
            assert(line[m] == body[m - k.len()]);
        } else if m > k.len() + body.len() {
            assert(line[m] == iv[m - k.len() - body.len() - 1]);
            if m - k.len() - body.len() - 1 > 0 {
                assert(iv[m - k.len() - body.len() - 1] == prims_joined(a, a.len() as int, dc)[m
                    - k.len() - body.len() - 2]);
            }
        }
    }
}

/// An array field's line holds a colon outside quotes.
proof fn lemma_array_line_colon(k: Seq<char>, a: Seq<Json>, d: Delimiter)
    requires
        inline_array_ok(k, a, d.char_spec()),
    ensures
        has_colon_scan(array_line(k, a, d), 0, false),
{
    let dc = d.char_spec();
    let body = array_header_body(a, d);
    let iv = inline_values(a, dc);
    let line = array_line(k, a, d);
    lemma_body_chars(a, d);
    assert(header_text(a.len(), d, None) =~= body + seq![':']);
    assert(key_text(k) == k);
    assert(line =~= k + body + seq![':'] + iv);
    let pos = (k.len() + body.len()) as int;
    assert forall|m: int| 0 <= m < pos implies #[trigger] line[m] != '"' && line[m] != ':' by {
        if m < k.len() {
            assert(line[m] == k[m]);
            assert(is_key_char(k[m]));
        } else {
            assert(line[m] == body[m - k.len()]);
        }
    }
    lemma_has_colon_skip(line, 0, pos, false);
    assert(line[pos] == ':');
}

// ---------------------------------------------------------------------------
// Array forms

/// An array holding two objects whose keys differ, in order or in number, is
/// not written as a table: its header has no field list and its items follow
/// as a list.
pub proof fn lemma_differing_keys_force_list(
    a: Seq<Json>,
    i: int,
    j: int,
    depth: int,
    ind: int,
    d: Delimiter,
)
    requires
        0 <= i < a.len(),
        0 <= j < a.len(),
        a[i] is Obj,
        a[j] is Obj,
        keys_of(a[i]->Obj_0) != keys_of(a[j]->Obj_0),
    ensures
        !tabular_ok(a),
        enc_array(Json::Arr(a), depth, ind, d) == header_text(a.len(), d, None) + list_items(
            Json::Arr(a),
            a.len() as int,
            depth,
            ind,
            d,
        ),
{
    assert(!tabular_ok(a)) by {
        if tabular_ok(a) {
            assert(keys_of(a[i]->Obj_0) == keys_of(a[0]->Obj_0));
            assert(keys_of(a[j]->Obj_0) == keys_of(a[0]->Obj_0));
        }
    }
    assert(!inline_ok(a)) by {
        assert(!crate::encoder::is_prim(a[i]));
    }
}

// ---------------------------------------------------------------------------
// Array headers with field lists

/// A written key is one whole cell.
proof fn lemma_split_key(
    s: Seq<char>,
    i: int,
    k: Seq<char>,
    d: Delimiter,
    cur: Seq<char>,
    acc: Seq<Seq<char>>,
)
    requires
        0 <= i,
        i + key_text(k).len() <= s.len(),
        s.subrange(i, i + key_text(k).len()) == key_text(k),
    ensures
        split_scan(s, i, false, cur, acc, d.char_spec()) == split_scan(
            s,
            i + key_text(k).len(),
            false,
            cur + key_text(k),
            acc,
            d.char_spec(),
        ),
{
    let dc = d.char_spec();
    let t = key_text(k);
    let j = i + t.len();
    assert(dc == ',' || dc == '\t' || dc == '|');
    assert forall|m: int| 0 <= m < t.len() implies #[trigger] s[i + m] == t[m] by {
        assert(s.subrange(i, j)[m] == t[m]);
    }
    if is_plain_key(k) {
        assert forall|m: int| i <= m < j implies #[trigger] s[m] != '"' && s[m] != dc by {
            assert(s[i + (m - i)] == t[m - i]);
            assert(is_key_char(k[m - i]));
        }
        lemma_split_plain(s, i, j, cur, acc, dc);
    } else {
        let e = escape_seq(k);
        assert(t == seq!['"'] + e + seq!['"']);
        assert(s[i] == '"') by {
            assert(s[i + 0] == t[0]);
        }
        assert(s.subrange(i + 1, i + 1 + e.len()) =~= e) by {
            assert forall|m: int| 0 <= m < e.len() implies s.subrange(i + 1, i + 1 + e.len())[m]
                == e[m] by {
                assert(s[i + (m + 1)] == t[m + 1]);
            }
        }
        lemma_split_escaped(s, i + 1, k, cur.push('"'), acc, dc);
        assert(s[i + 1 + e.len()] == '"') by {
            assert(s[i + (e.len() + 1)] == t[e.len() as int + 1]);
        }
        assert((cur.push('"') + e).push('"') =~= cur + t);
    }
}

pub open spec fn key_cells(fs: Seq<Seq<char>>, n: int) -> Seq<Seq<char>> {
    Seq::new(n as nat, |i: int| key_text(fs[i]))
}

proof fn lemma_keys_prefix(fs: Seq<Seq<char>>, j: int, n: int, d: char)
    requires
        1 <= j <= n,
    ensures
        keys_joined(fs, j, d).len() <= keys_joined(fs, n, d).len(),
        keys_joined(fs, n, d).subrange(0, keys_joined(fs, j, d).len() as int) == keys_joined(fs, j, d),
    decreases n - j,
{
    if j < n {
        lemma_keys_prefix(fs, j, n - 1, d);
        let x = keys_joined(fs, n - 1, d);
        let y = keys_joined(fs, n, d);
        let t = keys_joined(fs, j, d);
        assert(y == x + seq![d] + key_text(fs[n - 1]));
        assert(y.subrange(0, t.len() as int) =~= x.subrange(0, t.len() as int));
    } else {
        let t = keys_joined(fs, j, d);
        assert(t.subrange(0, t.len() as int) =~= t);
    }
}

proof fn lemma_split_keys_from(fs: Seq<Seq<char>>, n: int, d: Delimiter, k: int)
    requires
        1 <= k <= n <= fs.len(),
    ensures
        split_scan(
            keys_joined(fs, n, d.char_spec()),
            keys_joined(fs, k, d.char_spec()).len() as int,
            false,
            key_text(fs[k - 1]),
            key_cells(fs, k - 1),
            d.char_spec(),
        ) == key_cells(fs, n),
    decreases n - k,
{
    let dc = d.char_spec();
    let s = keys_joined(fs, n, dc);
    let x = keys_joined(fs, k, dc);
    let t = key_text(fs[k - 1]);
    lemma_key_edges(fs[k - 1]);
    lemma_trim_no_edge_ws(t);
    assert(key_cells(fs, k - 1).push(t) =~= key_cells(fs, k));
    lemma_keys_prefix(fs, k, n, dc);
    if k == n {
        assert(x.len() == s.len());
    } else {
        let y = keys_joined(fs, k + 1, dc);
        let u = key_text(fs[k]);
        assert(y == x + seq![dc] + u);
        lemma_keys_prefix(fs, k + 1, n, dc);
        assert(s[x.len() as int] == y[x.len() as int]);
        assert(s[x.len() as int] == dc);
        assert(dc != '"' && dc != '\\');
        assert(s.subrange(x.len() as int + 1, x.len() as int + 1 + u.len()) =~= u) by {
            assert forall|m: int| 0 <= m < u.len() implies s.subrange(
                x.len() as int + 1,
                x.len() as int + 1 + u.len(),
            )[m] == u[m] by {
                assert(s[x.len() + 1 + m] == y[x.len() + 1 + m]);
            }
        }
        lemma_split_key(s, x.len() as int + 1, fs[k], d, Seq::empty(), key_cells(fs, k));
        assert(Seq::<char>::empty() + u =~= u);
        lemma_split_keys_from(fs, n, d, k + 1);
    }
}

/// The written keys of a field list split back into one cell per key.
proof fn lemma_split_keys(fs: Seq<Seq<char>>, d: Delimiter)
    requires
        fs.len() >= 1,
    ensures
        split_spec(keys_joined(fs, fs.len() as int, d.char_spec()), d.char_spec()) == key_cells(
            fs,
            fs.len() as int,
        ),
{
    let dc = d.char_spec();
    let n = fs.len() as int;
    let s = keys_joined(fs, n, dc);
    let t0 = key_text(fs[0]);
    assert(keys_joined(fs, 1, dc) == t0);
    lemma_keys_prefix(fs, 1, n, dc);
    lemma_split_key(s, 0, fs[0], d, Seq::empty(), Seq::empty());
    assert(Seq::<char>::empty() + t0 =~= t0);
    assert(key_cells(fs, 0) =~= Seq::<Seq<char>>::empty());
    lemma_split_keys_from(fs, n, d, 1);
}

/// The written keys read back as the keys.
proof fn lemma_unquote_keys(fs: Seq<Seq<char>>, st: bool, ln: int, i: int)
    requires
        0 <= i <= fs.len(),
    ensures
        unquote_from(key_cells(fs, fs.len() as int), i, fs.subrange(0, i), st, ln) == Ok::<
            Seq<Seq<char>>,
            crate::error::DecodeFault,
        >(fs),
    decreases fs.len() - i,
{
    if i == fs.len() {
        assert(fs.subrange(0, i) =~= fs);
    } else {
        lemma_key_round_trip(fs[i], st, ln);
        assert(fs.subrange(0, i).push(fs[i]) =~= fs.subrange(0, i + 1));
        lemma_unquote_keys(fs, st, ln, i + 1);
    }
}

/// Inside quotes, an escaped text holds no closing brace.
proof fn lemma_brace_escaped(s: Seq<char>, i: int, x: Seq<char>)
    requires
        0 <= i,
        i + escape_seq(x).len() < s.len(),
        s.subrange(i, i + escape_seq(x).len()) == escape_seq(x),
    ensures
        brace_scan(s, i, true) == brace_scan(s, i + escape_seq(x).len(), true),
    decreases x.len(),
{
    let e = escape_seq(x);
    if x.len() > 0 {
        let h = escape_char(x[0]);
        let rest = escape_seq(x.drop_first());
        assert(e == h + rest);
        assert(s.subrange(i + h.len(), i + h.len() + rest.len()) =~= rest) by {
            assert forall|m: int| 0 <= m < rest.len() implies s.subrange(
                i + h.len(),
                i + h.len() + rest.len(),
            )[m] == rest[m] by {
                assert(s.subrange(i, i + e.len())[h.len() + m] == e[h.len() + m]);
            }
        }
        assert(s[i] == h[0]) by {
            assert(s.subrange(i, i + e.len())[0] == e[0]);
        }
        lemma_brace_escaped(s, i + h.len(), x.drop_first());
    }
}

/// A written key holds no closing brace outside quotes.
proof fn lemma_brace_key(s: Seq<char>, i: int, k: Seq<char>)
    requires
        0 <= i,
        i + key_text(k).len() <= s.len(),
        s.subrange(i, i + key_text(k).len()) == key_text(k),
    ensures
        brace_scan(s, i, false) == brace_scan(s, i + key_text(k).len(), false),
{
    let t = key_text(k);
    assert forall|m: int| 0 <= m < t.len() implies #[trigger] s[i + m] == t[m] by {
        assert(s.subrange(i, i + t.len())[m] == t[m]);
    }
    if is_plain_key(k) {
        lemma_brace_plain_chars(s, i, i + t.len(), k, 0);
    } else {
        let e = escape_seq(k);
        assert(t == seq!['"'] + e + seq!['"']);
        assert(s[i] == '"') by {
            assert(s[i + 0] == t[0]);
        }
        assert(s.subrange(i + 1, i + 1 + e.len()) =~= e) by {
            assert forall|m: int| 0 <= m < e.len() implies s.subrange(i + 1, i + 1 + e.len())[m]
                == e[m] by {
                assert(s[i + (m + 1)] == t[m + 1]);
            }
        }
        lemma_brace_escaped(s, i + 1, k);
        assert(s[i + 1 + e.len()] == '"') by {
            assert(s[i + (e.len() + 1)] == t[e.len() as int + 1]);
        }
    }
}

/// Key characters hold no quote and no brace.
proof fn lemma_brace_plain_chars(s: Seq<char>, i: int, j: int, k: Seq<char>, o: int)
    requires
        0 <= i <= j <= s.len(),
        is_plain_key(k),
        o >= 0,
        i - o >= 0,
        j - i == k.len() - o,
        forall|m: int| 0 <= m < k.len() ==> #[trigger] s[(i - o) + m] == k[m],
    ensures
        brace_scan(s, i, false) == brace_scan(s, j, false),
    decreases j - i,
{
    if i < j {
        assert(s[(i - o) + o] == k[o]);
        assert(is_key_char(k[o]));
        lemma_brace_plain_chars(s, i + 1, j, k, o + 1);
    }
}

proof fn lemma_brace_keys_from(fs: Seq<Seq<char>>, n: int, d: Delimiter, s: Seq<char>, base: int, k: int)
    requires
        1 <= k <= n <= fs.len(),
        0 <= base,
        base + keys_joined(fs, n, d.char_spec()).len() <= s.len(),
        s.subrange(base, base + keys_joined(fs, n, d.char_spec()).len()) == keys_joined(
            fs,
            n,
            d.char_spec(),
        ),
    ensures
        brace_scan(s, base + keys_joined(fs, k, d.char_spec()).len(), false) == brace_scan(
            s,
            base + keys_joined(fs, n, d.char_spec()).len(),
            false,
        ),
    decreases n - k,
{
    let dc = d.char_spec();
    let full = keys_joined(fs, n, dc);
    if k < n {
        let x = keys_joined(fs, k, dc);
        let y = keys_joined(fs, k + 1, dc);
        let u = key_text(fs[k]);
        assert(y == x + seq![dc] + u);
        lemma_keys_prefix(fs, k + 1, n, dc);
        assert(s[base + x.len()] == full[x.len() as int]) by {
            assert(s.subrange(base, base + full.len())[x.len() as int] == full[x.len() as int]);
        }
        assert(full[x.len() as int] == y[x.len() as int]);
        assert(dc == ',' || dc == '\t' || dc == '|');
        assert(s.subrange(base + x.len() + 1, base + x.len() + 1 + u.len()) =~= u) by {
            assert forall|m: int| 0 <= m < u.len() implies s.subrange(
                base + x.len() + 1,
                base + x.len() + 1 + u.len(),
            )[m] == u[m] by {
                assert(s.subrange(base, base + full.len())[x.len() + 1 + m] == full[x.len() + 1
                    + m]);
                assert(full[x.len() + 1 + m] == y[x.len() + 1 + m]);
            }
        }
        lemma_brace_key(s, base + x.len() + 1, fs[k]);
        lemma_brace_keys_from(fs, n, d, s, base, k + 1);
    }
}

/// The header that the encoder writes for an array with a field list reads
/// back as its length, its delimiter and its field names.
pub proof fn lemma_header_round_trip(n: nat, d: Delimiter, fs: Seq<Seq<char>>, st: bool, ln: int)
    requires
        n <= usize::MAX,
        fs.len() >= 1,
    ensures
        header_spec(header_text(n, d, Some(fs)), st, ln) == Ok::<
            (int, Delimiter, Seq<Seq<char>>),
            crate::error::DecodeFault,
        >((n as int, d, fs)),
{
    let dc = d.char_spec();
    let dec = decimal_spec(n);
    let sym = d.symbol_spec();
    let j = keys_joined(fs, fs.len() as int, dc);
    let body = seq!['['] + dec + sym + seq![']'];
    let h = header_text(n, d, Some(fs));
    assert(h =~= body + (seq!['{'] + j + seq!['}']) + seq![':']);
    lemma_decimal(n);
    let bpos = (1 + dec.len() + sym.len()) as int;
    assert forall|m: int| 0 <= m < bpos implies #[trigger] h[m] != ']' by {
        assert(h[m] == body[m]);
        if 1 <= m < 1 + dec.len() {
            assert(body[m] == dec[m - 1]);
            assert(is_digit(dec[m - 1]));
        } else if 1 + dec.len() <= m {
            assert(body[m] == sym[m - 1 - dec.len()]);
        }
    }
    assert(h[bpos] == ']') by {
        assert(h[bpos] == body[bpos]);
    }
    lemma_find_first(h, ']', 0, bpos);
    let content = h.subrange(1, bpos);
    assert(content =~= dec + sym);
    if sym.len() == 0 {
        assert(content.last() == dec.last());
        assert(is_digit(dec[dec.len() - 1]));
    } else {
        assert(content.last() == sym[0]);
    }
    let num = if d == Delimiter::Comma {
        content
    } else {
        content.drop_last()
    };
    assert(num =~= dec);
    lemma_parse_length(n);
    let after = h.subrange(bpos + 1, h.len() as int);
    assert(after =~= seq!['{'] + j + seq!['}'] + seq![':']);
    assert(after.subrange(1, 1 + j.len() as int) =~= j);
    lemma_brace_keys_from(fs, fs.len() as int, d, after, 1, 1);
    assert(keys_joined(fs, 1, dc) == key_text(fs[0]));
    lemma_keys_prefix(fs, 1, fs.len() as int, dc);
    assert(j.subrange(0, key_text(fs[0]).len() as int) == key_text(fs[0]));
    assert(after.subrange(1, 1 + key_text(fs[0]).len() as int) =~= key_text(fs[0])) by {
        assert forall|m: int| 0 <= m < key_text(fs[0]).len() implies after.subrange(
            1,
            1 + key_text(fs[0]).len() as int,
        )[m] == key_text(fs[0])[m] by {
            assert(after[1 + m] == j[m]);
            assert(j.subrange(0, key_text(fs[0]).len() as int)[m] == j[m]);
        }
    }
    lemma_brace_key(after, 1, fs[0]);
    assert(after[1 + j.len() as int] == '}');
    assert(brace_scan(after, 1 + j.len() as int, false) == Some(1 + j.len() as int));
    lemma_split_keys(fs, d);
    lemma_unquote_keys(fs, st, ln, 0);
    assert(fs.subrange(0, 0) =~= Seq::<Seq<char>>::empty());
}

/// A run without quotes or brackets holds no header opening.
proof fn lemma_bracket_skip(s: Seq<char>, i: int, j: int)
    requires
        0 <= i <= j <= s.len(),
        forall|m: int| i <= m < j ==> #[trigger] s[m] != '"' && s[m] != '[',
    ensures
        bracket_scan(s, i, false) == bracket_scan(s, j, false),
    decreases j - i,
{
    if i < j {
        lemma_bracket_skip(s, i + 1, j);
    }
}

/// A simple key opens no array header.
proof fn lemma_bracket_none(k: Seq<char>)
    requires
        simple_key(k),
    ensures
        bracket_scan(k, 0, false) is None,
{
    lemma_bracket_skip(k, 0, k.len() as int);
}

// ---------------------------------------------------------------------------
// Root arrays of scalars

/// The text the encoder writes for a root array of scalars: its header and
/// its values, on one line.
pub open spec fn root_inline_text(a: Seq<Json>, d: Delimiter) -> Seq<char> {
    header_text(a.len(), d, None) + inline_values(a, d.char_spec())
}

/// The reader reads a root array's line back as its header's length and
/// delimiter, and its values after the colon.
#[verifier::rlimit(80)]
proof fn lemma_root_header(a: Seq<Json>, d: Delimiter, st: bool, ln: int)
    requires
        a.len() <= usize::MAX,
        forall|j: int| 0 <= j < a.len() ==> round_trips(#[trigger] a[j], d.char_spec()),
    ensures
        header_spec(root_inline_text(a, d), st, ln) == Ok::<
            (int, Delimiter, Seq<Seq<char>>),
            crate::error::DecodeFault,
        >((a.len() as int, d, Seq::empty())),
        after_colon(root_inline_text(a, d)) == array_read_value(a, d.char_spec()),
        opens_root_array(root_inline_text(a, d)),
        root_inline_text(a, d).len() > 0,
        !is_ws(root_inline_text(a, d).last()),
        forall|m: int|
            0 <= m < root_inline_text(a, d).len() ==> #[trigger] root_inline_text(a, d)[m] != '\n',
{
    let dc = d.char_spec();
    let n = a.len();
    let dec = decimal_spec(n);
    let sym = d.symbol_spec();
    let body = array_header_body(a, d);
    let iv = inline_values(a, dc);
    let vp = array_read_value(a, dc);
    let t = root_inline_text(a, d);
    lemma_body_chars(a, d);
    lemma_decimal(n);
    assert(header_text(n, d, None) =~= body + seq![':']);
    assert(t =~= body + seq![':'] + iv);
    let bpos = (1 + dec.len() + sym.len()) as int;
    assert forall|m: int| 0 <= m < bpos implies #[trigger] t[m] != ']' by {
        assert(t[m] == body[m]);
    }
    assert(t[bpos] == ']') by {
        assert(t[bpos] == body[bpos]);
    }
    assert(t[bpos + 1] == ':');
    assert(has_bracket_colon(t)) by {
        assert(0 <= bpos && bpos + 1 < t.len() && t[bpos] == ']' && t[bpos + 1] == ':');
    }
    lemma_find_first(t, ']', 0, bpos);
    let content = t.subrange(1, bpos);
    assert(content =~= dec + sym);
    if sym.len() == 0 {
        assert(content.last() == dec.last());
        assert(is_digit(dec[dec.len() - 1]));
    } else {
        assert(content.last() == sym[0]);
    }
    assert(header_delimiter(content) == d);
    let num = if d == Delimiter::Comma {
        content
    } else {
        content.drop_last()
    };
    assert(num =~= dec);
    lemma_parse_length(n);
    let after = t.subrange(bpos + 1, t.len() as int);
    assert(after =~= seq![':'] + iv);
    assert(header_rest(t) == after);
    assert(after.subrange(1, after.len() as int) =~= iv);
    if n > 0 {
        lemma_joined_edges(a, dc);
        lemma_trim_no_edge_ws(vp);
        assert(iv == seq![' '] + vp);
        assert(iv.drop_first() =~= vp);
        assert(trim_start_spec(iv) == trim_start_spec(vp));
        assert(t.last() == vp.last());
    } else {
        assert(iv == Seq::<char>::empty());
        assert(t.last() == ':');
    }
    assert(trim_spec(iv) == vp);
    assert forall|m: int| 0 <= m < t.len() implies #[trigger] t[m] != '\n' by {
        if m < body.len() {
            assert(t[m] == body[m]);
        } else if m > body.len() {
            assert(t[m] == iv[m - body.len() - 1]);
            if m - body.len() - 1 > 0 {
                assert(iv[m - body.len() - 1] == vp[m - body.len() - 2]);
            }
        }
    }
}

/// A root array of scalars of one kind comes back from the trip through text
/// unchanged, under every delimiter and indent width, in either mode.
pub proof fn lemma_root_inline_round_trip(a: Seq<Json>, ind: int, d: Delimiter, strict: bool)
    requires
        ind > 0,
        a.len() <= usize::MAX,
        inline_ok(a),
        forall|j: int| 0 <= j < a.len() ==> round_trips(#[trigger] a[j], d.char_spec()),
    ensures
        decode_spec(encode_spec(Json::Arr(a), ind, d), ind, strict) == Ok::<
            Json,
            crate::error::DecodeFault,
        >(Json::Arr(a)),
{
    let dc = d.char_spec();
    let n = a.len();
    let t = root_inline_text(a, d);
    let vp = array_read_value(a, dc);
    if n > 0 {
        assert(round_trips(a[0], dc));
        assert(!(a[0] is Obj));
    }
    assert(!tabular_ok(a));
    assert(encode_spec(Json::Arr(a), ind, d) == t);
    lemma_root_header(a, d, strict, 1);
    // One line, at depth 0.
    assert(t[0] == '[') by {
        lemma_body_chars(a, d);
        assert(header_text(n, d, None) =~= array_header_body(a, d) + seq![':']);
    }
    lemma_scan_run(t, 0, t.len() as int, Seq::empty(), 0, Seq::empty(), ind, strict);
    assert(Seq::<char>::empty() + t.subrange(0, t.len() as int) =~= t);
    lemma_trim_no_edge_ws(t);
    assert(leading_ws_bytes(t) == 0);
    let lm = LineModel { content: t, depth: 0, line_num: 1 };
    assert(lines_spec(t, ind, strict) == Ok::<Seq<LineModel>, crate::error::DecodeFault>(
        seq![lm],
    ));
    let ls = seq![lm];
    assert(ls[0] == lm);
    if vp.len() > 0 {
        lemma_split_joined(a, d);
        lemma_prims_from(a, d, strict, 1, 0);
        assert(a.subrange(0, 0) =~= Seq::<Json>::empty());
        assert(inline_spec(vp, d, n as int, strict, 1) == Ok::<Json, crate::error::DecodeFault>(
            Json::Arr(a),
        ));
    } else {
        assert(n == 0) by {
            if n > 0 {
                lemma_joined_edges(a, dc);
            }
        }
        assert(a =~= Seq::<Json>::empty());
    }
    assert(root_array_spec(ls, strict) == Ok::<Json, crate::error::DecodeFault>(Json::Arr(a)));
}

/// Writing a root array of scalars, reading it back and writing it again gives
/// the text first written.
pub proof fn lemma_root_inline_reencode(a: Seq<Json>, ind: int, d: Delimiter, strict: bool)
    requires
        ind > 0,
        a.len() <= usize::MAX,
        inline_ok(a),
        forall|j: int| 0 <= j < a.len() ==> round_trips(#[trigger] a[j], d.char_spec()),
    ensures
        match decode_spec(encode_spec(Json::Arr(a), ind, d), ind, strict) {
            Ok(w) => encode_spec(w, ind, d) == encode_spec(Json::Arr(a), ind, d),
            Err(_) => false,
        },
{
    lemma_root_inline_round_trip(a, ind, d, strict);
}

} // verus!
