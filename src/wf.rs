//! Well-formed value trees: every object holds each key once, at every depth.
//! The decoder only ever builds such trees, and the encoder takes only such
//! trees whose doubles are held as decimal literals.

use vstd::prelude::*;
use crate::decoder::{
    decode_lines_spec, decode_spec, field_value, inline_spec, item_entry, item_field, item_fields_loop,
    key_index_from, key_value_spec, lines_spec, list_item_object, list_item_value, list_loop,
    obj_insert, object_loop, primitive_spec, prims_from, row_spec, tabular_loop, try_array, Fields,
    LineModel,
};
use crate::common::Delimiter;
use crate::value::{Json, Number, NumberModel, Value};
use crate::text::{
    chars_of, exp_index, exp_index_of, is_float_literal, is_float_literal_text, is_special_float,
    is_special_float_text, parse_i64, parse_i64_spec, slice_of, strip_sign,
};
use crate::encoder::MAX_EXPANDED_EXPONENT;

verus! {

/// No key occurs twice among the fields.
pub open spec fn distinct_keys(fs: Fields) -> bool {
    forall|i: int, j: int| 0 <= i < j < fs.len() ==> #[trigger] fs[i].0 != #[trigger] fs[j].0
}

/// Every object in the tree holds each of its keys once.
pub open spec fn well_formed(v: Json) -> bool
    decreases v,
{
    match v {
        Json::Arr(a) => forall|i: int| 0 <= i < a.len() ==> well_formed(#[trigger] a[i]),
        Json::Obj(fs) => distinct_keys(fs) && forall|i: int|
            0 <= i < fs.len() ==> well_formed((#[trigger] fs[i]).1),
        _ => true,
    }
}

pub open spec fn wf_items(a: Seq<Json>) -> bool {
    forall|i: int| 0 <= i < a.len() ==> well_formed(#[trigger] a[i])
}

pub open spec fn wf_fields(fs: Fields) -> bool {
    distinct_keys(fs) && forall|i: int| 0 <= i < fs.len() ==> well_formed((#[trigger] fs[i]).1)
}

proof fn lemma_key_index(o: Fields, k: Seq<char>, i: int)
    requires
        0 <= i,
    ensures
        match key_index_from(o, k, i) {
            Some(j) => i <= j < o.len() && o[j].0 == k,
            None => forall|m: int| i <= m < o.len() ==> #[trigger] o[m].0 != k,
        },
    decreases o.len() - i,
{
    if i < o.len() && o[i].0 != k {
        lemma_key_index(o, k, i + 1);
    }
}

/// Setting a field keeps the keys distinct.
pub proof fn lemma_insert_wf(o: Fields, k: Seq<char>, v: Json)
    requires
        wf_fields(o),
        well_formed(v),
    ensures
        wf_fields(obj_insert(o, k, v)),
{
    lemma_key_index(o, k, 0);
    let r = obj_insert(o, k, v);
    match key_index_from(o, k, 0) {
        Some(j) => {
            assert(r == o.update(j, (k, v)));
            assert forall|a: int, b: int| 0 <= a < b < r.len() implies #[trigger] r[a].0
                != #[trigger] r[b].0 by {
                assert(o[a].0 != o[b].0);
            }
            assert forall|a: int| 0 <= a < r.len() implies well_formed((#[trigger] r[a]).1) by {
                if a != j {
                    assert(r[a] == o[a]);
                }
            }
        },
        None => {
            assert(r == o.push((k, v)));
            assert forall|a: int, b: int| 0 <= a < b < r.len() implies #[trigger] r[a].0
                != #[trigger] r[b].0 by {
                if b == o.len() {
                    assert(o[a].0 != k);
                } else {
                    assert(o[a].0 != o[b].0);
                }
            }
            assert forall|a: int| 0 <= a < r.len() implies well_formed((#[trigger] r[a]).1) by {
                if a < o.len() {
                    assert(r[a] == o[a]);
                }
            }
        },
    }
}

proof fn lemma_push_wf(a: Seq<Json>, v: Json)
    requires
        wf_items(a),
        well_formed(v),
    ensures
        wf_items(a.push(v)),
{
    assert forall|i: int| 0 <= i < a.push(v).len() implies well_formed(#[trigger] a.push(v)[i]) by {
        if i < a.len() {
            assert(a.push(v)[i] == a[i]);
        }
    }
}

proof fn lemma_obj_wf(fs: Fields)
    requires
        wf_fields(fs),
    ensures
        well_formed(Json::Obj(fs)),
{
}

proof fn lemma_arr_wf(a: Seq<Json>)
    requires
        wf_items(a),
    ensures
        well_formed(Json::Arr(a)),
{
}

proof fn lemma_empty_wf()
    ensures
        wf_items(Seq::empty()),
        wf_fields(Seq::empty()),
        well_formed(Json::Obj(Seq::empty())),
{
}

/// A scalar token reads as a scalar.
proof fn lemma_primitive_wf(s: Seq<char>, st: bool, ln: int)
    ensures
        match primitive_spec(s, st, ln) {
            Ok(v) => well_formed(v),
            Err(_) => true,
        },
{
}

proof fn lemma_prims_wf(vals: Seq<Seq<char>>, i: int, acc: Seq<Json>, st: bool, ln: int)
    requires
        wf_items(acc),
    ensures
        match prims_from(vals, i, acc, st, ln) {
            Ok(r) => wf_items(r),
            Err(_) => true,
        },
    decreases vals.len() - i,
{
    if 0 <= i < vals.len() {
        lemma_primitive_wf(vals[i], st, ln);
        match primitive_spec(vals[i], st, ln) {
            Ok(v) => {
                lemma_push_wf(acc, v);
                lemma_prims_wf(vals, i + 1, acc.push(v), st, ln);
            },
            Err(_) => {},
        }
    }
}

proof fn lemma_inline_wf(vs: Seq<char>, delim: Delimiter, n: int, st: bool, ln: int)
    ensures
        match inline_spec(vs, delim, n, st, ln) {
            Ok(v) => well_formed(v),
            Err(_) => true,
        },
{
    let vals = crate::decoder::split_spec(vs, delim.char_spec());
    lemma_empty_wf();
    lemma_prims_wf(vals, 0, Seq::empty(), st, ln);
    match prims_from(vals, 0, Seq::empty(), st, ln) {
        Ok(a) => lemma_arr_wf(a),
        Err(_) => {},
    }
}

proof fn lemma_row_wf(
    fields: Seq<Seq<char>>,
    vals: Seq<Seq<char>>,
    st: bool,
    ln: int,
    i: int,
    o: Fields,
)
    requires
        wf_fields(o),
    ensures
        match row_spec(fields, vals, st, ln, i, o) {
            Ok(r) => wf_fields(r),
            Err(_) => true,
        },
    decreases fields.len() - i,
{
    if 0 <= i < fields.len() {
        if i < vals.len() {
            lemma_primitive_wf(vals[i], st, ln);
            match primitive_spec(vals[i], st, ln) {
                Ok(v) => {
                    lemma_insert_wf(o, fields[i], v);
                    lemma_row_wf(fields, vals, st, ln, i + 1, obj_insert(o, fields[i], v));
                },
                Err(_) => {},
            }
        } else {
            lemma_row_wf(fields, vals, st, ln, i + 1, o);
        }
    }
}

proof fn lemma_tabular_wf(
    ls: Seq<LineModel>,
    st: bool,
    p: int,
    rd: int,
    n: int,
    delim: Delimiter,
    fields: Seq<Seq<char>>,
    acc: Seq<Json>,
)
    requires
        wf_items(acc),
    ensures
        match tabular_loop(ls, st, p, rd, n, delim, fields, acc).0 {
            Ok(v) => well_formed(v),
            Err(_) => true,
        },
    decreases ls.len() - p,
{
    if 0 <= p <= ls.len() {
        if p < ls.len() && ls[p].depth == rd {
            let vals = crate::decoder::split_spec(ls[p].content, delim.char_spec());
            lemma_empty_wf();
            lemma_row_wf(fields, vals, st, ls[p].line_num, 0, Seq::empty());
            match row_spec(fields, vals, st, ls[p].line_num, 0, Seq::empty()) {
                Ok(o) => {
                    lemma_obj_wf(o);
                    lemma_push_wf(acc, Json::Obj(o));
                    lemma_tabular_wf(ls, st, p + 1, rd, n, delim, fields, acc.push(Json::Obj(o)));
                },
                Err(_) => {},
            }
        } else {
            lemma_arr_wf(acc);
        }
    }
}

proof fn lemma_object_loop_wf(ls: Seq<LineModel>, st: bool, p: int, d: int, acc: Fields)
    requires
        wf_fields(acc),
    ensures
        match object_loop(ls, st, p, d, acc).0 {
            Ok(v) => well_formed(v),
            Err(_) => true,
        },
    decreases ls.len() - p, 0int,
{
    if 0 <= p <= ls.len() {
        if p == ls.len() || ls[p].depth < d {
            lemma_obj_wf(acc);
        } else if ls[p].depth > d {
            lemma_object_loop_wf(ls, st, p + 1, d, acc);
        } else {
            match key_value_spec(ls[p].content, st, ls[p].line_num) {
                Ok(Some((key, vp))) => {
                    let bare = crate::decoder::key_is_bare(ls[p].content);
                    lemma_field_value_wf(ls, st, p + 1, d, key, vp, ls[p].line_num, bare);
                    let (r, next) = field_value(ls, st, p + 1, d, key, vp, ls[p].line_num, bare);
                    match r {
                        Ok((k, v)) => {
                            if p < next <= ls.len() {
                                lemma_insert_wf(acc, k, v);
                                lemma_object_loop_wf(ls, st, next, d, obj_insert(acc, k, v));
                            }
                        },
                        Err(_) => {},
                    }
                },
                _ => {},
            }
        }
    }
}

proof fn lemma_field_value_wf(
    ls: Seq<LineModel>,
    st: bool,
    p: int,
    d: int,
    key: Seq<char>,
    vp: Seq<char>,
    ln: int,
    bare: bool,
)
    ensures
        match field_value(ls, st, p, d, key, vp, ln, bare).0 {
            Ok((_, v)) => well_formed(v),
            Err(_) => true,
        },
    decreases ls.len() - p, 2int,
{
    if 0 <= p <= ls.len() {
        if bare && crate::decoder::bracket_scan(key, 0, false).is_some() {
            let b = crate::decoder::bracket_scan(key, 0, false).unwrap();
            let header = key.subrange(b, key.len() as int);
            let full = if vp.len() == 0 {
                header
            } else {
                header + seq![':'] + vp
            };
            lemma_try_array_wf(ls, st, p, d, full, ln);
        } else if vp.len() == 0 {
            if p < ls.len() && ls[p].depth > d {
                lemma_empty_wf();
                lemma_object_loop_wf(ls, st, p, d + 1, Seq::empty());
            } else {
                lemma_empty_wf();
            }
        } else {
            lemma_primitive_wf(vp, st, ln);
        }
    }
}

proof fn lemma_try_array_wf(ls: Seq<LineModel>, st: bool, p: int, pd: int, h: Seq<char>, ln: int)
    ensures
        match try_array(ls, st, p, pd, h, ln).0 {
            Ok(Some(v)) => well_formed(v),
            _ => true,
        },
    decreases ls.len() - p, 1int,
{
    if 0 <= p <= ls.len() && h.len() > 0 && h[0] == '[' {
        match crate::decoder::header_spec(h, st, ln) {
            Ok((n, delim, fields)) => {
                let after = crate::decoder::after_colon(h);
                if after.len() > 0 {
                    lemma_inline_wf(after, delim, n, st, ln);
                } else {
                    lemma_empty_wf();
                    if fields.len() > 0 {
                        lemma_tabular_wf(ls, st, p, pd + 1, n, delim, fields, Seq::empty());
                    } else {
                        lemma_list_loop_wf(ls, st, p, pd + 1, n, Seq::empty());
                    }
                }
            },
            Err(_) => {},
        }
    }
}

proof fn lemma_list_loop_wf(ls: Seq<LineModel>, st: bool, p: int, idp: int, n: int, acc: Seq<Json>)
    requires
        wf_items(acc),
    ensures
        match list_loop(ls, st, p, idp, n, acc).0 {
            Ok(v) => well_formed(v),
            Err(_) => true,
        },
    decreases ls.len() - p, 0int,
{
    if 0 <= p <= ls.len() {
        if p < ls.len() && ls[p].depth == idp && crate::decoder::is_hyphen_line(ls[p].content) {
            let item = ls[p].content.subrange(2, ls[p].content.len() as int);
            lemma_list_item_wf(ls, st, p + 1, idp, item, ls[p].line_num);
            let (r, next) = list_item_value(ls, st, p + 1, idp, item, ls[p].line_num);
            match r {
                Ok(v) => {
                    if p < next <= ls.len() {
                        lemma_push_wf(acc, v);
                        lemma_list_loop_wf(ls, st, next, idp, n, acc.push(v));
                    }
                },
                Err(_) => {},
            }
        } else {
            lemma_arr_wf(acc);
        }
    }
}

proof fn lemma_list_item_wf(ls: Seq<LineModel>, st: bool, p: int, idp: int, item: Seq<char>, ln: int)
    ensures
        match list_item_value(ls, st, p, idp, item, ln).0 {
            Ok(v) => well_formed(v),
            Err(_) => true,
        },
    decreases ls.len() - p, 5int,
{
    if 0 <= p <= ls.len() {
        if item.len() > 0 && item[0] == '[' {
            match crate::decoder::header_spec(item, st, ln) {
                Ok((n, delim, _)) => {
                    lemma_inline_wf(crate::decoder::after_colon(item), delim, n, st, ln);
                    lemma_empty_wf();
                },
                Err(_) => {},
            }
        } else {
            match key_value_spec(item, st, ln) {
                Ok(None) => {
                    lemma_primitive_wf(item, st, ln);
                },
                Ok(Some((k, v))) => {
                    let bare = crate::decoder::key_is_bare(item);
                    lemma_list_item_object_wf(ls, st, p, k, v, idp, ln, bare);
                    match list_item_object(ls, st, p, k, v, idp, ln, bare).0 {
                        Ok(o) => lemma_obj_wf(o),
                        Err(_) => {},
                    }
                },
                Err(_) => {},
            }
        }
    }
}

proof fn lemma_item_field_wf(ls: Seq<LineModel>, st: bool, p: int, idp: int, v: Seq<char>, ln: int)
    ensures
        match item_field(ls, st, p, idp, v, ln).0 {
            Ok(x) => well_formed(x),
            Err(_) => true,
        },
    decreases ls.len() - p, 2int,
{
    if 0 <= p <= ls.len() {
        lemma_empty_wf();
        if v.len() == 0 {
            if p < ls.len() && ls[p].depth > idp {
                lemma_object_loop_wf(ls, st, p, idp + 1, Seq::empty());
            }
        } else {
            lemma_try_array_wf(ls, st, p, idp, v, ln);
            lemma_primitive_wf(v, st, ln);
        }
    }
}

proof fn lemma_item_entry_wf(
    ls: Seq<LineModel>,
    st: bool,
    p: int,
    idp: int,
    key: Seq<char>,
    v: Seq<char>,
    ln: int,
    bare: bool,
)
    ensures
        match item_entry(ls, st, p, idp, key, v, ln, bare).0 {
            Ok((_, x)) => well_formed(x),
            Err(_) => true,
        },
    decreases ls.len() - p, 3int,
{
    if 0 <= p <= ls.len() {
        if bare && crate::decoder::bracket_scan(key, 0, false).is_some() {
            let b = crate::decoder::bracket_scan(key, 0, false).unwrap();
            let header = key.subrange(b, key.len() as int);
            let full = if v.len() == 0 {
                header
            } else {
                header + seq![':'] + v
            };
            lemma_try_array_wf(ls, st, p, idp, full, ln);
        } else {
            lemma_item_field_wf(ls, st, p, idp, v, ln);
        }
    }
}

proof fn lemma_list_item_object_wf(
    ls: Seq<LineModel>,
    st: bool,
    p: int,
    k: Seq<char>,
    v: Seq<char>,
    idp: int,
    ln: int,
    bare: bool,
)
    ensures
        match list_item_object(ls, st, p, k, v, idp, ln, bare).0 {
            Ok(o) => wf_fields(o),
            Err(_) => true,
        },
    decreases ls.len() - p, 4int,
{
    if 0 <= p <= ls.len() {
        lemma_item_entry_wf(ls, st, p, idp, k, v, ln, bare);
        let (r, next) = item_entry(ls, st, p, idp, k, v, ln, bare);
        match r {
            Ok((k2, val)) => {
                if p <= next <= ls.len() {
                    lemma_empty_wf();
                    lemma_insert_wf(Seq::empty(), k2, val);
                    lemma_item_fields_wf(ls, st, next, idp, obj_insert(Seq::empty(), k2, val));
                }
            },
            Err(_) => {},
        }
    }
}

proof fn lemma_item_fields_wf(ls: Seq<LineModel>, st: bool, p: int, idp: int, o: Fields)
    requires
        wf_fields(o),
    ensures
        match item_fields_loop(ls, st, p, idp, o).0 {
            Ok(r) => wf_fields(r),
            Err(_) => true,
        },
    decreases ls.len() - p, 0int,
{
    if 0 <= p <= ls.len() && p < ls.len() && ls[p].depth == idp
        && !crate::decoder::is_hyphen_line(ls[p].content) {
        match key_value_spec(ls[p].content, st, ls[p].line_num) {
            Ok(Some((k, v))) => {
                let bare = crate::decoder::key_is_bare(ls[p].content);
                lemma_item_entry_wf(ls, st, p + 1, idp, k, v, ls[p].line_num, bare);
                let (r, next) = item_entry(ls, st, p + 1, idp, k, v, ls[p].line_num, bare);
                match r {
                    Ok((k2, val)) => {
                        if p < next <= ls.len() {
                            lemma_insert_wf(o, k2, val);
                            lemma_item_fields_wf(ls, st, next, idp, obj_insert(o, k2, val));
                        }
                    },
                    Err(_) => {},
                }
            },
            _ => {},
        }
    }
}

/// Whatever the decoder reads from a sequence of lines is well formed.
pub proof fn lemma_decode_lines_wf(ls: Seq<LineModel>, st: bool)
    ensures
        match decode_lines_spec(ls, st) {
            Ok(v) => well_formed(v),
            Err(_) => true,
        },
{
    lemma_empty_wf();
    if ls.len() > 0 {
        match crate::decoder::header_spec(ls[0].content, st, ls[0].line_num) {
            Ok((n, delim, fields)) => {
                lemma_inline_wf(
                    crate::decoder::after_colon(ls[0].content),
                    delim,
                    n,
                    st,
                    ls[0].line_num,
                );
                lemma_tabular_wf(ls, st, 1, 1, n, delim, fields, Seq::empty());
                lemma_list_loop_wf(ls, st, 1, 1, n, Seq::empty());
            },
            Err(_) => {},
        }
        lemma_primitive_wf(ls[0].content, st, ls[0].line_num);
        lemma_object_loop_wf(ls, st, 0, 0, Seq::empty());
    }
}

/// Whatever the decoder reads from a text is well formed: no object in it
/// holds a key twice.
pub proof fn lemma_decode_wf(input: Seq<char>, indent: int, strict: bool)
    ensures
        match decode_spec(input, indent, strict) {
            Ok(v) => well_formed(v),
            Err(_) => true,
        },
{
    match lines_spec(input, indent, strict) {
        Ok(ls) => lemma_decode_lines_wf(ls, strict),
        Err(_) => {},
    }
}

/// The text of a double as the library holds it: a decimal literal, neither
/// `inf` nor `nan`, whose exponent, when it has one, is an integer within the
/// range that the encoder writes out in full.
pub open spec fn float_text_ok(t: Seq<char>) -> bool {
    is_float_literal(t) && !is_special_float(strip_sign(t)) && (exp_index(t) == t.len() || match
        parse_i64_spec(t.subrange(exp_index(t) + 1, t.len() as int)) {
        Some(x) => -MAX_EXPANDED_EXPONENT <= x <= MAX_EXPANDED_EXPONENT,
        None => false,
    })
}

/// A value tree that the encoder takes: each object holds each key once, and
/// each double's text is well formed, at every depth.
pub open spec fn encodable(v: Json) -> bool
    decreases v,
{
    match v {
        Json::Num(NumberModel::Float(t)) => float_text_ok(t),
        Json::Arr(a) => forall|i: int| 0 <= i < a.len() ==> encodable(#[trigger] a[i]),
        Json::Obj(fs) => distinct_keys(fs) && forall|i: int|
            0 <= i < fs.len() ==> encodable((#[trigger] fs[i]).1),
        _ => true,
    }
}

fn float_text_ok_text(t: &Vec<char>) -> (r: bool)
    ensures
        r == float_text_ok(t@),
{
    if !is_float_literal_text(t) || is_special_float_text(t) {
        return false;
    }
    let e = exp_index_of(t);
    if e == t.len() {
        return true;
    }
    match parse_i64(&slice_of(t, e + 1, t.len())) {
        Some(x) => -MAX_EXPANDED_EXPONENT <= x && x <= MAX_EXPANDED_EXPONENT,
        None => false,
    }
}

/// Whether the encoder takes a value tree.
pub fn is_encodable(v: &Value) -> (r: bool)
    ensures
        r == encodable(v@),
    decreases crate::encoder::height(v@),
{
    match v {
        Value::Number(Number::Float(t)) => {
            let c = chars_of(t.as_str());
            float_text_ok_text(&c)
        },
        Value::Array(a) => {
            proof {
                crate::decoder::lemma_array_view(*a);
            }
            let ghost items = crate::decoder::values_view(a@);
            let mut i: usize = 0;
            while i < a.len()
                invariant
                    i <= a@.len(),
                    v@ == Json::Arr(items),
                    items == crate::decoder::values_view(a@),
                    forall|j: int| 0 <= j < i ==> encodable(#[trigger] items[j]),
                decreases a@.len() - i,
            {
                assert(a@[i as int]@ == items[i as int]);
                proof {
                    crate::encoder::lemma_elem_lower(Json::Arr(items), i as int);
                }
                if !is_encodable(&a[i]) {
                    assert(!encodable(items[i as int]));
                    assert(!encodable(Json::Arr(items)));
                    return false;
                }
                i += 1;
            }
            true
        },
        Value::Object(o) => {
            proof {
                crate::decoder::lemma_object_view(*o);
            }
            let ghost fs = crate::decoder::fields_view(o@);
            let mut i: usize = 0;
            while i < o.len()
                invariant
                    i <= o@.len(),
                    v@ == Json::Obj(fs),
                    fs == crate::decoder::fields_view(o@),
                    forall|a: int, b: int| 0 <= a < b < i ==> #[trigger] fs[a].0 != #[trigger] fs[b].0,
                    forall|j: int| 0 <= j < i ==> encodable((#[trigger] fs[j]).1),
                decreases o@.len() - i,
            {
                let mut j: usize = 0;
                while j < i
                    invariant
                        j <= i < o@.len(),
                        v@ == Json::Obj(fs),
                        fs == crate::decoder::fields_view(o@),
                        forall|a: int| 0 <= a < j ==> #[trigger] fs[a].0 != fs[i as int].0,
                    decreases i - j,
                {
                    if o[j].0 == o[i].0 {
                        assert(fs[j as int].0 == fs[i as int].0);
                        assert(!distinct_keys(fs));
                        return false;
                    }
                    j += 1;
                }
                assert(o@[i as int].1@ == fs[i as int].1);
                proof {
                    crate::encoder::lemma_field_lower(Json::Obj(fs), i as int);
                }
                if !is_encodable(&o[i].1) {
                    assert(!encodable(fs[i as int].1));
                    return false;
                }
                i += 1;
            }
            true
        },
        _ => true,
    }
}

} // verus!
