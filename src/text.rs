//! Character-level primitives: whitespace, trimming, slicing, searching and
//! the grammar of decimal numbers.

use vstd::prelude::*;

verus! {

/// Unicode `White_Space`, the set that `char::is_whitespace` and `str::trim` use.
pub open spec fn is_ws(c: char) -> bool {
    let u = c as u32;
    (0x09 <= u && u <= 0x0D) || u == 0x20 || u == 0x85 || u == 0xA0 || u == 0x1680 || (0x2000
        <= u && u <= 0x200A) || u == 0x2028 || u == 0x2029 || u == 0x202F || u == 0x205F || u
        == 0x3000
}

pub fn is_ws_char(c: char) -> (r: bool)
    ensures
        r == is_ws(c),
{
    let u = c as u32;
    (0x09 <= u && u <= 0x0D) || u == 0x20 || u == 0x85 || u == 0xA0 || u == 0x1680 || (0x2000
        <= u && u <= 0x200A) || u == 0x2028 || u == 0x2029 || u == 0x202F || u == 0x205F || u
        == 0x3000
}

pub open spec fn trim_start_spec(s: Seq<char>) -> Seq<char>
    decreases s.len(),
{
    if s.len() > 0 && is_ws(s[0]) {
        trim_start_spec(s.drop_first())
    } else {
        s
    }
}

pub open spec fn trim_end_spec(s: Seq<char>) -> Seq<char>
    decreases s.len(),
{
    if s.len() > 0 && is_ws(s.last()) {
        trim_end_spec(s.drop_last())
    } else {
        s
    }
}

/// The text with leading and trailing whitespace removed.
pub open spec fn trim_spec(s: Seq<char>) -> Seq<char> {
    trim_end_spec(trim_start_spec(s))
}

/// Bytes that one character takes in UTF-8.
pub open spec fn utf8_len(c: char) -> nat {
    let u = c as u32;
    if u < 0x80 {
        1
    } else if u < 0x800 {
        2
    } else if u < 0x10000 {
        3
    } else {
        4
    }
}

/// Bytes of leading whitespace, in UTF-8.
pub open spec fn leading_ws_bytes(s: Seq<char>) -> nat
    decreases s.len(),
{
    if s.len() > 0 && is_ws(s[0]) {
        utf8_len(s[0]) + leading_ws_bytes(s.drop_first())
    } else {
        0
    }
}

pub fn slice_of(s: &Vec<char>, a: usize, b: usize) -> (r: Vec<char>)
    requires
        a <= b <= s@.len(),
    ensures
        r@ == s@.subrange(a as int, b as int),
{
    let mut r: Vec<char> = Vec::new();
    let mut i: usize = a;
    while i < b
        invariant
            a <= i <= b <= s@.len(),
            r@ == s@.subrange(a as int, i as int),
        decreases b - i,
    {
        r.push(s[i]);
        proof {
            assert(s@.subrange(a as int, i + 1) =~= s@.subrange(a as int, i as int).push(s@[i as int]));
        }
        i += 1;
    }
    r
}

pub fn append_chars(out: &mut Vec<char>, s: &Vec<char>)
    ensures
        final(out)@ == old(out)@ + s@,
{
    let mut i: usize = 0;
    while i < s.len()
        invariant
            i <= s@.len(),
            out@ == old(out)@ + s@.subrange(0, i as int),
        decreases s@.len() - i,
    {
        out.push(s[i]);
        proof {
            assert(s@.subrange(0, i + 1) =~= s@.subrange(0, i as int).push(s@[i as int]));
        }
        i += 1;
    }
    proof {
        assert(s@.subrange(0, s@.len() as int) =~= s@);
    }
}

/// Removes leading and trailing whitespace.
pub fn trim(s: &Vec<char>) -> (r: Vec<char>)
    ensures
        r@ == trim_spec(s@),
{
    let len = s.len();
    let mut a: usize = 0;
    assert(s@.subrange(0, len as int) =~= s@);
    while a < len && is_ws_char(s[a])
        invariant
            a <= len == s@.len(),
            trim_start_spec(s@) == trim_start_spec(s@.subrange(a as int, len as int)),
        decreases len - a,
    {
        proof {
            assert(s@.subrange(a as int, len as int).drop_first() =~= s@.subrange(
                a + 1,
                len as int,
            ));
        }
        a += 1;
    }
    let ghost t = s@.subrange(a as int, len as int);
    assert(trim_start_spec(t) == t);
    let mut b: usize = len;
    while b > a && is_ws_char(s[b - 1])
        invariant
            a <= b <= len == s@.len(),
            t == s@.subrange(a as int, len as int),
            trim_end_spec(t) == trim_end_spec(s@.subrange(a as int, b as int)),
        decreases b,
    {
        proof {
            assert(s@.subrange(a as int, b as int).drop_last() =~= s@.subrange(a as int, b - 1));
        }
        b -= 1;
    }
    slice_of(s, a, b)
}

/// Bytes of leading whitespace, in UTF-8.
pub fn leading_ws_byte_count(s: &Vec<char>) -> (r: usize)
    requires
        4 * s@.len() <= usize::MAX,
    ensures
        r == leading_ws_bytes(s@),
        r <= 4 * s@.len(),
{
    let len = s.len();
    let mut n: usize = 0;
    let mut k: usize = 0;
    while k < len && is_ws_char(s[k])
        invariant
            k <= len == s@.len(),
            forall|j: int| 0 <= j < k ==> is_ws(#[trigger] s@[j]),
        decreases len - k,
    {
        k += 1;
    }
    let mut i: usize = k;
    proof {
        assert(leading_ws_bytes(s@.subrange(k as int, len as int)) == 0);
    }
    while i > 0
        invariant
            i <= k <= len == s@.len(),
            4 * len <= usize::MAX,
            forall|j: int| 0 <= j < k ==> is_ws(#[trigger] s@[j]),
            n == leading_ws_bytes(s@.subrange(i as int, len as int)),
            n <= 4 * (k - i),
        decreases i,
    {
        let c = s[i - 1];
        let u = c as u32;
        let w: usize = if u < 0x80 {
            1
        } else if u < 0x800 {
            2
        } else if u < 0x10000 {
            3
        } else {
            4
        };
        proof {
            assert(s@.subrange(i - 1, len as int).drop_first() =~= s@.subrange(i as int, len as int));
        }
        n = n + w;
        i -= 1;
    }
    proof {
        assert(s@.subrange(0, len as int) =~= s@);
    }
    n
}

pub open spec fn starts_with_spec(s: Seq<char>, p: Seq<char>) -> bool {
    p.len() <= s.len() && s.subrange(0, p.len() as int) == p
}

/// Index of the first occurrence of `c` at or after `i`.
pub open spec fn find_from(s: Seq<char>, c: char, i: int) -> Option<int>
    decreases s.len() - i,
{
    if i < 0 || i >= s.len() {
        None
    } else if s[i] == c {
        Some(i)
    } else {
        find_from(s, c, i + 1)
    }
}

/// Index of the first occurrence of `c`, if any.
pub open spec fn find_spec(s: Seq<char>, c: char) -> Option<int> {
    find_from(s, c, 0)
}

pub open spec fn contains_spec(s: Seq<char>, c: char) -> bool {
    find_spec(s, c).is_some()
}

pub fn find_char(s: &Vec<char>, c: char) -> (r: Option<usize>)
    ensures
        match r {
            Some(i) => find_spec(s@, c) == Some(i as int) && i < s@.len() && s@[i as int] == c,
            None => find_spec(s@, c).is_none(),
        },
{
    let mut i: usize = 0;
    while i < s.len()
        invariant
            i <= s@.len(),
            find_spec(s@, c) == find_from(s@, c, i as int),
        decreases s@.len() - i,
    {
        if s[i] == c {
            return Some(i);
        }
        i += 1;
    }
    None
}

pub fn contains_char(s: &Vec<char>, c: char) -> (r: bool)
    ensures
        r == contains_spec(s@, c),
{
    find_char(s, c).is_some()
}

pub open spec fn is_digit(c: char) -> bool {
    '0' <= c && c <= '9'
}

pub open spec fn all_digits(s: Seq<char>) -> bool {
    forall|i: int| 0 <= i < s.len() ==> is_digit(#[trigger] s[i])
}

pub open spec fn digit_value(c: char) -> int {
    (c as u32) - ('0' as u32)
}

/// The number that a run of decimal digits writes.
pub open spec fn digits_value(s: Seq<char>) -> int
    decreases s.len(),
{
    if s.len() == 0 {
        0
    } else {
        10 * digits_value(s.drop_last()) + digit_value(s.last())
    }
}

/// What `i64`'s `FromStr` accepts: an optional sign, then at least one digit,
/// with the value in range.
pub open spec fn parse_i64_spec(s: Seq<char>) -> Option<int> {
    let signed = s.len() > 0 && (s[0] == '+' || s[0] == '-');
    let neg = s.len() > 0 && s[0] == '-';
    let d = if signed {
        s.drop_first()
    } else {
        s
    };
    let v = if neg {
        -digits_value(d)
    } else {
        digits_value(d)
    };
    if d.len() > 0 && all_digits(d) && i64::MIN <= v <= i64::MAX {
        Some(v)
    } else {
        None
    }
}

pub proof fn lemma_digits_value_nonneg(s: Seq<char>)
    requires
        all_digits(s),
    ensures
        digits_value(s) >= 0,
    decreases s.len(),
{
    if s.len() > 0 {
        lemma_digits_value_nonneg(s.drop_last());
    }
}

/// A longer run of digits never writes a smaller number.
pub proof fn lemma_digits_value_prefix(s: Seq<char>, k: int)
    requires
        all_digits(s),
        0 <= k <= s.len(),
    ensures
        digits_value(s.subrange(0, k)) <= digits_value(s),
    decreases s.len(),
{
    if k < s.len() {
        assert(s.drop_last() =~= s.subrange(0, s.len() - 1));
        assert(s.subrange(0, k) =~= s.drop_last().subrange(0, k));
        lemma_digits_value_prefix(s.drop_last(), k);
        lemma_digits_value_nonneg(s.drop_last());
    } else {
        assert(s.subrange(0, k) =~= s);
    }
}

/// Reads a decimal `i64` the way `str::parse::<i64>` does.
pub fn parse_i64(s: &Vec<char>) -> (r: Option<i64>)
    ensures
        match r {
            Some(v) => parse_i64_spec(s@) == Some(v as int),
            None => parse_i64_spec(s@).is_none(),
        },
{
    let len = s.len();
    let signed = len > 0 && (s[0] == '+' || s[0] == '-');
    let neg = len > 0 && s[0] == '-';
    let start: usize = if signed {
        1
    } else {
        0
    };
    let ghost d = if signed {
        s@.drop_first()
    } else {
        s@
    };
    assert(d =~= s@.subrange(start as int, len as int));
    assert(signed == (s@.len() > 0 && (s@[0] == '+' || s@[0] == '-')));
    assert(neg == (s@.len() > 0 && s@[0] == '-'));
    if start >= len {
        return None;
    }
    let mut acc: u64 = 0;
    let mut i: usize = start;
    while i < len
        invariant
            start <= i <= len == s@.len(),
            d == s@.subrange(start as int, len as int),
            d == (if s@.len() > 0 && (s@[0] == '+' || s@[0] == '-') {
                s@.drop_first()
            } else {
                s@
            }),
            forall|j: int| start <= j < i ==> is_digit(#[trigger] s@[j]),
            acc as int == digits_value(s@.subrange(start as int, i as int)),
            acc <= 9223372036854775808u64,
        decreases len - i,
    {
        let c = s[i];
        if !('0' <= c && c <= '9') {
            proof {
                assert(d[i - start] == c);
                assert(!is_digit(d[i - start]));
                assert(!all_digits(d));
                assert(parse_i64_spec(s@).is_none());
            }
            return None;
        }
        let dv = (c as u32 - '0' as u32) as u64;
        proof {
            assert(s@.subrange(start as int, i + 1).drop_last() =~= s@.subrange(start as int, i as int));
        }
        if acc > (9223372036854775808u64 - dv) / 10 {
            proof {
                assert(acc * 10 + dv > 9223372036854775808u64) by (nonlinear_arith)
                    requires
                        acc > (9223372036854775808u64 - dv) / 10,
                        dv <= 9,
                ;
                assert(s@.subrange(start as int, i + 1) =~= d.subrange(0, i + 1 - start));
                assert(digits_value(s@.subrange(start as int, i + 1)) == acc * 10 + dv);
                if all_digits(d) {
                    lemma_digits_value_prefix(d, i + 1 - start);
                    assert(digits_value(d) > 9223372036854775808u64);
                }
                assert(parse_i64_spec(s@).is_none());
            }
            return None;
        }
        acc = acc * 10 + dv;
        i += 1;
    }
    proof {
        assert(all_digits(d)) by {
            assert forall|j: int| 0 <= j < d.len() implies is_digit(#[trigger] d[j]) by {
                assert(d[j] == s@[j + start]);
            }
        }
        assert(d.len() > 0);
        assert(acc == digits_value(d));
    }
    if neg {
        if acc == 9223372036854775808u64 {
            Some(i64::MIN)
        } else {
            Some(-(acc as i64))
        }
    } else {
        if acc > 9223372036854775807u64 {
            None
        } else {
            Some(acc as i64)
        }
    }
}

/// `t` spells the word whose lower-case letters are `lo` and upper-case letters `up`,
/// each letter in either case.
pub open spec fn eq_either_case(t: Seq<char>, lo: Seq<char>, up: Seq<char>) -> bool {
    t.len() == lo.len() && forall|i: int|
        0 <= i < t.len() ==> (#[trigger] t[i] == lo[i] || t[i] == up[i])
}

pub open spec fn strip_sign(s: Seq<char>) -> Seq<char> {
    if s.len() > 0 && (s[0] == '+' || s[0] == '-') {
        s.drop_first()
    } else {
        s
    }
}

/// `inf`, `infinity` or `nan`, in any case.
pub open spec fn is_special_float(t: Seq<char>) -> bool {
    eq_either_case(t, seq!['i', 'n', 'f'], seq!['I', 'N', 'F']) || eq_either_case(
        t,
        seq!['i', 'n', 'f', 'i', 'n', 'i', 't', 'y'],
        seq!['I', 'N', 'F', 'I', 'N', 'I', 'T', 'Y'],
    ) || eq_either_case(t, seq!['n', 'a', 'n'], seq!['N', 'A', 'N'])
}

pub open spec fn is_exp_mark(c: char) -> bool {
    c == 'e' || c == 'E'
}

/// Index of the first exponent mark, or the length when there is none.
pub open spec fn exp_index(t: Seq<char>) -> int
    decreases t.len(),
{
    if t.len() == 0 {
        0
    } else if is_exp_mark(t[0]) {
        0
    } else {
        1 + exp_index(t.drop_first())
    }
}

/// `Digit+`, `Digit+ '.' Digit*` or `Digit* '.' Digit+`.
pub open spec fn is_mantissa(m: Seq<char>) -> bool {
    (m.len() > 0 && all_digits(m)) || exists|p: int|
        0 <= p < m.len() && m[p] == '.' && m.len() >= 2 && all_digits(#[trigger] m.subrange(0, p))
            && all_digits(m.subrange(p + 1, m.len() as int))
}

/// `Sign? Digit+`.
pub open spec fn is_exponent(x: Seq<char>) -> bool {
    strip_sign(x).len() > 0 && all_digits(strip_sign(x))
}

pub open spec fn is_decimal_literal(t: Seq<char>) -> bool {
    let e = exp_index(t);
    is_mantissa(t.subrange(0, e)) && (e == t.len() || is_exponent(t.subrange(e + 1, t.len() as int)))
}

/// The texts that `f64`'s `FromStr` accepts, as its documentation gives the grammar.
pub open spec fn is_float_literal(s: Seq<char>) -> bool {
    is_special_float(strip_sign(s)) || is_decimal_literal(strip_sign(s))
}

proof fn lemma_exp_index(t: Seq<char>)
    ensures
        0 <= exp_index(t) <= t.len(),
        exp_index(t) < t.len() ==> is_exp_mark(t[exp_index(t)]),
        forall|j: int| 0 <= j < exp_index(t) ==> !is_exp_mark(#[trigger] t[j]),
    decreases t.len(),
{
    if t.len() > 0 && !is_exp_mark(t[0]) {
        lemma_exp_index(t.drop_first());
        assert forall|j: int| 0 <= j < exp_index(t) implies !is_exp_mark(#[trigger] t[j]) by {
            if j > 0 {
                assert(t[j] == t.drop_first()[j - 1]);
            }
        }
    }
}

fn is_digit_char(c: char) -> (r: bool)
    ensures
        r == is_digit(c),
{
    '0' <= c && c <= '9'
}

fn all_digits_in(s: &Vec<char>, a: usize, b: usize) -> (r: bool)
    requires
        a <= b <= s@.len(),
    ensures
        r == all_digits(s@.subrange(a as int, b as int)),
{
    let mut i: usize = a;
    while i < b
        invariant
            a <= i <= b <= s@.len(),
            forall|j: int| a <= j < i ==> is_digit(#[trigger] s@[j]),
        decreases b - i,
    {
        if !is_digit_char(s[i]) {
            assert(s@.subrange(a as int, b as int)[i - a] == s@[i as int]);
            return false;
        }
        i += 1;
    }
    assert forall|j: int| 0 <= j < b - a implies is_digit(#[trigger] s@.subrange(a as int, b as int)[j]) by {
        assert(s@.subrange(a as int, b as int)[j] == s@[a + j]);
    }
    true
}

fn matches_word(s: &Vec<char>, a: usize, lo: &Vec<char>, up: &Vec<char>) -> (r: bool)
    requires
        a <= s@.len(),
        lo@.len() == up@.len(),
    ensures
        r == eq_either_case(s@.subrange(a as int, s@.len() as int), lo@, up@),
{
    let ghost t = s@.subrange(a as int, s@.len() as int);
    let len = s.len();
    if len - a != lo.len() {
        return false;
    }
    let n = lo.len();
    let mut i: usize = 0;
    while i < n
        invariant
            t == s@.subrange(a as int, s@.len() as int),
            len == s@.len(),
            n == lo@.len(),
            n == up@.len(),
            a + n == len,
            i <= n,
            forall|j: int| 0 <= j < i ==> (#[trigger] t[j] == lo@[j] || t[j] == up@[j]),
        decreases n - i,
    {
        let c = s[a + i];
        assert(t[i as int] == c);
        if c != lo[i] && c != up[i] {
            return false;
        }
        i += 1;
    }
    true
}

fn is_mantissa_in(s: &Vec<char>, start: usize, e: usize) -> (r: bool)
    requires
        start <= e <= s@.len(),
    ensures
        r == is_mantissa(s@.subrange(start as int, e as int)),
{
    let len = s.len();
    let ghost m = s@.subrange(start as int, e as int);
    let mut p: usize = start;
    while p < e && s[p] != '.'
        invariant
            start <= p <= e <= len == s@.len(),
            forall|j: int| start <= j < p ==> s@[j] != '.',
        decreases e - p,
    {
        p += 1;
    }
    if p == e {
        let r = e > start && all_digits_in(s, start, e);
        proof {
            if !r && is_mantissa(m) {
                let q = choose|q: int|
                    0 <= q < m.len() && m[q] == '.' && m.len() >= 2 && all_digits(
                        #[trigger] m.subrange(0, q),
                    ) && all_digits(m.subrange(q + 1, m.len() as int));
                assert(m[q] == s@[start + q]);
            }
        }
        r
    } else {
        let r = e - start >= 2 && all_digits_in(s, start, p) && all_digits_in(s, p + 1, e);
        proof {
            let q0 = p - start;
            assert(m[q0] == '.');
            assert(m.subrange(0, q0) =~= s@.subrange(start as int, p as int));
            assert(m.subrange(q0 + 1, m.len() as int) =~= s@.subrange(p + 1, e as int));
            if r {
                assert(all_digits(m.subrange(0, q0)));
            } else {
                assert(!(m.len() > 0 && all_digits(m))) by {
                    assert(!is_digit(m[q0]));
                }
                if is_mantissa(m) {
                    let q = choose|q: int|
                        0 <= q < m.len() && m[q] == '.' && m.len() >= 2 && all_digits(
                            #[trigger] m.subrange(0, q),
                        ) && all_digits(m.subrange(q + 1, m.len() as int));
                    if q < q0 {
                        assert(m[q] == s@[start + q]);
                    } else if q > q0 {
                        assert(m.subrange(0, q)[q0] == '.');
                    }
                }
            }
        }
        r
    }
}

/// Whether `str::parse::<f64>` accepts the text.
pub fn is_float_literal_text(s: &Vec<char>) -> (r: bool)
    ensures
        r == is_float_literal(s@),
{
    let len = s.len();
    let start: usize = if len > 0 && (s[0] == '+' || s[0] == '-') {
        1
    } else {
        0
    };
    let ghost t = strip_sign(s@);
    assert(t =~= s@.subrange(start as int, len as int));
    let lo_inf = vec!['i', 'n', 'f'];
    let up_inf = vec!['I', 'N', 'F'];
    let lo_infinity = vec!['i', 'n', 'f', 'i', 'n', 'i', 't', 'y'];
    let up_infinity = vec!['I', 'N', 'F', 'I', 'N', 'I', 'T', 'Y'];
    let lo_nan = vec!['n', 'a', 'n'];
    let up_nan = vec!['N', 'A', 'N'];
    assert(lo_inf@ =~= seq!['i', 'n', 'f']);
    assert(up_inf@ =~= seq!['I', 'N', 'F']);
    assert(lo_infinity@ =~= seq!['i', 'n', 'f', 'i', 'n', 'i', 't', 'y']);
    assert(up_infinity@ =~= seq!['I', 'N', 'F', 'I', 'N', 'I', 'T', 'Y']);
    assert(lo_nan@ =~= seq!['n', 'a', 'n']);
    assert(up_nan@ =~= seq!['N', 'A', 'N']);
    let special = matches_word(s, start, &lo_inf, &up_inf) || matches_word(
        s,
        start,
        &lo_infinity,
        &up_infinity,
    ) || matches_word(s, start, &lo_nan, &up_nan);
    if special {
        assert(is_special_float(t));
        return true;
    }
    let mut e: usize = start;
    while e < len && !(s[e] == 'e' || s[e] == 'E')
        invariant
            start <= e <= len == s@.len(),
            forall|j: int| start <= j < e ==> !is_exp_mark(#[trigger] s@[j]),
        decreases len - e,
    {
        e += 1;
    }
    proof {
        lemma_exp_index(t);
        let x = exp_index(t);
        if x < e - start {
            assert(t[x] == s@[start + x]);
        }
        if x > e - start {
            assert(t[e - start] == s@[e as int]);
            assert(!is_exp_mark(t[e - start]));
        }
        assert(x == e - start);
        assert(t.subrange(0, x) =~= s@.subrange(start as int, e as int));
        if e < len {
            assert(t.subrange(x + 1, t.len() as int) =~= s@.subrange(e + 1, len as int));
        }
    }
    let mant_ok = is_mantissa_in(s, start, e);
    if !mant_ok {
        return false;
    }
    if e == len {
        return true;
    }
    let xs: usize = if e + 1 < len && (s[e + 1] == '+' || s[e + 1] == '-') {
        e + 2
    } else {
        e + 1
    };
    proof {
        let x = s@.subrange(e + 1, len as int);
        assert(strip_sign(x) =~= s@.subrange(xs as int, len as int));
    }
    xs < len && all_digits_in(s, xs, len)
}

/// Whether the text, past an optional sign, is `inf`, `infinity` or `nan` in any case.
pub fn is_special_float_text(s: &Vec<char>) -> (r: bool)
    ensures
        r == is_special_float(strip_sign(s@)),
{
    let len = s.len();
    let start: usize = if len > 0 && (s[0] == '+' || s[0] == '-') {
        1
    } else {
        0
    };
    assert(strip_sign(s@) =~= s@.subrange(start as int, len as int));
    let lo_inf = vec!['i', 'n', 'f'];
    let up_inf = vec!['I', 'N', 'F'];
    let lo_infinity = vec!['i', 'n', 'f', 'i', 'n', 'i', 't', 'y'];
    let up_infinity = vec!['I', 'N', 'F', 'I', 'N', 'I', 'T', 'Y'];
    let lo_nan = vec!['n', 'a', 'n'];
    let up_nan = vec!['N', 'A', 'N'];
    assert(lo_inf@ =~= seq!['i', 'n', 'f']);
    assert(up_inf@ =~= seq!['I', 'N', 'F']);
    assert(lo_infinity@ =~= seq!['i', 'n', 'f', 'i', 'n', 'i', 't', 'y']);
    assert(up_infinity@ =~= seq!['I', 'N', 'F', 'I', 'N', 'I', 'T', 'Y']);
    assert(lo_nan@ =~= seq!['n', 'a', 'n']);
    assert(up_nan@ =~= seq!['N', 'A', 'N']);
    matches_word(s, start, &lo_inf, &up_inf) || matches_word(s, start, &lo_infinity, &up_infinity)
        || matches_word(s, start, &lo_nan, &up_nan)
}

/// Index of the first exponent mark, or the length.
pub fn exp_index_of(s: &Vec<char>) -> (r: usize)
    ensures
        r == exp_index(s@),
        r <= s@.len(),
{
    let len = s.len();
    let mut i: usize = 0;
    assert(s@.subrange(0, len as int) =~= s@);
    while i < len && !(s[i] == 'e' || s[i] == 'E')
        invariant
            i <= len == s@.len(),
            exp_index(s@) == i + exp_index(s@.subrange(i as int, len as int)),
        decreases len - i,
    {
        assert(s@.subrange(i as int, len as int).drop_first() =~= s@.subrange(i + 1, len as int));
        i += 1;
    }
    i
}

pub open spec fn digit_char(d: int) -> char {
    seq!['0', '1', '2', '3', '4', '5', '6', '7', '8', '9'][d]
}

/// The decimal digits of `n`, without leading zeros.
pub open spec fn decimal_spec(n: nat) -> Seq<char>
    decreases n,
{
    if n < 10 {
        seq![digit_char(n as int)]
    } else {
        decimal_spec(n / 10).push(digit_char((n % 10) as int))
    }
}

/// Text of an integer as `Display` writes it.
pub open spec fn int_text(i: int) -> Seq<char> {
    if i < 0 {
        seq!['-'] + decimal_spec((-i) as nat)
    } else {
        decimal_spec(i as nat)
    }
}

fn digit_of(d: u64) -> (c: char)
    requires
        d < 10,
    ensures
        c == digit_char(d as int),
{
    let c = match d {
        0 => '0',
        1 => '1',
        2 => '2',
        3 => '3',
        4 => '4',
        5 => '5',
        6 => '6',
        7 => '7',
        8 => '8',
        _ => '9',
    };
    c
}

/// Appends the decimal digits of `n`.
pub fn push_decimal(out: &mut Vec<char>, n: u64)
    ensures
        final(out)@ == old(out)@ + decimal_spec(n as nat),
    decreases n,
{
    if n >= 10 {
        push_decimal(out, n / 10);
    }
    out.push(digit_of(n % 10));
    proof {
        if n < 10 {
            assert(old(out)@ + decimal_spec(n as nat) =~= old(out)@.push(digit_char(n as int)));
        }
    }
}

/// Appends the text of a signed integer.
pub fn push_i64(out: &mut Vec<char>, i: i64)
    ensures
        final(out)@ == old(out)@ + int_text(i as int),
{
    if i < 0 {
        out.push('-');
        let m: u64 = if i == i64::MIN {
            9223372036854775808u64
        } else {
            (-i) as u64
        };
        push_decimal(out, m);
        proof {
            assert(old(out)@ + int_text(i as int) =~= old(out)@.push('-') + decimal_spec(m as nat));
        }
    } else {
        push_decimal(out, i as u64);
    }
}

/// Whether two texts are equal.
pub fn eq_chars(a: &Vec<char>, b: &Vec<char>) -> (r: bool)
    ensures
        r == (a@ == b@),
{
    if a.len() != b.len() {
        return false;
    }
    let mut i: usize = 0;
    while i < a.len()
        invariant
            i <= a@.len() == b@.len(),
            forall|j: int| 0 <= j < i ==> a@[j] == b@[j],
        decreases a@.len() - i,
    {
        if a[i] != b[i] {
            return false;
        }
        i += 1;
    }
    assert(a@ =~= b@);
    true
}

/// Relies on `FromIterator<char>` for `String`: the string holds exactly the given characters.
#[verifier::external_body]
pub fn string_from_chars(v: &Vec<char>) -> (r: String)
    ensures
        r@ == v@,
{
    v.iter().collect()
}

/// Relies on `str::chars`, collected into a vector: the characters of the string
/// in order. A vector never spans more than `isize::MAX` bytes.
#[verifier::external_body]
pub fn chars_of(s: &str) -> (r: Vec<char>)
    ensures
        r@ == s@,
        4 * r@.len() <= isize::MAX,
{
    s.chars().collect()
}

} // verus!
