//! Executable reader for the permissive text form, verified against the
//! parsing model in [`crate::parse`].

use vstd::prelude::*;
use crate::chars::{is_ws, is_digit, chars_of, string_of};
use crate::num::{digits_val, lemma_digits_val_nonneg};
use crate::parse::{skip_ws, bare_end, key_end, scan_digits, trim_right, exp_ok, frac_exp_ok,
    is_int_token, is_num_token, num_start, int_token_mag, classify, unescape, parse_qstr,
    parse_key, parse_value, parse_items, parse_more_items, parse_entries, parse_more_entries,
    parse_text, clamp_idx, lemma_scan_digits, lemma_skip_ws, lemma_items_ws,
    lemma_more_items_ws, lemma_entries_ws, lemma_more_entries_ws};
use crate::text::{null_text, true_text, false_text};
use crate::value::{ValV, Value, views_of, table_view, lemma_views_of, lemma_table_view,
    value_view};

verus! {

/// One more than the largest unsigned 64-bit value: the saturation cap of
/// the magnitude accumulator.
pub const MAG_CAP: u128 = 0x1_0000_0000_0000_0000;

/// A magnitude, saturated at `MAG_CAP`.
pub open spec fn sat_mag(v: int) -> int {
    if v >= MAG_CAP as int {
        MAG_CAP as int
    } else {
        v
    }
}

/// Executable `skip_ws`.
pub fn skip_ws_x(s: &Vec<char>, i: usize) -> (r: usize)
    requires
        i <= s@.len(),
    ensures
        r as int == skip_ws(s@, i as int),
        i <= r <= s@.len(),
{
    let mut k = i;
    while k < s.len()
        invariant
            i <= k <= s@.len(),
            skip_ws(s@, i as int) == skip_ws(s@, k as int),
        decreases s@.len() - k,
    {
        let c = s[k];
        if !(c == ' ' || c == '\t' || c == '\n' || c == '\r') {
            return k;
        }
        k = k + 1;
    }
    k
}

/// Executable `bare_end`.
pub fn bare_end_x(s: &Vec<char>, i: usize, nested: bool) -> (r: usize)
    requires
        i <= s@.len(),
    ensures
        r as int == bare_end(s@, i as int, nested),
        i <= r <= s@.len(),
{
    let mut k = i;
    while k < s.len()
        invariant
            i <= k <= s@.len(),
            bare_end(s@, i as int, nested) == bare_end(s@, k as int, nested),
        decreases s@.len() - k,
    {
        let c = s[k];
        if c == '\n' || (nested && (c == ',' || c == ']' || c == '}')) {
            return k;
        }
        k = k + 1;
    }
    k
}

/// Executable `key_end`.
pub fn key_end_x(s: &Vec<char>, i: usize) -> (r: usize)
    requires
        i <= s@.len(),
    ensures
        r as int == key_end(s@, i as int),
        i <= r <= s@.len(),
{
    let mut k = i;
    while k < s.len()
        invariant
            i <= k <= s@.len(),
            key_end(s@, i as int) == key_end(s@, k as int),
        decreases s@.len() - k,
    {
        let c = s[k];
        if c == ':' || c == ' ' || c == '\t' || c == '\n' || c == '\r' || c == '"' || c == '{'
            || c == '}' || c == '[' || c == ']' || c == ',' {
            return k;
        }
        k = k + 1;
    }
    k
}

/// Executable `scan_digits`.
pub fn scan_digits_x(s: &Vec<char>, i: usize) -> (r: usize)
    requires
        i <= s@.len(),
    ensures
        r as int == scan_digits(s@, i as int),
        i <= r <= s@.len(),
{
    let mut k = i;
    while k < s.len()
        invariant
            i <= k <= s@.len(),
            scan_digits(s@, i as int) == scan_digits(s@, k as int),
        decreases s@.len() - k,
    {
        let c = s[k];
        if !('0' <= c && c <= '9') {
            return k;
        }
        k = k + 1;
    }
    k
}

/// Executable `trim_right` on a range: the trimmed end.
pub fn trim_end_x(s: &Vec<char>, start: usize, end: usize) -> (te: usize)
    requires
        start <= end <= s@.len(),
    ensures
        start <= te <= end,
        s@.subrange(start as int, te as int) == trim_right(
            s@.subrange(start as int, end as int),
        ),
{
    let mut e = end;
    while e > start
        invariant
            start <= e <= end <= s@.len(),
            trim_right(s@.subrange(start as int, end as int)) == trim_right(
                s@.subrange(start as int, e as int),
            ),
        decreases e,
    {
        let c = s[e - 1];
        proof {
            let t = s@.subrange(start as int, e as int);
            assert(t.last() == s@[e - 1]);
            assert(t.drop_last() =~= s@.subrange(start as int, e as int - 1));
        }
        if !(c == ' ' || c == '\t' || c == '\n' || c == '\r') {
            return e;
        }
        e = e - 1;
    }
    proof {
        assert(s@.subrange(start as int, start as int) =~= Seq::<char>::empty());
    }
    e
}

/// The characters of a range, copied out.
pub fn copy_range(s: &Vec<char>, start: usize, end: usize) -> (t: Vec<char>)
    requires
        start <= end <= s@.len(),
    ensures
        t@ == s@.subrange(start as int, end as int),
{
    let mut t: Vec<char> = Vec::new();
    let mut k = start;
    while k < end
        invariant
            start <= k <= end <= s@.len(),
            t@ =~= s@.subrange(start as int, k as int),
        decreases end - k,
    {
        t.push(s[k]);
        k = k + 1;
        proof {
            assert(s@.subrange(start as int, k as int) =~= s@.subrange(
                start as int,
                k - 1,
            ).push(s@[k - 1]));
        }
    }
    proof {
        assert(t@ =~= s@.subrange(start as int, end as int));
    }
    t
}

/// Executable `exp_ok`.
pub fn exp_ok_x(t: &Vec<char>, k: usize) -> (r: bool)
    requires
        k <= t@.len(),
    ensures
        r == exp_ok(t@, k as int),
{
    let n = t.len();
    if k == n {
        true
    } else if t[k] == 'e' || t[k] == 'E' {
        let p: usize = if k + 1 < n && (t[k + 1] == '+' || t[k + 1] == '-') {
            k + 2
        } else {
            k + 1
        };
        let d = scan_digits_x(t, p);
        d == n && n > p
    } else {
        false
    }
}

/// Executable `frac_exp_ok`.
pub fn frac_exp_x(t: &Vec<char>, k: usize) -> (r: bool)
    requires
        k <= t@.len(),
    ensures
        r == frac_exp_ok(t@, k as int),
{
    let n = t.len();
    if k == n {
        true
    } else if t[k] == '.' {
        let d = scan_digits_x(t, k + 1);
        if d > k + 1 {
            exp_ok_x(t, d)
        } else {
            false
        }
    } else {
        exp_ok_x(t, k)
    }
}

/// The magnitude of the digit run `t[p..]`, saturated at `MAG_CAP`.
pub fn digit_run_mag(t: &Vec<char>, p: usize) -> (r: u128)
    requires
        p <= t@.len(),
        forall|q: int| p <= q < t@.len() ==> is_digit(#[trigger] t@[q]),
    ensures
        r as int == sat_mag(digits_val(t@.subrange(p as int, t@.len() as int))),
{
    let n = t.len();
    let mut acc: u128 = 0;
    let mut k = p;
    proof {
        assert(t@.subrange(p as int, p as int) =~= Seq::<char>::empty());
    }
    while k < n
        invariant
            p <= k <= n,
            n == t@.len(),
            forall|q: int| p <= q < t@.len() ==> is_digit(#[trigger] t@[q]),
            acc as int == sat_mag(digits_val(t@.subrange(p as int, k as int))),
            acc <= MAG_CAP,
        decreases n - k,
    {
        let ghost pre = t@.subrange(p as int, k as int);
        let ghost dv = digits_val(pre);
        proof {
            assert(forall|q: int| 0 <= q < pre.len() ==> is_digit(#[trigger] pre[q]));
            lemma_digits_val_nonneg(pre);
        }
        let c = t[k];
        let d: u32 = (c as u32) - 48;
        let next: u128 = acc * 10 + (d as u128);
        acc = if next >= MAG_CAP {
            MAG_CAP
        } else {
            next
        };
        k = k + 1;
        proof {
            let cur = t@.subrange(p as int, k as int);
            assert(cur.drop_last() =~= pre);
            assert(cur.last() == t@[k - 1]);
            assert(digits_val(cur) == dv * 10 + (t@[k - 1] as int - 48));
            assert(is_digit(t@[k - 1]));
            assert(0 <= t@[k - 1] as int - 48 <= 9);
            if dv >= MAG_CAP as int {
                let d2 = t@[k - 1] as int - 48;
                assert(dv * 10 + d2 >= dv) by (nonlinear_arith)
                    requires
                        dv >= 0,
                        d2 >= 0,
                ;
                assert(digits_val(cur) >= MAG_CAP as int);
            }
        }
    }
    proof {
        assert(t@.subrange(p as int, t@.len() as int) == t@.subrange(p as int, k as int));
    }
    acc
}

/// Executable classification of a nonempty unquoted token.
pub fn classify_x(tok: &Vec<char>) -> (r: Value)
    requires
        tok@.len() > 0,
    ensures
        r@ == classify(tok@),
{
    let n = tok.len();
    if n == 4 && tok[0] == 'n' && tok[1] == 'u' && tok[2] == 'l' && tok[3] == 'l' {
        proof {
            assert(tok@ =~= null_text());
        }
        return Value::Null;
    }
    if n == 4 && tok[0] == 't' && tok[1] == 'r' && tok[2] == 'u' && tok[3] == 'e' {
        proof {
            assert(tok@ =~= true_text());
        }
        return Value::Bool(true);
    }
    if n == 5 && tok[0] == 'f' && tok[1] == 'a' && tok[2] == 'l' && tok[3] == 's' && tok[4]
        == 'e' {
        proof {
            assert(tok@ =~= false_text());
        }
        return Value::Bool(false);
    }
    proof {
        assert(tok@ != null_text()) by {
            if tok@ == null_text() {
                assert(tok@.len() == 4);
                assert(tok@[0] == 'n' && tok@[1] == 'u' && tok@[2] == 'l' && tok@[3] == 'l');
            }
        }
        assert(tok@ != true_text()) by {
            if tok@ == true_text() {
                assert(tok@.len() == 4);
                assert(tok@[0] == 't' && tok@[1] == 'r' && tok@[2] == 'u' && tok@[3] == 'e');
            }
        }
        assert(tok@ != false_text()) by {
            if tok@ == false_text() {
                assert(tok@.len() == 5);
                assert(tok@[0] == 'f' && tok@[1] == 'a' && tok@[2] == 'l' && tok@[3] == 's'
                    && tok@[4] == 'e');
            }
        }
    }
    let p: usize = if tok[0] == '-' {
        1
    } else {
        0
    };
    proof {
        assert(p as int == num_start(tok@));
    }
    let d1 = scan_digits_x(tok, p);
    if d1 == n && n > p {
        proof {
            assert(is_int_token(tok@));
            lemma_scan_digits(tok@, p as int);
        }
        let mag = digit_run_mag(tok, p);
        proof {
            assert(tok@.subrange(p as int, tok@.len() as int) == tok@.subrange(
                num_start(tok@),
                tok@.len() as int,
            ));
            lemma_digits_val_nonneg(tok@.subrange(p as int, tok@.len() as int));
        }
        let ghost m = int_token_mag(tok@);
        if tok[0] == '-' {
            if mag <= 0x8000_0000_0000_0000u128 {
                proof {
                    assert(m <= 0x8000_0000_0000_0000);
                    assert(mag as int == m);
                }
                let r: i64 = if mag == 0x8000_0000_0000_0000u128 {
                    i64::MIN
                } else {
                    -((mag as u64) as i64)
                };
                proof {
                    assert(r as int == -m);
                }
                return Value::Int(r);
            } else {
                proof {
                    assert(m > 0x8000_0000_0000_0000);
                }
                return Value::Float(string_of(tok));
            }
        } else {
            if mag <= 0x7fff_ffff_ffff_ffffu128 {
                proof {
                    assert(m <= 0x7fff_ffff_ffff_ffff);
                    assert(mag as int == m);
                }
                return Value::Int((mag as u64) as i64);
            } else {
                proof {
                    assert(m > 0x7fff_ffff_ffff_ffff);
                }
                return Value::Float(string_of(tok));
            }
        }
    }
    proof {
        assert(!is_int_token(tok@));
    }
    let isnum = if d1 > p {
        frac_exp_x(tok, d1)
    } else {
        false
    };
    proof {
        assert(isnum == is_num_token(tok@));
    }
    if isnum {
        Value::Float(string_of(tok))
    } else {
        Value::Str(string_of(tok))
    }
}

/// Executable `parse_qstr`: the body of a quoted string.
pub fn parse_qstr_x(s: &Vec<char>, i: usize) -> (r: Option<(String, usize)>)
    requires
        i <= s@.len(),
    ensures
        match r {
            None => parse_qstr(s@, i as int) is None,
            Some((b, j)) => parse_qstr(s@, i as int) == Some((b@, j as int)) && i < j
                <= s@.len(),
        },
{
    let mut out: Vec<char> = Vec::new();
    let mut cur = i;
    loop
        invariant
            i <= cur <= s@.len(),
            parse_qstr(s@, i as int) == (match parse_qstr(s@, cur as int) {
                None => None::<(Seq<char>, int)>,
                Some((rest, j)) => Some((out@ + rest, j)),
            }),
        decreases s@.len() - cur,
    {
        if cur >= s.len() {
            return None;
        }
        let c = s[cur];
        if c == '"' {
            proof {
                assert(out@ + Seq::<char>::empty() =~= out@);
            }
            return Some((string_of(&out), cur + 1));
        }
        if c == '\\' {
            if cur + 1 >= s.len() {
                return None;
            }
            let e = s[cur + 1];
            let u: char;
            if e == '"' {
                u = '"';
            } else if e == '\\' {
                u = '\\';
            } else if e == '/' {
                u = '/';
            } else if e == 'n' {
                u = '\n';
            } else if e == 't' {
                u = '\t';
            } else if e == 'r' {
                u = '\r';
            } else if e == 'b' {
                u = '\u{8}';
            } else if e == 'f' {
                u = '\u{c}';
            } else {
                return None;
            }
            let ghost old_out = out@;
            out.push(u);
            cur = cur + 2;
            proof {
                assert(unescape(s@[cur - 1]) == Some(u));
                assert forall|rest: Seq<char>| true implies old_out + (seq![u] + rest) =~= out@
                    + rest by {}
            }
        } else {
            let ghost old_out = out@;
            out.push(c);
            cur = cur + 1;
            proof {
                assert forall|rest: Seq<char>| true implies old_out + (seq![c] + rest) =~= out@
                    + rest by {}
            }
        }
    }
}

/// Executable `parse_key`: a quoted or bare table key.
pub fn parse_key_x(s: &Vec<char>, i: usize) -> (r: Option<(String, usize)>)
    requires
        i <= s@.len(),
    ensures
        match r {
            None => parse_key(s@, i as int) is None,
            Some((b, j)) => parse_key(s@, i as int) == Some((b@, j as int)) && i < j
                <= s@.len(),
        },
{
    if i >= s.len() {
        return None;
    }
    if s[i] == '"' {
        return parse_qstr_x(s, i + 1);
    }
    let e = key_end_x(s, i);
    if e == i {
        return None;
    }
    let t = copy_range(s, i, e);
    Some((string_of(&t), e))
}

/// Executable `parse_value`.
pub fn parse_value_x(s: &Vec<char>, i: usize, nested: bool) -> (r: Option<(Value, usize)>)
    requires
        i <= s@.len(),
    ensures
        match r {
            None => parse_value(s@, i as int, nested) is None,
            Some((v, j)) => parse_value(s@, i as int, nested) == Some((v@, j as int)) && i < j
                <= s@.len(),
        },
    decreases s@.len() - i, 0int,
{
    if i >= s.len() {
        return None;
    }
    let c = s[i];
    if c == '{' {
        match parse_entries_x(s, i + 1) {
            None => None,
            Some((es, j)) => Some((Value::Table(es), j)),
        }
    } else if c == '[' {
        match parse_items_x(s, i + 1) {
            None => None,
            Some((vs, j)) => Some((Value::Array(vs), j)),
        }
    } else if c == '"' {
        match parse_qstr_x(s, i + 1) {
            None => None,
            Some((b, j)) => Some((Value::Str(b), j)),
        }
    } else if c == ' ' || c == '\t' || c == '\n' || c == '\r' {
        None
    } else {
        let e = bare_end_x(s, i, nested);
        let te = trim_end_x(s, i, e);
        if te == i {
            proof {
                assert(s@.subrange(i as int, i as int) =~= Seq::<char>::empty());
            }
            None
        } else {
            let tok = copy_range(s, i, te);
            let v = classify_x(&tok);
            Some((v, e))
        }
    }
}

/// Executable `parse_items`.
pub fn parse_items_x(s: &Vec<char>, i: usize) -> (r: Option<(Vec<Value>, usize)>)
    requires
        i <= s@.len(),
    ensures
        match r {
            None => parse_items(s@, i as int) is None,
            Some((vs, j)) => parse_items(s@, i as int) == Some((views_of(vs@), j as int)) && i
                < j <= s@.len(),
        },
    decreases s@.len() - i, 1int,
{
    let cur = skip_ws_x(s, i);
    proof {
        lemma_items_ws(s@, i as int);
        lemma_skip_ws(s@, i as int);
    }
    if cur >= s.len() {
        return None;
    }
    if s[cur] == ']' {
        let vs: Vec<Value> = Vec::new();
        proof {
            assert(views_of(vs@) =~= Seq::<ValV>::empty());
        }
        return Some((vs, cur + 1));
    }
    match parse_value_x(s, cur, true) {
        None => None,
        Some((v, j)) => {
            proof {
                assert(clamp_idx(s@, cur as int + 1, j as int) == j as int);
            }
            match parse_more_items_x(s, j) {
                None => None,
                Some((mut rest, k)) => {
                    let ghost rest0 = rest@;
                    let ghost vv = value_view(v);
                    let mut vs: Vec<Value> = Vec::new();
                    vs.push(v);
                    vs.append(&mut rest);
                    proof {
                        lemma_views_of(vs@);
                        lemma_views_of(rest0);
                        assert forall|q: int| 0 <= q < views_of(vs@).len() implies views_of(
                            vs@,
                        )[q] == (seq![vv] + views_of(rest0))[q] by {
                            if q > 0 {
                                assert(vs@[q] == rest0[q - 1]);
                            }
                        }
                        assert(views_of(vs@) =~= seq![vv] + views_of(rest0));
                    }
                    Some((vs, k))
                },
            }
        },
    }
}

/// Executable `parse_more_items`.
pub fn parse_more_items_x(s: &Vec<char>, i: usize) -> (r: Option<(Vec<Value>, usize)>)
    requires
        i <= s@.len(),
    ensures
        match r {
            None => parse_more_items(s@, i as int) is None,
            Some((vs, j)) => parse_more_items(s@, i as int) == Some((views_of(vs@), j as int))
                && i < j <= s@.len(),
        },
    decreases s@.len() - i, 2int,
{
    let cur = skip_ws_x(s, i);
    proof {
        lemma_more_items_ws(s@, i as int);
        lemma_skip_ws(s@, i as int);
    }
    if cur >= s.len() {
        return None;
    }
    if s[cur] == ']' {
        let vs: Vec<Value> = Vec::new();
        proof {
            assert(views_of(vs@) =~= Seq::<ValV>::empty());
        }
        return Some((vs, cur + 1));
    }
    if s[cur] == ',' {
        return parse_items_x(s, cur + 1);
    }
    None
}

/// Executable `parse_entries`.
pub fn parse_entries_x(s: &Vec<char>, i: usize) -> (r: Option<(Vec<(String, Value)>, usize)>)
    requires
        i <= s@.len(),
    ensures
        match r {
            None => parse_entries(s@, i as int) is None,
            Some((es, j)) => parse_entries(s@, i as int) == Some((table_view(es@), j as int))
                && i < j <= s@.len(),
        },
    decreases s@.len() - i, 1int,
{
    let cur = skip_ws_x(s, i);
    proof {
        lemma_entries_ws(s@, i as int);
        lemma_skip_ws(s@, i as int);
    }
    if cur >= s.len() {
        return None;
    }
    if s[cur] == '}' {
        let es: Vec<(String, Value)> = Vec::new();
        proof {
            assert(table_view(es@) =~= Seq::<(Seq<char>, ValV)>::empty());
        }
        return Some((es, cur + 1));
    }
    match parse_key_x(s, cur) {
        None => None,
        Some((key, j)) => {
            proof {
                assert(clamp_idx(s@, cur as int + 1, j as int) == j as int);
            }
            let k = skip_ws_x(s, j);
            if k < s.len() && s[k] == ':' {
                let m = skip_ws_x(s, k + 1);
                proof {
                    assert(clamp_idx(s@, cur as int + 1, m as int) == m as int);
                }
                match parse_value_x(s, m, true) {
                    None => None,
                    Some((v, e)) => {
                        proof {
                            assert(clamp_idx(s@, cur as int + 1, e as int) == e as int);
                        }
                        match parse_more_entries_x(s, e) {
                            None => None,
                            Some((mut rest, z)) => {
                                let ghost rest0 = rest@;
                                let ghost keyv = key@;
                                let ghost vv = value_view(v);
                                let mut es: Vec<(String, Value)> = Vec::new();
                                es.push((key, v));
                                es.append(&mut rest);
                                proof {
                                    lemma_table_view(es@);
                                    lemma_table_view(rest0);
                                    assert forall|q: int|
                                        0 <= q < table_view(es@).len() implies table_view(
                                        es@,
                                    )[q] == (seq![(keyv, vv)] + table_view(rest0))[q] by {
                                        if q > 0 {
                                            assert(es@[q] == rest0[q - 1]);
                                        }
                                    }
                                    assert(table_view(es@) =~= seq![(keyv, vv)] + table_view(
                                        rest0,
                                    ));
                                }
                                Some((es, z))
                            },
                        }
                    },
                }
            } else {
                None
            }
        },
    }
}

/// Executable `parse_more_entries`.
pub fn parse_more_entries_x(s: &Vec<char>, i: usize) -> (r: Option<
    (Vec<(String, Value)>, usize),
>)
    requires
        i <= s@.len(),
    ensures
        match r {
            None => parse_more_entries(s@, i as int) is None,
            Some((es, j)) => parse_more_entries(s@, i as int) == Some(
                (table_view(es@), j as int),
            ) && i < j <= s@.len(),
        },
    decreases s@.len() - i, 2int,
{
    let cur = skip_ws_x(s, i);
    proof {
        lemma_more_entries_ws(s@, i as int);
        lemma_skip_ws(s@, i as int);
    }
    if cur >= s.len() {
        return None;
    }
    if s[cur] == '}' {
        let es: Vec<(String, Value)> = Vec::new();
        proof {
            assert(table_view(es@) =~= Seq::<(Seq<char>, ValV)>::empty());
        }
        return Some((es, cur + 1));
    }
    if s[cur] == ',' {
        return parse_entries_x(s, cur + 1);
    }
    None
}

/// Deserializes one raw payload: the value the permissive text form
/// denotes, or `None` when the payload is not well formed.
pub fn parse_payload(payload: &str) -> (r: Option<Value>)
    ensures
        match r {
            None => parse_text(payload@) is None,
            Some(v) => parse_text(payload@) == Some(v@),
        },
{
    let s = chars_of(payload);
    let i = skip_ws_x(&s, 0);
    match parse_value_x(&s, i, false) {
        None => None,
        Some((v, j)) => {
            let k = skip_ws_x(&s, j);
            if k == s.len() {
                Some(v)
            } else {
                None
            }
        },
    }
}

} // verus!
