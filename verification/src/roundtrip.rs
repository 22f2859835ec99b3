//! Serializing a structured value to the intermediate text form and reading
//! it back yields the same value.

use vstd::prelude::*;
use crate::chars::{is_ws, is_digit};
use crate::num::{digits_val, int_text, nat_text, lemma_nat_text, lemma_digits_val_nonneg};
use crate::parse::{skip_ws, bare_end, scan_digits, trim_right, is_term, is_int_token,
    is_num_token, num_start, int_token_mag, classify, unescape, parse_qstr, parse_key,
    parse_value, parse_items, parse_more_items, parse_entries, parse_more_entries, parse_text,
    clamp_idx, frac_exp_ok, exp_ok, lemma_scan_digits};
use crate::text::{null_text, true_text, false_text, esc_char, escape, quoted, text_of,
    items_text, entries_text, entry_text};
use crate::value::ValV;

verus! {

/// Well-formedness of a structured value: integers fit a signed 64-bit
/// machine word, and a `Float`'s text is one that the reader itself would
/// classify as that same `Float`.
pub open spec fn wf_val(v: ValV) -> bool
    decreases v, 0int,
{
    match v {
        ValV::Null => true,
        ValV::Bool(b) => true,
        ValV::Int(n) => i64::MIN <= n <= i64::MAX,
        ValV::Float(t) => classify(t) == ValV::Float(t),
        ValV::Str(s) => true,
        ValV::Array(elems) => wf_items(elems),
        ValV::Table(entries) => wf_entries(entries),
    }
}

/// Well-formedness of every element.
pub open spec fn wf_items(elems: Seq<ValV>) -> bool
    decreases elems, 1int,
{
    if elems.len() == 0 {
        true
    } else {
        wf_items(elems.drop_last()) && wf_val(elems.last())
    }
}

/// Well-formedness of every entry's value.
pub open spec fn wf_entries(entries: Seq<(Seq<char>, ValV)>) -> bool
    decreases entries, 1int,
{
    if entries.len() == 0 {
        true
    } else {
        wf_entries(entries.drop_last()) && wf_val(entries.last().1)
    }
}

/// Element-wise reading of `wf_items`.
pub proof fn lemma_wf_items(elems: Seq<ValV>)
    requires
        wf_items(elems),
    ensures
        forall|i: int| 0 <= i < elems.len() ==> wf_val(#[trigger] elems[i]),
    decreases elems.len(),
{
    if elems.len() != 0 {
        lemma_wf_items(elems.drop_last());
        assert forall|i: int| 0 <= i < elems.len() implies wf_val(#[trigger] elems[i]) by {
            if i < elems.len() - 1 {
                assert(elems.drop_last()[i] == elems[i]);
            } else {
                assert(elems.last() == elems[i]);
            }
        }
    }
}

/// Element-wise reading of `wf_entries`.
pub proof fn lemma_wf_entries(entries: Seq<(Seq<char>, ValV)>)
    requires
        wf_entries(entries),
    ensures
        forall|i: int| 0 <= i < entries.len() ==> wf_val((#[trigger] entries[i]).1),
    decreases entries.len(),
{
    if entries.len() != 0 {
        lemma_wf_entries(entries.drop_last());
        assert forall|i: int| 0 <= i < entries.len() implies wf_val(
            (#[trigger] entries[i]).1,
        ) by {
            if i < entries.len() - 1 {
                assert(entries.drop_last()[i] == entries[i]);
            } else {
                assert(entries.last() == entries[i]);
            }
        }
    }
}

/// Element-wise well-formedness implies `wf_items`.
pub proof fn lemma_wf_items_intro(elems: Seq<ValV>)
    requires
        forall|i: int| 0 <= i < elems.len() ==> wf_val(#[trigger] elems[i]),
    ensures
        wf_items(elems),
    decreases elems.len(),
{
    if elems.len() != 0 {
        assert forall|i: int| 0 <= i < elems.drop_last().len() implies wf_val(
            #[trigger] elems.drop_last()[i],
        ) by {
            assert(elems.drop_last()[i] == elems[i]);
        }
        lemma_wf_items_intro(elems.drop_last());
        assert(elems.last() == elems[elems.len() - 1]);
    }
}

/// Element-wise well-formedness implies `wf_entries`.
pub proof fn lemma_wf_entries_intro(entries: Seq<(Seq<char>, ValV)>)
    requires
        forall|i: int| 0 <= i < entries.len() ==> wf_val((#[trigger] entries[i]).1),
    ensures
        wf_entries(entries),
    decreases entries.len(),
{
    if entries.len() != 0 {
        assert forall|i: int| 0 <= i < entries.drop_last().len() implies wf_val(
            (#[trigger] entries.drop_last()[i]).1,
        ) by {
            assert(entries.drop_last()[i] == entries[i]);
        }
        lemma_wf_entries_intro(entries.drop_last());
        assert(entries.last() == entries[entries.len() - 1]);
    }
}

/// A sub-piece of a matched region matches the corresponding sub-piece.
pub proof fn lemma_sub_match(s: Seq<char>, i: int, t: Seq<char>, a: int, b: int)
    requires
        0 <= i,
        i + t.len() <= s.len(),
        s.subrange(i, i + t.len()) == t,
        0 <= a <= b <= t.len(),
    ensures
        s.subrange(i + a, i + b) == t.subrange(a, b),
{
    assert(s.subrange(i + a, i + b) =~= t.subrange(a, b)) by {
        assert forall|k: int| 0 <= k < b - a implies s.subrange(i + a, i + b)[k]
            == t.subrange(a, b)[k] by {
            assert(s.subrange(i, i + t.len())[a + k] == s[i + a + k]);
        }
    }
}

/// Characters of a matched region, read off one at a time.
pub proof fn lemma_match_index(s: Seq<char>, i: int, t: Seq<char>)
    requires
        0 <= i,
        i + t.len() <= s.len(),
        s.subrange(i, i + t.len()) == t,
    ensures
        forall|k: int| 0 <= k < t.len() ==> s[i + k] == #[trigger] t[k],
{
    assert forall|k: int| 0 <= k < t.len() implies s[i + k] == #[trigger] t[k] by {
        assert(s.subrange(i, i + t.len())[k] == s[i + k]);
    }
}

/// `scan_digits` is pinned by a digit run with a non-digit (or the end)
/// after it.
pub proof fn lemma_scan_digits_pin(s: Seq<char>, i: int, j: int)
    requires
        0 <= i <= j <= s.len(),
        forall|k: int| i <= k < j ==> is_digit(#[trigger] s[k]),
        j == s.len() || !is_digit(s[j]),
    ensures
        scan_digits(s, i) == j,
    decreases j - i,
{
    if i < j {
        lemma_scan_digits_pin(s, i + 1, j);
    }
}

/// `skip_ws` does not move on a non-whitespace character.
pub proof fn lemma_skip_ws_stay(s: Seq<char>, i: int)
    requires
        0 <= i <= s.len(),
        i == s.len() || !is_ws(s[i]),
    ensures
        skip_ws(s, i) == i,
{
}

/// `bare_end` is pinned by a terminator-free run with a terminator (or the
/// end) after it.
pub proof fn lemma_bare_end_pin(s: Seq<char>, i: int, j: int, nested: bool)
    requires
        0 <= i <= j <= s.len(),
        forall|k: int| i <= k < j ==> !is_term(#[trigger] s[k], nested),
        j == s.len() || is_term(s[j], nested),
    ensures
        bare_end(s, i, nested) == j,
    decreases j - i,
{
    if i < j {
        lemma_bare_end_pin(s, i + 1, j, nested);
    }
}

/// A token whose last character is not whitespace trims to itself.
pub proof fn lemma_trim_right_stay(t: Seq<char>)
    requires
        t.len() == 0 || !is_ws(t.last()),
    ensures
        trim_right(t) == t,
{
}

/// A character a numeric token may hold.
pub open spec fn num_char(c: char) -> bool {
    is_digit(c) || c == '-' || c == '+' || c == '.' || c == 'e' || c == 'E'
}

/// Every character of a token shaped like a number is a digit, a sign, a
/// point or an exponent mark.
pub proof fn lemma_num_token_chars(t: Seq<char>)
    requires
        is_num_token(t) || is_int_token(t),
    ensures
        forall|k: int| 0 <= k < t.len() ==> num_char(#[trigger] t[k]),
{
    let p = num_start(t);
    let d1 = scan_digits(t, p);
    lemma_scan_digits(t, p);
    if is_int_token(t) {
        assert forall|k: int| 0 <= k < t.len() implies num_char(#[trigger] t[k]) by {
            if k >= p {
                assert(is_digit(t[k]));
            } else {
                assert(t[0] == '-');
            }
        }
    } else {
        assert(d1 > p && frac_exp_ok(t, d1));
        let e_at = if d1 < t.len() && t[d1] == '.' {
            scan_digits(t, d1 + 1)
        } else {
            d1
        };
        if d1 < t.len() && t[d1] == '.' {
            lemma_scan_digits(t, d1 + 1);
        }
        assert(exp_ok(t, e_at));
        if e_at < t.len() {
            let p2 = if e_at + 1 < t.len() && (t[e_at + 1] == '+' || t[e_at + 1] == '-') {
                e_at + 2
            } else {
                e_at + 1
            };
            lemma_scan_digits(t, p2);
            assert forall|k: int| 0 <= k < t.len() implies num_char(#[trigger] t[k]) by {
                if k < p {
                    assert(t[0] == '-');
                } else if k < d1 {
                    assert(is_digit(t[k]));
                } else if k == d1 {
                } else if k < e_at {
                    assert(is_digit(t[k]));
                } else if k == e_at {
                } else if k < p2 {
                } else {
                    assert(is_digit(t[k]));
                }
            }
        } else {
            assert forall|k: int| 0 <= k < t.len() implies num_char(#[trigger] t[k]) by {
                if k < p {
                    assert(t[0] == '-');
                } else if k < d1 {
                    assert(is_digit(t[k]));
                } else if k == d1 {
                } else {
                    assert(is_digit(t[k]));
                }
            }
        }
    }
}

/// A numeric character is neither whitespace nor a token terminator nor a
/// bracket or quote.
pub proof fn lemma_num_char_plain(c: char)
    requires
        num_char(c),
    ensures
        !is_ws(c),
        !is_term(c, true),
        !is_term(c, false),
        c != '{' && c != '[' && c != '"' && c != ']' && c != '}' && c != ',',
{
}

/// The decimal text of an integer classifies back to that integer.
pub proof fn lemma_classify_int(n: int)
    requires
        i64::MIN <= n <= i64::MAX,
    ensures
        is_int_token(int_text(n)),
        classify(int_text(n)) == ValV::Int(n),
        forall|k: int| 0 <= k < int_text(n).len() ==> num_char(#[trigger] int_text(n)[k]),
{
    let t = int_text(n);
    if n < 0 {
        let m = (-n) as nat;
        lemma_nat_text(m);
        assert(t == seq!['-'] + nat_text(m));
        assert(t[0] == '-');
        assert(num_start(t) == 1);
        assert(t.subrange(1, t.len() as int) =~= nat_text(m));
        assert forall|k: int| 1 <= k < t.len() implies is_digit(#[trigger] t[k]) by {
            assert(nat_text(m)[k - 1] == t[k]);
        }
        lemma_scan_digits_pin(t, 1, t.len() as int);
        assert(is_int_token(t));
        assert(int_token_mag(t) == digits_val(nat_text(m)));
        assert(int_token_mag(t) == m);
        assert(m <= 0x8000_0000_0000_0000);
        assert(t != null_text()) by {
            if t == null_text() {
                assert(t[0] == 'n');
            }
        }
        assert(t != true_text()) by {
            if t == true_text() {
                assert(t[0] == 't');
            }
        }
        assert(t != false_text()) by {
            if t == false_text() {
                assert(t[0] == 'f');
            }
        }
        assert(classify(t) == ValV::Int(n));
        lemma_num_token_chars(t);
    } else {
        lemma_nat_text(n as nat);
        assert(t == nat_text(n as nat));
        assert(t[0] == nat_text(n as nat)[0]);
        assert(is_digit(t[0]));
        assert(t[0] != '-');
        assert(num_start(t) == 0);
        lemma_scan_digits_pin(t, 0, t.len() as int);
        assert(is_int_token(t));
        assert(t.subrange(0, t.len() as int) =~= t);
        assert(int_token_mag(t) == n);
        assert(n <= 0x7fff_ffff_ffff_ffff);
        assert(t != null_text()) by {
            if t == null_text() {
                assert(t[0] == 'n');
                assert(48 <= t[0] as int <= 57);
            }
        }
        assert(t != true_text()) by {
            if t == true_text() {
                assert(t[0] == 't');
                assert(48 <= t[0] as int <= 57);
            }
        }
        assert(t != false_text()) by {
            if t == false_text() {
                assert(t[0] == 'f');
                assert(48 <= t[0] as int <= 57);
            }
        }
        assert(classify(t) == ValV::Int(n));
        lemma_num_token_chars(t);
    }
}

/// `escape` read from the front.
pub proof fn lemma_escape_cons(b: Seq<char>)
    requires
        b.len() >= 1,
    ensures
        escape(b) == esc_char(b[0]) + escape(b.drop_first()),
    decreases b.len(),
{
    if b.len() == 1 {
        assert(b.drop_last() =~= Seq::<char>::empty());
        assert(b.drop_first() =~= Seq::<char>::empty());
        assert(b.last() == b[0]);
        assert(escape(b) =~= esc_char(b[0]) + escape(b.drop_first()));
    } else {
        lemma_escape_cons(b.drop_last());
        assert(b.drop_last()[0] == b[0]);
        assert(b.drop_last().drop_first() =~= b.drop_first().drop_last());
        assert(b.drop_first().last() == b.last());
        assert(b.drop_first().len() >= 1);
        assert(escape(b.drop_first()) == escape(b.drop_first().drop_last()) + esc_char(
            b.drop_first().last(),
        ));
        assert(escape(b) =~= esc_char(b[0]) + escape(b.drop_first()));
    }
}

/// A quoted string body followed by its closing quote reads back as the
/// body.
pub proof fn lemma_parse_qstr_at(s: Seq<char>, i: int, b: Seq<char>)
    requires
        0 <= i,
        i + escape(b).len() + 1 <= s.len(),
        s.subrange(i, i + escape(b).len() + 1) == escape(b) + seq!['"'],
    ensures
        parse_qstr(s, i) == Some((b, i + escape(b).len() + 1)),
    decreases b.len(),
{
    let t = escape(b) + seq!['"'];
    lemma_match_index(s, i, t);
    if b.len() == 0 {
        assert(escape(b) =~= Seq::<char>::empty());
        assert(t =~= seq!['"']);
        assert(s[i + 0] == t[0]);
        assert(s[i] == '"');
        assert(parse_qstr(s, i) == Some((Seq::<char>::empty(), i + 1)));
        assert(b =~= Seq::<char>::empty());
    } else {
        lemma_escape_cons(b);
        let e0 = esc_char(b[0]);
        let rest = b.drop_first();
        assert(escape(b) == e0 + escape(rest));
        assert(t =~= e0 + (escape(rest) + seq!['"']));
        lemma_sub_match(s, i, t, e0.len() as int, t.len() as int);
        assert(t.subrange(e0.len() as int, t.len() as int) =~= escape(rest) + seq!['"']);
        lemma_parse_qstr_at(s, i + e0.len(), rest);
        assert(seq![b[0]] + rest =~= b);
        if b[0] == '"' || b[0] == '\\' || b[0] == '\n' || b[0] == '\r' || b[0] == '\t' {
            assert(e0.len() == 2);
            assert(t[0] == e0[0]);
            assert(t[1] == e0[1]);
            assert(s[i + 0] == t[0]);
            assert(s[i + 1] == t[1]);
            assert(e0[0] == '\\');
            assert(s[i] == '\\');
            assert(unescape(s[i + 1]) == Some(b[0]));
        } else {
            assert(e0 =~= seq![b[0]]);
            assert(t[0] == e0[0]);
            assert(s[i + 0] == t[0]);
            assert(s[i] == b[0]);
            assert(s[i] != '"' && s[i] != '\\');
        }
    }
}

/// `items_text` read from the front.
pub proof fn lemma_items_text_cons(elems: Seq<ValV>)
    requires
        elems.len() >= 1,
    ensures
        elems.len() == 1 ==> items_text(elems) == text_of(elems[0]),
        elems.len() > 1 ==> items_text(elems) == text_of(elems[0]) + seq![','] + items_text(
            elems.drop_first(),
        ),
    decreases elems.len(),
{
    if elems.len() == 1 {
        assert(elems.last() == elems[0]);
    } else if elems.len() == 2 {
        assert(elems.drop_last().len() == 1);
        assert(elems.drop_last()[0] == elems[0]);
        assert(items_text(elems.drop_last()) == text_of(elems[0]));
        assert(elems.drop_first().len() == 1);
        assert(elems.drop_first()[0] == elems[1]);
        assert(elems.drop_first().last() == elems[1]);
        assert(items_text(elems.drop_first()) == text_of(elems[1]));
        assert(elems.last() == elems[1]);
        assert(items_text(elems) =~= text_of(elems[0]) + seq![','] + items_text(
            elems.drop_first(),
        ));
    } else {
        lemma_items_text_cons(elems.drop_last());
        assert(elems.drop_last()[0] == elems[0]);
        assert(elems.drop_last().drop_first() =~= elems.drop_first().drop_last());
        assert(elems.drop_first().last() == elems.last());
        assert(elems.drop_first().len() >= 2);
        assert(items_text(elems.drop_first()) == items_text(elems.drop_first().drop_last())
            + seq![','] + text_of(elems.drop_first().last()));
        assert(items_text(elems) =~= text_of(elems[0]) + seq![','] + items_text(
            elems.drop_first(),
        ));
    }
}

/// `entries_text` read from the front.
pub proof fn lemma_entries_text_cons(entries: Seq<(Seq<char>, ValV)>)
    requires
        entries.len() >= 1,
    ensures
        entries.len() == 1 ==> entries_text(entries) == entry_text(entries[0]),
        entries.len() > 1 ==> entries_text(entries) == entry_text(entries[0]) + seq![',']
            + entries_text(entries.drop_first()),
    decreases entries.len(),
{
    if entries.len() == 1 {
        assert(entries.last() == entries[0]);
    } else if entries.len() == 2 {
        assert(entries.drop_last().len() == 1);
        assert(entries.drop_last()[0] == entries[0]);
        assert(entries_text(entries.drop_last()) == entry_text(entries[0]));
        assert(entries.drop_first().len() == 1);
        assert(entries.drop_first()[0] == entries[1]);
        assert(entries.drop_first().last() == entries[1]);
        assert(entries_text(entries.drop_first()) == entry_text(entries[1]));
        assert(entries.last() == entries[1]);
        assert(entries_text(entries) =~= entry_text(entries[0]) + seq![','] + entries_text(
            entries.drop_first(),
        ));
    } else {
        lemma_entries_text_cons(entries.drop_last());
        assert(entries.drop_last()[0] == entries[0]);
        assert(entries.drop_last().drop_first() =~= entries.drop_first().drop_last());
        assert(entries.drop_first().last() == entries.last());
        assert(entries.drop_first().len() >= 2);
        assert(entries_text(entries.drop_first()) == entries_text(
            entries.drop_first().drop_last(),
        ) + seq![','] + entry_text(entries.drop_first().last()));
        assert(entries_text(entries) =~= entry_text(entries[0]) + seq![','] + entries_text(
            entries.drop_first(),
        ));
    }
}

/// A well-formed `Float`'s text is a numeric or integer token.
pub proof fn lemma_wf_float_shape(t: Seq<char>)
    requires
        classify(t) == ValV::Float(t),
    ensures
        is_num_token(t) || is_int_token(t),
        t.len() >= 1,
{
    if !(is_num_token(t) || is_int_token(t)) {
        assert(classify(t) is Float ==> false);
    }
    let p = num_start(t);
    lemma_scan_digits(t, p);
    assert(scan_digits(t, p) > p);
}

/// The first character of a value's text: never whitespace, a separator or
/// a closing bracket.
pub proof fn lemma_text_first(v: ValV)
    requires
        wf_val(v),
    ensures
        text_of(v).len() >= 1,
        !is_ws(text_of(v)[0]),
        text_of(v)[0] != ']',
        text_of(v)[0] != '}',
        text_of(v)[0] != ',',
        text_of(v)[0] != ':',
{
    match v {
        ValV::Null => {
            assert(text_of(v)[0] == 'n');
        },
        ValV::Bool(b) => {
            if b {
                assert(text_of(v)[0] == 't');
            } else {
                assert(text_of(v)[0] == 'f');
            }
        },
        ValV::Int(n) => {
            lemma_classify_int(n);
            assert(num_char(text_of(v)[0]));
            lemma_num_char_plain(text_of(v)[0]);
        },
        ValV::Float(t) => {
            lemma_wf_float_shape(t);
            lemma_num_token_chars(t);
            assert(num_char(t[0]));
            lemma_num_char_plain(t[0]);
        },
        ValV::Str(b) => {
            assert(text_of(v)[0] == '"');
        },
        ValV::Array(elems) => {
            assert(text_of(v)[0] == '[');
        },
        ValV::Table(entries) => {
            assert(text_of(v)[0] == '{');
        },
    }
}

/// A scalar's text, with a terminator or the end after it, reads back as
/// the scalar.
pub proof fn lemma_parse_scalar_at(s: Seq<char>, i: int, v: ValV, nested: bool)
    requires
        wf_val(v),
        v is Null || v is Bool || v is Int || v is Float,
        0 <= i,
        i + text_of(v).len() <= s.len(),
        s.subrange(i, i + text_of(v).len()) == text_of(v),
        i + text_of(v).len() == s.len() || is_term(s[i + text_of(v).len()], nested),
    ensures
        parse_value(s, i, nested) == Some((v, i + text_of(v).len())),
{
    let t = text_of(v);
    let j = i + t.len();
    lemma_match_index(s, i, t);
    match v {
        ValV::Null => {
            assert(t == null_text());
            assert(classify(t) == ValV::Null);
        },
        ValV::Bool(b) => {
            if b {
                assert(t == true_text());
                assert(classify(t) == ValV::Bool(true));
            } else {
                assert(t == false_text());
                assert(classify(t) == ValV::Bool(false));
            }
        },
        ValV::Int(n) => {
            lemma_classify_int(n);
        },
        ValV::Float(ft) => {
            lemma_wf_float_shape(ft);
            lemma_num_token_chars(ft);
        },
        _ => {},
    }
    assert forall|k: int| 0 <= k < t.len() implies !is_term(#[trigger] t[k], nested)
        && !is_ws(t[k]) by {
        match v {
            ValV::Null => {
                assert(t[k] == 'n' || t[k] == 'u' || t[k] == 'l');
            },
            ValV::Bool(b) => {
                if b {
                    assert(t[k] == 't' || t[k] == 'r' || t[k] == 'u' || t[k] == 'e');
                } else {
                    assert(t[k] == 'f' || t[k] == 'a' || t[k] == 'l' || t[k] == 's' || t[k]
                        == 'e');
                }
            },
            ValV::Int(n) => {
                assert(num_char(t[k]));
                lemma_num_char_plain(t[k]);
            },
            ValV::Float(ft) => {
                assert(num_char(t[k]));
                lemma_num_char_plain(t[k]);
            },
            _ => {},
        }
    }
    assert(t.len() >= 1);
    assert forall|k: int| i <= k < j implies !is_term(#[trigger] s[k], nested) by {
        assert(s[i + (k - i)] == t[k - i]);
    }
    lemma_bare_end_pin(s, i, j, nested);
    assert(s[i + 0] == t[0]);
    assert(!is_ws(s[i]));
    match v {
        ValV::Null => {
            assert(t[0] == 'n');
        },
        ValV::Bool(b) => {
            assert(t[0] == 't' || t[0] == 'f');
        },
        ValV::Int(n) => {
            assert(num_char(t[0]));
            lemma_num_char_plain(t[0]);
        },
        ValV::Float(ft) => {
            assert(num_char(t[0]));
            lemma_num_char_plain(t[0]);
        },
        _ => {},
    }
    assert(s[i] != '{' && s[i] != '[' && s[i] != '"');
    assert(bare_end(s, i, nested) == j);
    assert(s.subrange(i, j) == t);
    assert(!is_ws(t.last()));
    lemma_trim_right_stay(t);
    assert(classify(t) == v);
}

/// A value's text, with a terminator or the end after it, reads back as
/// the value.
pub proof fn lemma_parse_value_at(s: Seq<char>, i: int, v: ValV, nested: bool)
    requires
        wf_val(v),
        0 <= i,
        i + text_of(v).len() <= s.len(),
        s.subrange(i, i + text_of(v).len()) == text_of(v),
        i + text_of(v).len() == s.len() || is_term(s[i + text_of(v).len()], nested),
    ensures
        parse_value(s, i, nested) == Some((v, i + text_of(v).len())),
    decreases v, 0int,
{
    let t = text_of(v);
    let j = i + t.len();
    lemma_match_index(s, i, t);
    match v {
        ValV::Str(b) => {
            assert(t =~= seq!['"'] + (escape(b) + seq!['"']));
            assert(t[0] == '"');
            assert(s[i + 0] == t[0]);
            lemma_sub_match(s, i, t, 1, t.len() as int);
            assert(t.subrange(1, t.len() as int) =~= escape(b) + seq!['"']);
            lemma_parse_qstr_at(s, i + 1, b);
            assert(parse_value(s, i, nested) == Some((ValV::Str(b), j)));
        },
        ValV::Array(elems) => {
            assert(t =~= seq!['['] + (items_text(elems) + seq![']']));
            assert(t[0] == '[');
            assert(s[i + 0] == t[0]);
            lemma_sub_match(s, i, t, 1, t.len() as int);
            assert(t.subrange(1, t.len() as int) =~= items_text(elems) + seq![']']);
            assert(decreases_to!(v => v->Array_0));
            lemma_parse_items_at(s, i + 1, elems);
            assert(parse_value(s, i, nested) == Some((ValV::Array(elems), j)));
        },
        ValV::Table(entries) => {
            assert(t =~= seq!['{'] + (entries_text(entries) + seq!['}']));
            assert(t[0] == '{');
            assert(s[i + 0] == t[0]);
            lemma_sub_match(s, i, t, 1, t.len() as int);
            assert(t.subrange(1, t.len() as int) =~= entries_text(entries) + seq!['}']);
            assert(decreases_to!(v => v->Table_0));
            lemma_parse_entries_at(s, i + 1, entries);
            assert(parse_value(s, i, nested) == Some((ValV::Table(entries), j)));
        },
        _ => {
            lemma_parse_scalar_at(s, i, v, nested);
        },
    }
}

/// An element list followed by `]` reads back as those elements.
pub proof fn lemma_parse_items_at(s: Seq<char>, i: int, elems: Seq<ValV>)
    requires
        wf_items(elems),
        0 <= i,
        i + items_text(elems).len() + 1 <= s.len(),
        s.subrange(i, i + items_text(elems).len() + 1) == items_text(elems) + seq![']'],
    ensures
        parse_items(s, i) == Some((elems, i + items_text(elems).len() + 1)),
    decreases elems, 1int,
{
    let ttl = items_text(elems) + seq![']'];
    let j = i + ttl.len();
    lemma_match_index(s, i, ttl);
    if elems.len() == 0 {
        assert(items_text(elems) =~= Seq::<char>::empty());
        assert(ttl[0] == ']');
        assert(s[i + 0] == ttl[0]);
        assert(parse_items(s, i) == Some((Seq::<ValV>::empty(), i + 1)));
        assert(elems =~= Seq::<ValV>::empty());
    } else {
        lemma_items_text_cons(elems);
        lemma_wf_items(elems);
        let t0 = text_of(elems[0]);
        lemma_text_first(elems[0]);
        let j0 = i + t0.len();
        assert(ttl[t0.len() as int] == ',' || ttl[t0.len() as int] == ']') by {
            if elems.len() == 1 {
                assert(ttl =~= t0 + seq![']']);
            } else {
                assert(ttl =~= t0 + (seq![','] + (items_text(elems.drop_first())
                    + seq![']'])));
            }
        }
        assert(s[i + t0.len()] == ttl[t0.len() as int]);
        lemma_sub_match(s, i, ttl, 0, t0.len() as int);
        assert(ttl.subrange(0, t0.len() as int) =~= t0) by {
            if elems.len() == 1 {
                assert(ttl =~= t0 + seq![']']);
            } else {
                assert(ttl =~= t0 + (seq![','] + (items_text(elems.drop_first())
                    + seq![']'])));
            }
        }
        assert(decreases_to!(elems => elems[0]));
        lemma_parse_value_at(s, i, elems[0], true);
        assert(s[i + 0] == ttl[0]);
        assert(ttl[0] == t0[0]);
        assert(!is_ws(s[i]) && s[i] != ']');
        assert(clamp_idx(s, i + 1, j0) == j0);
        if elems.len() == 1 {
            assert(s[j0] == ']');
            assert(parse_more_items(s, j0) == Some((Seq::<ValV>::empty(), j0 + 1)));
            assert(seq![elems[0]] + Seq::<ValV>::empty() =~= elems);
            assert(parse_items(s, i) == Some((elems, j)));
        } else {
            assert(s[j0] == ',');
            let rest = elems.drop_first();
            assert(parse_more_items(s, j0) == parse_items(s, j0 + 1));
            lemma_sub_match(s, i, ttl, t0.len() as int + 1, ttl.len() as int);
            assert(ttl.subrange(t0.len() as int + 1, ttl.len() as int) =~= items_text(rest)
                + seq![']']) by {
                assert(ttl =~= t0 + (seq![','] + (items_text(rest) + seq![']'])));
            }
            assert(rest =~= elems.subrange(1, elems.len() as int));
            assert(decreases_to!(elems => elems.subrange(1, elems.len() as int)));
            assert forall|q: int| 0 <= q < rest.len() implies wf_val(#[trigger] rest[q]) by {
                assert(rest[q] == elems[q + 1]);
            }
            lemma_wf_items_intro(rest);
            lemma_parse_items_at(s, j0 + 1, rest);
            assert(seq![elems[0]] + rest =~= elems);
            assert(j0 + 1 + items_text(rest).len() + 1 == j);
            assert(parse_items(s, i) == Some((elems, j)));
        }
    }
}

/// An entry list followed by `}` reads back as those entries.
#[verifier::rlimit(100)]
pub proof fn lemma_parse_entries_at(s: Seq<char>, i: int, entries: Seq<(Seq<char>, ValV)>)
    requires
        wf_entries(entries),
        0 <= i,
        i + entries_text(entries).len() + 1 <= s.len(),
        s.subrange(i, i + entries_text(entries).len() + 1) == entries_text(entries)
            + seq!['}'],
    ensures
        parse_entries(s, i) == Some((entries, i + entries_text(entries).len() + 1)),
    decreases entries, 1int,
{
    let ttl = entries_text(entries) + seq!['}'];
    let j = i + ttl.len();
    lemma_match_index(s, i, ttl);
    if entries.len() == 0 {
        assert(entries_text(entries) =~= Seq::<char>::empty());
        assert(ttl[0] == '}');
        assert(s[i + 0] == ttl[0]);
        assert(parse_entries(s, i) == Some((Seq::<(Seq<char>, ValV)>::empty(), i + 1)));
        assert(entries =~= Seq::<(Seq<char>, ValV)>::empty());
    } else {
        lemma_entries_text_cons(entries);
        lemma_wf_entries(entries);
        let key = entries[0].0;
        let val = entries[0].1;
        let e0 = entry_text(entries[0]);
        let tv = text_of(val);
        lemma_text_first(val);
        assert(e0 == quoted(key) + seq![':'] + tv);
        let jk = i + quoted(key).len();
        let jv = jk + 1 + tv.len();
        assert(jv == i + e0.len());
        assert(ttl.subrange(0, e0.len() as int) =~= e0) by {
            if entries.len() == 1 {
                assert(ttl =~= e0 + seq!['}']);
            } else {
                assert(ttl =~= e0 + (seq![','] + (entries_text(entries.drop_first())
                    + seq!['}'])));
            }
        }
        assert(ttl[e0.len() as int] == ',' || ttl[e0.len() as int] == '}') by {
            if entries.len() == 1 {
                assert(ttl =~= e0 + seq!['}']);
            } else {
                assert(ttl =~= e0 + (seq![','] + (entries_text(entries.drop_first())
                    + seq!['}'])));
            }
        }
        lemma_sub_match(s, i, ttl, 0, e0.len() as int);
        // the key: a quoted string at i
        assert(e0 =~= seq!['"'] + ((escape(key) + seq!['"']) + (seq![':'] + tv)));
        assert(s[i + 0] == ttl[0]);
        assert(ttl[0] == e0[0]);
        assert(e0[0] == '"');
        lemma_sub_match(s, i, e0, 1, 1 + escape(key).len() as int + 1);
        assert(e0.subrange(1, 1 + escape(key).len() as int + 1) =~= escape(key) + seq!['"']);
        lemma_parse_qstr_at(s, i + 1, key);
        assert(parse_key(s, i) == Some((key, jk)));
        assert(clamp_idx(s, i + 1, jk) == jk);
        // the colon
        assert(s[i + (quoted(key).len() as int)] == ttl[quoted(key).len() as int]);
        assert(ttl[quoted(key).len() as int] == e0[quoted(key).len() as int]);
        assert(e0[quoted(key).len() as int] == ':');
        assert(s[jk] == ':');
        lemma_skip_ws_stay(s, jk);
        // the value
        assert(s[jk + 1] == e0[quoted(key).len() as int + 1]) by {
            assert(s[i + (quoted(key).len() as int + 1)] == ttl[quoted(key).len() as int + 1]);
            assert(ttl[quoted(key).len() as int + 1] == e0[quoted(key).len() as int + 1]);
        }
        assert(e0[quoted(key).len() as int + 1] == tv[0]);
        assert(!is_ws(s[jk + 1]));
        lemma_skip_ws_stay(s, jk + 1);
        assert(clamp_idx(s, i + 1, jk + 1) == jk + 1);
        lemma_sub_match(s, i, e0, quoted(key).len() as int + 1, e0.len() as int);
        assert(e0.subrange(quoted(key).len() as int + 1, e0.len() as int) =~= tv);
        assert(s[jv] == ttl[e0.len() as int]) by {
            assert(s[i + (e0.len() as int)] == ttl[e0.len() as int]);
        }
        assert(is_term(s[jv], true));
        assert(decreases_to!(entries => entries[0]));
        assert(decreases_to!(entries[0] => entries[0].1));
        lemma_parse_value_at(s, jk + 1, val, true);
        assert(parse_value(s, jk + 1, true) == Some((val, jv)));
        assert(clamp_idx(s, i + 1, jv) == jv);
        if entries.len() == 1 {
            assert(s[jv] == '}');
            assert(parse_more_entries(s, jv) == Some((Seq::<(Seq<char>, ValV)>::empty(), jv
                + 1)));
            assert(seq![(key, val)] + Seq::<(Seq<char>, ValV)>::empty() =~= entries);
            assert(parse_entries(s, i) == Some((entries, j)));
        } else {
            assert(s[jv] == ',');
            let rest = entries.drop_first();
            assert(parse_more_entries(s, jv) == parse_entries(s, jv + 1));
            lemma_sub_match(s, i, ttl, e0.len() as int + 1, ttl.len() as int);
            assert(ttl.subrange(e0.len() as int + 1, ttl.len() as int) =~= entries_text(rest)
                + seq!['}']) by {
                assert(ttl =~= e0 + (seq![','] + (entries_text(rest) + seq!['}'])));
            }
            assert(rest =~= entries.subrange(1, entries.len() as int));
            assert(decreases_to!(entries => entries.subrange(1, entries.len() as int)));
            assert forall|q: int| 0 <= q < rest.len() implies wf_val(
                (#[trigger] rest[q]).1,
            ) by {
                assert(rest[q] == entries[q + 1]);
            }
            lemma_wf_entries_intro(rest);
            lemma_parse_entries_at(s, jv + 1, rest);
            assert(seq![(key, val)] + rest =~= entries);
            assert(jv + 1 + entries_text(rest).len() + 1 == j);
            assert(parse_entries(s, i) == Some((entries, j)));
        }
    }
}

/// A classified token is a well-formed scalar.
pub proof fn lemma_classify_wf(t: Seq<char>)
    requires
        t.len() > 0,
    ensures
        wf_val(classify(t)),
{
    if classify(t) is Int {
        let p = num_start(t);
        lemma_scan_digits(t, p);
        let run = t.subrange(p, t.len() as int);
        assert(forall|k: int| 0 <= k < run.len() ==> is_digit(#[trigger] run[k]));
        lemma_digits_val_nonneg(run);
    }
}

/// Whatever the reader accepts is well formed: integers in machine range,
/// float texts that classify back to themselves.
pub proof fn lemma_parse_value_wf(s: Seq<char>, i: int, nested: bool)
    ensures
        parse_value(s, i, nested) matches Some((v, j)) ==> wf_val(v),
    decreases s.len() - i, 0int,
{
    if 0 <= i < s.len() {
        if s[i] == '{' {
            lemma_parse_entries_wf(s, i + 1);
        } else if s[i] == '[' {
            lemma_parse_items_wf(s, i + 1);
        } else if s[i] == '"' {
        } else if !is_ws(s[i]) {
            let e = bare_end(s, i, nested);
            let t = trim_right(s.subrange(i, if e < i {
                i
            } else {
                e
            }));
            if t.len() != 0 {
                lemma_classify_wf(t);
            }
        }
    }
}

/// Every element list the reader accepts holds well-formed elements.
pub proof fn lemma_parse_items_wf(s: Seq<char>, i: int)
    ensures
        parse_items(s, i) matches Some((vs, j)) ==> wf_items(vs),
    decreases s.len() - i, 1int,
{
    if 0 <= i < s.len() {
        if is_ws(s[i]) {
            lemma_parse_items_wf(s, i + 1);
        } else if s[i] == ']' {
        } else {
            lemma_parse_value_wf(s, i, true);
            match parse_value(s, i, true) {
                Some((v, j)) => {
                    lemma_parse_more_items_wf(s, clamp_idx(s, i + 1, j));
                    match parse_more_items(s, clamp_idx(s, i + 1, j)) {
                        Some((rest, k)) => {
                            lemma_wf_items(rest);
                            let whole = seq![v] + rest;
                            assert forall|q: int| 0 <= q < whole.len() implies wf_val(
                                #[trigger] whole[q],
                            ) by {
                                if q > 0 {
                                    assert(whole[q] == rest[q - 1]);
                                }
                            }
                            lemma_wf_items_intro(whole);
                        },
                        None => {},
                    }
                },
                None => {},
            }
        }
    }
}

/// After a separator, the rest of an element list is well formed.
pub proof fn lemma_parse_more_items_wf(s: Seq<char>, i: int)
    ensures
        parse_more_items(s, i) matches Some((vs, j)) ==> wf_items(vs),
    decreases s.len() - i, 2int,
{
    if 0 <= i < s.len() {
        if is_ws(s[i]) {
            lemma_parse_more_items_wf(s, i + 1);
        } else if s[i] == ',' {
            lemma_parse_items_wf(s, i + 1);
        }
    }
}

/// Every entry list the reader accepts holds well-formed values.
pub proof fn lemma_parse_entries_wf(s: Seq<char>, i: int)
    ensures
        parse_entries(s, i) matches Some((es, j)) ==> wf_entries(es),
    decreases s.len() - i, 1int,
{
    if 0 <= i < s.len() {
        if is_ws(s[i]) {
            lemma_parse_entries_wf(s, i + 1);
        } else if s[i] == '}' {
        } else {
            match parse_key(s, i) {
                Some((key, j)) => {
                    let k = skip_ws(s, clamp_idx(s, i + 1, j));
                    if 0 <= k < s.len() && s[k] == ':' {
                        let m = clamp_idx(s, i + 1, skip_ws(s, k + 1));
                        lemma_parse_value_wf(s, m, true);
                        match parse_value(s, m, true) {
                            Some((v, e)) => {
                                lemma_parse_more_entries_wf(s, clamp_idx(s, i + 1, e));
                                match parse_more_entries(s, clamp_idx(s, i + 1, e)) {
                                    Some((rest, z)) => {
                                        lemma_wf_entries(rest);
                                        let whole = seq![(key, v)] + rest;
                                        assert forall|q: int|
                                            0 <= q < whole.len() implies wf_val(
                                            (#[trigger] whole[q]).1,
                                        ) by {
                                            if q > 0 {
                                                assert(whole[q] == rest[q - 1]);
                                            }
                                        }
                                        lemma_wf_entries_intro(whole);
                                    },
                                    None => {},
                                }
                            },
                            None => {},
                        }
                    }
                },
                None => {},
            }
        }
    }
}

/// After a separator, the rest of an entry list is well formed.
pub proof fn lemma_parse_more_entries_wf(s: Seq<char>, i: int)
    ensures
        parse_more_entries(s, i) matches Some((es, j)) ==> wf_entries(es),
    decreases s.len() - i, 2int,
{
    if 0 <= i < s.len() {
        if is_ws(s[i]) {
            lemma_parse_more_entries_wf(s, i + 1);
        } else if s[i] == ',' {
            lemma_parse_entries_wf(s, i + 1);
        }
    }
}

/// Whatever the reader accepts is well formed, so every parsed value
/// itself survives the round trip of `lemma_round_trip`.
pub proof fn lemma_parse_wf(s: Seq<char>)
    ensures
        parse_text(s) matches Some(v) ==> wf_val(v),
{
    lemma_parse_value_wf(s, skip_ws(s, 0), false);
}

/// Serialize-then-parse reproduces any well-formed value.
///
/// This is the round-trip law: the text a structured value serializes to is
/// exactly the text the default deserializer reads back as that value.
pub proof fn lemma_round_trip(v: ValV)
    requires
        wf_val(v),
    ensures
        parse_text(text_of(v)) == Some(v),
{
    let s = text_of(v);
    lemma_text_first(v);
    assert(s.subrange(0, s.len() as int) =~= s);
    lemma_skip_ws_stay(s, 0);
    lemma_parse_value_at(s, 0, v, false);
    lemma_skip_ws_stay(s, s.len() as int);
}

} // verus!
