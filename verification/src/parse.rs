//! The default deserializer: a permissive, JSON-like reader of the engine's
//! intermediate text form.  Besides standard JSON it accepts unquoted scalar
//! tokens and unquoted table keys, and it tolerates a trailing separator
//! inside brackets.

use vstd::prelude::*;
use crate::chars::{is_ws, is_digit};
use crate::num::digits_val;
use crate::text::{null_text, true_text, false_text};
use crate::value::ValV;

verus! {

/// First index at or after `i` holding a non-whitespace character.
pub open spec fn skip_ws(s: Seq<char>, i: int) -> int
    decreases s.len() - i,
{
    if i < 0 || i >= s.len() {
        i
    } else if is_ws(s[i]) {
        skip_ws(s, i + 1)
    } else {
        i
    }
}

/// `skip_ws` moves forward, at most to the end.
pub proof fn lemma_skip_ws(s: Seq<char>, i: int)
    requires
        0 <= i <= s.len(),
    ensures
        i <= skip_ws(s, i) <= s.len(),
        skip_ws(s, i) < s.len() ==> !is_ws(s[skip_ws(s, i)]),
        forall|k: int| i <= k < skip_ws(s, i) ==> is_ws(#[trigger] s[k]),
    decreases s.len() - i,
{
    if i < s.len() && is_ws(s[i]) {
        lemma_skip_ws(s, i + 1);
    }
}

/// Does `c` end an unquoted scalar token?  A newline always does; a comma
/// or closing bracket does only inside an array or table.
pub open spec fn is_term(c: char, nested: bool) -> bool {
    c == '\n' || (nested && (c == ',' || c == ']' || c == '}'))
}

/// End of the unquoted scalar token starting at `i`.
pub open spec fn bare_end(s: Seq<char>, i: int, nested: bool) -> int
    decreases s.len() - i,
{
    if i < 0 || i >= s.len() {
        s.len() as int
    } else if is_term(s[i], nested) {
        i
    } else {
        bare_end(s, i + 1, nested)
    }
}

/// The token with its trailing whitespace removed.
pub open spec fn trim_right(t: Seq<char>) -> Seq<char>
    decreases t.len(),
{
    if t.len() > 0 && is_ws(t.last()) {
        trim_right(t.drop_last())
    } else {
        t
    }
}

/// First index at or after `i` holding a non-digit character.
pub open spec fn scan_digits(s: Seq<char>, i: int) -> int
    decreases s.len() - i,
{
    if i < 0 || i >= s.len() {
        s.len() as int
    } else if is_digit(s[i]) {
        scan_digits(s, i + 1)
    } else {
        i
    }
}

/// `scan_digits` moves forward over digits only.
pub proof fn lemma_scan_digits(s: Seq<char>, i: int)
    requires
        0 <= i <= s.len(),
    ensures
        i <= scan_digits(s, i) <= s.len(),
        forall|k: int| i <= k < scan_digits(s, i) ==> is_digit(#[trigger] s[k]),
        scan_digits(s, i) < s.len() ==> !is_digit(s[scan_digits(s, i)]),
    decreases s.len() - i,
{
    if i < s.len() && is_digit(s[i]) {
        lemma_scan_digits(s, i + 1);
    }
}

/// Index of the first digit of a numeric token: after a minus sign, if any.
pub open spec fn num_start(t: Seq<char>) -> int {
    if t.len() > 0 && t[0] == '-' {
        1
    } else {
        0
    }
}

/// Is `t` a plain integer token: optional sign, then digits to the end?
pub open spec fn is_int_token(t: Seq<char>) -> bool {
    let p = num_start(t);
    scan_digits(t, p) == t.len() && t.len() > p
}

/// Does an exponent part start at `k` and run to the end (or is `k` the end)?
pub open spec fn exp_ok(t: Seq<char>, k: int) -> bool {
    if k == t.len() {
        true
    } else if 0 <= k < t.len() && (t[k] == 'e' || t[k] == 'E') {
        let p = if k + 1 < t.len() && (t[k + 1] == '+' || t[k + 1] == '-') {
            k + 2
        } else {
            k + 1
        };
        scan_digits(t, p) == t.len() && t.len() > p
    } else {
        false
    }
}

/// Does an optional fraction then optional exponent start at `k`?
pub open spec fn frac_exp_ok(t: Seq<char>, k: int) -> bool {
    if k == t.len() {
        true
    } else if 0 <= k < t.len() && t[k] == '.' {
        let d = scan_digits(t, k + 1);
        d > k + 1 && exp_ok(t, d)
    } else {
        exp_ok(t, k)
    }
}

/// Is `t` shaped like a number: optional sign, digits, optional fraction,
/// optional exponent?
pub open spec fn is_num_token(t: Seq<char>) -> bool {
    let p = num_start(t);
    let d = scan_digits(t, p);
    d > p && frac_exp_ok(t, d)
}

/// The magnitude of an integer token.
pub open spec fn int_token_mag(t: Seq<char>) -> int {
    digits_val(t.subrange(num_start(t), t.len() as int))
}

/// The classification of a nonempty unquoted scalar token.
///
/// An integer token in signed 64-bit range becomes `Int`; any other numeric
/// token keeps its text as a `Float`; everything else is a bare string.
pub open spec fn classify(t: Seq<char>) -> ValV {
    if t == null_text() {
        ValV::Null
    } else if t == true_text() {
        ValV::Bool(true)
    } else if t == false_text() {
        ValV::Bool(false)
    } else if is_int_token(t) {
        let m = int_token_mag(t);
        if t[0] == '-' {
            if m <= 0x8000_0000_0000_0000 {
                ValV::Int(-m)
            } else {
                ValV::Float(t)
            }
        } else {
            if m <= 0x7fff_ffff_ffff_ffff {
                ValV::Int(m)
            } else {
                ValV::Float(t)
            }
        }
    } else if is_num_token(t) {
        ValV::Float(t)
    } else {
        ValV::Str(t)
    }
}

/// The replacement for one string escape, or `None` for an unknown one.
pub open spec fn unescape(e: char) -> Option<char> {
    if e == '"' {
        Some('"')
    } else if e == '\\' {
        Some('\\')
    } else if e == '/' {
        Some('/')
    } else if e == 'n' {
        Some('\n')
    } else if e == 't' {
        Some('\t')
    } else if e == 'r' {
        Some('\r')
    } else if e == 'b' {
        Some('\u{8}')
    } else if e == 'f' {
        Some('\u{c}')
    } else {
        None
    }
}

/// The body of a quoted string starting at `i` (just after the opening
/// quote), and the index after the closing quote.
pub open spec fn parse_qstr(s: Seq<char>, i: int) -> Option<(Seq<char>, int)>
    decreases s.len() - i,
{
    if i < 0 || i >= s.len() {
        None
    } else if s[i] == '"' {
        Some((Seq::empty(), i + 1))
    } else if s[i] == '\\' {
        if i + 1 >= s.len() {
            None
        } else {
            match unescape(s[i + 1]) {
                None => None,
                Some(c) => match parse_qstr(s, i + 2) {
                    None => None,
                    Some((rest, j)) => Some((seq![c] + rest, j)),
                },
            }
        }
    } else {
        match parse_qstr(s, i + 1) {
            None => None,
            Some((rest, j)) => Some((seq![s[i]] + rest, j)),
        }
    }
}

/// Does `c` end an unquoted table key?
pub open spec fn is_key_term(c: char) -> bool {
    c == ':' || is_ws(c) || c == '"' || c == '{' || c == '}' || c == '[' || c == ']' || c == ','
}

/// End of the unquoted table key starting at `i`.
pub open spec fn key_end(s: Seq<char>, i: int) -> int
    decreases s.len() - i,
{
    if i < 0 || i >= s.len() {
        s.len() as int
    } else if is_key_term(s[i]) {
        i
    } else {
        key_end(s, i + 1)
    }
}

/// A table key starting at `i`: quoted, or a run of plain characters.
pub open spec fn parse_key(s: Seq<char>, i: int) -> Option<(Seq<char>, int)> {
    if i < 0 || i >= s.len() {
        None
    } else if s[i] == '"' {
        parse_qstr(s, i + 1)
    } else {
        let e = key_end(s, i);
        if e == i {
            None
        } else {
            Some((s.subrange(i, e), e))
        }
    }
}

/// `j` forced into the range `[lo, s.len()]`; identity whenever a parse
/// already ended there.  Its only purpose is to make termination of the
/// mutually recursive readers below evident from the text.
pub open spec fn clamp_idx(s: Seq<char>, lo: int, j: int) -> int {
    if j < lo {
        lo
    } else if j > s.len() {
        s.len() as int
    } else {
        j
    }
}

/// A structured value starting at `i`: a table, an array, a quoted string,
/// or an unquoted scalar token.
pub open spec fn parse_value(s: Seq<char>, i: int, nested: bool) -> Option<(ValV, int)>
    decreases s.len() - i, 0int,
{
    if i < 0 || i >= s.len() {
        None
    } else if s[i] == '{' {
        match parse_entries(s, i + 1) {
            None => None,
            Some((es, j)) => Some((ValV::Table(es), j)),
        }
    } else if s[i] == '[' {
        match parse_items(s, i + 1) {
            None => None,
            Some((vs, j)) => Some((ValV::Array(vs), j)),
        }
    } else if s[i] == '"' {
        match parse_qstr(s, i + 1) {
            None => None,
            Some((b, j)) => Some((ValV::Str(b), j)),
        }
    } else if is_ws(s[i]) {
        None
    } else {
        let e = bare_end(s, i, nested);
        let t = trim_right(s.subrange(i, if e < i {
            i
        } else {
            e
        }));
        if t.len() == 0 {
            None
        } else {
            Some((classify(t), e))
        }
    }
}

/// Array elements, entered just after `[` or after a separator.
pub open spec fn parse_items(s: Seq<char>, i: int) -> Option<(Seq<ValV>, int)>
    decreases s.len() - i, 1int,
{
    if i < 0 || i >= s.len() {
        None
    } else if is_ws(s[i]) {
        parse_items(s, i + 1)
    } else if s[i] == ']' {
        Some((Seq::empty(), i + 1))
    } else {
        match parse_value(s, i, true) {
            None => None,
            Some((v, j)) => {
                match parse_more_items(s, clamp_idx(s, i + 1, j)) {
                    None => None,
                    Some((rest, k)) => Some((seq![v] + rest, k)),
                }
            },
        }
    }
}

/// After an array element: a separator and more elements, or the close.
pub open spec fn parse_more_items(s: Seq<char>, i: int) -> Option<(Seq<ValV>, int)>
    decreases s.len() - i, 2int,
{
    if i < 0 || i >= s.len() {
        None
    } else if is_ws(s[i]) {
        parse_more_items(s, i + 1)
    } else if s[i] == ']' {
        Some((Seq::empty(), i + 1))
    } else if s[i] == ',' {
        parse_items(s, i + 1)
    } else {
        None
    }
}

/// Table entries, entered just after `{` or after a separator.
pub open spec fn parse_entries(s: Seq<char>, i: int) -> Option<(Seq<(Seq<char>, ValV)>, int)>
    decreases s.len() - i, 1int,
{
    if i < 0 || i >= s.len() {
        None
    } else if is_ws(s[i]) {
        parse_entries(s, i + 1)
    } else if s[i] == '}' {
        Some((Seq::empty(), i + 1))
    } else {
        match parse_key(s, i) {
            None => None,
            Some((key, j)) => {
                let k = skip_ws(s, clamp_idx(s, i + 1, j));
                if 0 <= k < s.len() && s[k] == ':' {
                    let m = clamp_idx(s, i + 1, skip_ws(s, k + 1));
                    match parse_value(s, m, true) {
                        None => None,
                        Some((v, e)) => {
                            match parse_more_entries(s, clamp_idx(s, i + 1, e)) {
                                None => None,
                                Some((rest, z)) => Some((seq![(key, v)] + rest, z)),
                            }
                        },
                    }
                } else {
                    None
                }
            },
        }
    }
}

/// After a table entry: a separator and more entries, or the close.
pub open spec fn parse_more_entries(s: Seq<char>, i: int) -> Option<
    (Seq<(Seq<char>, ValV)>, int),
>
    decreases s.len() - i, 2int,
{
    if i < 0 || i >= s.len() {
        None
    } else if is_ws(s[i]) {
        parse_more_entries(s, i + 1)
    } else if s[i] == '}' {
        Some((Seq::empty(), i + 1))
    } else if s[i] == ',' {
        parse_entries(s, i + 1)
    } else {
        None
    }
}

/// The value a whole payload denotes: one value, possibly surrounded by
/// whitespace, with nothing after it.
pub open spec fn parse_text(s: Seq<char>) -> Option<ValV> {
    let i = skip_ws(s, 0);
    match parse_value(s, i, false) {
        None => None,
        Some((v, j)) => if skip_ws(s, j) == s.len() {
            Some(v)
        } else {
            None
        },
    }
}

/// Element lists read the same from anywhere inside leading whitespace.
pub proof fn lemma_items_ws(s: Seq<char>, i: int)
    requires
        0 <= i <= s.len(),
    ensures
        parse_items(s, i) == parse_items(s, skip_ws(s, i)),
    decreases s.len() - i,
{
    if i < s.len() && is_ws(s[i]) {
        lemma_items_ws(s, i + 1);
    }
}

/// Separators read the same from anywhere inside leading whitespace.
pub proof fn lemma_more_items_ws(s: Seq<char>, i: int)
    requires
        0 <= i <= s.len(),
    ensures
        parse_more_items(s, i) == parse_more_items(s, skip_ws(s, i)),
    decreases s.len() - i,
{
    if i < s.len() && is_ws(s[i]) {
        lemma_more_items_ws(s, i + 1);
    }
}

/// Entry lists read the same from anywhere inside leading whitespace.
pub proof fn lemma_entries_ws(s: Seq<char>, i: int)
    requires
        0 <= i <= s.len(),
    ensures
        parse_entries(s, i) == parse_entries(s, skip_ws(s, i)),
    decreases s.len() - i,
{
    if i < s.len() && is_ws(s[i]) {
        lemma_entries_ws(s, i + 1);
    }
}

/// Separators read the same from anywhere inside leading whitespace.
pub proof fn lemma_more_entries_ws(s: Seq<char>, i: int)
    requires
        0 <= i <= s.len(),
    ensures
        parse_more_entries(s, i) == parse_more_entries(s, skip_ws(s, i)),
    decreases s.len() - i,
{
    if i < s.len() && is_ws(s[i]) {
        lemma_more_entries_ws(s, i + 1);
    }
}

} // verus!
