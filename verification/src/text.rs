//! The engine's intermediate text form of structured values: a compact,
//! JSON-like rendering.  Configuration-file leaves are serialized to this
//! form before being handed to the deserializer, so the two agree.

use vstd::prelude::*;
use crate::chars::is_ws;
use crate::num::{int_text, push_i64_text};
use crate::value::{ValV, Value, views_of, table_view, lemma_views_of, lemma_table_view,
    value_view};

verus! {

/// The text `null`.
pub open spec fn null_text() -> Seq<char> {
    seq!['n', 'u', 'l', 'l']
}

/// The text `true`.
pub open spec fn true_text() -> Seq<char> {
    seq!['t', 'r', 'u', 'e']
}

/// The text `false`.
pub open spec fn false_text() -> Seq<char> {
    seq!['f', 'a', 'l', 's', 'e']
}

/// Escaping of one character inside a quoted string.
pub open spec fn esc_char(c: char) -> Seq<char> {
    if c == '"' {
        seq!['\\', '"']
    } else if c == '\\' {
        seq!['\\', '\\']
    } else if c == '\n' {
        seq!['\\', 'n']
    } else if c == '\r' {
        seq!['\\', 'r']
    } else if c == '\t' {
        seq!['\\', 't']
    } else {
        seq![c]
    }
}

/// Escaping of a whole string body.
pub open spec fn escape(s: Seq<char>) -> Seq<char>
    decreases s.len(),
{
    if s.len() == 0 {
        Seq::empty()
    } else {
        escape(s.drop_last()) + esc_char(s.last())
    }
}

/// A quoted, escaped string.
pub open spec fn quoted(s: Seq<char>) -> Seq<char> {
    seq!['"'] + escape(s) + seq!['"']
}

/// The text of a structured value.
pub open spec fn text_of(v: ValV) -> Seq<char>
    decreases v, 0int,
{
    match v {
        ValV::Null => null_text(),
        ValV::Bool(b) => if b {
            true_text()
        } else {
            false_text()
        },
        ValV::Int(n) => int_text(n),
        ValV::Float(s) => s,
        ValV::Str(s) => quoted(s),
        ValV::Array(elems) => seq!['['] + items_text(elems) + seq![']'],
        ValV::Table(entries) => seq!['{'] + entries_text(entries) + seq!['}'],
    }
}

/// The comma-joined texts of array elements.
pub open spec fn items_text(elems: Seq<ValV>) -> Seq<char>
    decreases elems, 1int,
{
    if elems.len() == 0 {
        Seq::empty()
    } else if elems.len() == 1 {
        text_of(elems.last())
    } else {
        items_text(elems.drop_last()) + seq![','] + text_of(elems.last())
    }
}

/// The comma-joined `"key":value` texts of table entries.
pub open spec fn entries_text(entries: Seq<(Seq<char>, ValV)>) -> Seq<char>
    decreases entries, 1int,
{
    if entries.len() == 0 {
        Seq::empty()
    } else if entries.len() == 1 {
        entry_text(entries.last())
    } else {
        entries_text(entries.drop_last()) + seq![','] + entry_text(entries.last())
    }
}

/// The `"key":value` text of one table entry.
pub open spec fn entry_text(e: (Seq<char>, ValV)) -> Seq<char>
    decreases e, 0int,
{
    quoted(e.0) + seq![':'] + text_of(e.1)
}

/// Appends the escaped body of a string.
pub fn push_escaped(s: &str, out: &mut Vec<char>)
    ensures
        final(out)@ == old(out)@ + escape(s@),
{
    let cs = crate::chars::chars_of(s);
    let mut i: usize = 0;
    while i < cs.len()
        invariant
            cs@ == s@,
            i <= cs.len(),
            out@ == old(out)@ + escape(s@.take(i as int)),
        decreases cs.len() - i,
    {
        let c = cs[i];
        if c == '"' {
            out.push('\\');
            out.push('"');
        } else if c == '\\' {
            out.push('\\');
            out.push('\\');
        } else if c == '\n' {
            out.push('\\');
            out.push('n');
        } else if c == '\r' {
            out.push('\\');
            out.push('r');
        } else if c == '\t' {
            out.push('\\');
            out.push('t');
        } else {
            out.push(c);
        }
        i = i + 1;
        proof {
            let t = s@.take(i as int);
            assert(t.drop_last() =~= s@.take(i - 1));
            assert(t.last() == s@[i - 1]);
            assert(out@ =~= old(out)@ + escape(t));
        }
    }
    proof {
        assert(s@.take(s@.len() as int) =~= s@);
    }
}

/// Appends the quoted, escaped form of a string.
pub fn push_quoted(s: &str, out: &mut Vec<char>)
    ensures
        final(out)@ == old(out)@ + quoted(s@),
{
    out.push('"');
    push_escaped(s, out);
    out.push('"');
    proof {
        assert(out@ =~= old(out)@ + quoted(s@));
    }
}

/// Appends the text of a structured value.
pub fn push_value_text(v: &Value, out: &mut Vec<char>)
    ensures
        final(out)@ == old(out)@ + text_of(v@),
    decreases v,
{
    match v {
        Value::Null => {
            out.push('n');
            out.push('u');
            out.push('l');
            out.push('l');
            proof {
                assert(out@ =~= old(out)@ + null_text());
            }
        },
        Value::Bool(b) => {
            if *b {
                out.push('t');
                out.push('r');
                out.push('u');
                out.push('e');
                proof {
                    assert(out@ =~= old(out)@ + true_text());
                }
            } else {
                out.push('f');
                out.push('a');
                out.push('l');
                out.push('s');
                out.push('e');
                proof {
                    assert(out@ =~= old(out)@ + false_text());
                }
            }
        },
        Value::Int(n) => {
            push_i64_text(*n, out);
        },
        Value::Float(s) => {
            let cs = crate::chars::chars_of(s.as_str());
            let mut i: usize = 0;
            while i < cs.len()
                invariant
                    cs@ == s@,
                    i <= cs.len(),
                    out@ == old(out)@ + s@.take(i as int),
                decreases cs.len() - i,
            {
                out.push(cs[i]);
                i = i + 1;
                proof {
                    assert(s@.take(i as int) =~= s@.take(i - 1).push(s@[i - 1]));
                }
            }
            proof {
                assert(s@.take(s@.len() as int) =~= s@);
            }
        },
        Value::Str(s) => {
            push_quoted(s.as_str(), out);
        },
        Value::Array(elems) => {
            proof {
                lemma_views_of(elems@);
            }
            let ghost vs = views_of(elems@);
            out.push('[');
            let mut i: usize = 0;
            while i < elems.len()
                invariant
                    *v is Array,
                    elems == v->Array_0,
                    vs == views_of(elems@),
                    views_of(elems@).len() == elems@.len(),
                    forall|k: int|
                        0 <= k < elems@.len() ==> views_of(elems@)[k] == value_view(
                            #[trigger] elems@[k],
                        ),
                    i <= elems.len(),
                    out@ == old(out)@ + seq!['['] + items_text(vs.take(i as int)),
                decreases elems.len() - i,
            {
                if i > 0 {
                    out.push(',');
                }
                proof {
                    assert(decreases_to!(*v => (*v)->Array_0));
                    assert(decreases_to!((*elems) => (*elems)[i as int]));
                    assert(decreases_to!(*v => (*elems)[i as int]));
                }
                push_value_text(&elems[i], out);
                i = i + 1;
                proof {
                    let t = vs.take(i as int);
                    assert(t.last() == vs[i - 1]);
                    assert(t.drop_last() =~= vs.take(i - 1));
                    if i == 1 {
                        assert(out@ =~= old(out)@ + seq!['['] + items_text(t));
                    } else {
                        assert(items_text(t) == items_text(vs.take(i - 1)) + seq![',']
                            + text_of(vs[i - 1]));
                        assert(out@ =~= old(out)@ + seq!['['] + items_text(t));
                    }
                }
            }
            out.push(']');
            proof {
                assert(vs.take(vs.len() as int) =~= vs);
                assert(out@ =~= old(out)@ + text_of(v@));
            }
        },
        Value::Table(entries) => {
            proof {
                lemma_table_view(entries@);
            }
            let ghost vs = table_view(entries@);
            out.push('{');
            let mut i: usize = 0;
            while i < entries.len()
                invariant
                    *v is Table,
                    entries == v->Table_0,
                    vs == table_view(entries@),
                    table_view(entries@).len() == entries@.len(),
                    forall|k: int|
                        0 <= k < entries@.len() ==> table_view(entries@)[k] == ((
                        #[trigger] entries@[k]).0@, value_view(entries@[k].1)),
                    i <= entries.len(),
                    out@ == old(out)@ + seq!['{'] + entries_text(vs.take(i as int)),
                decreases entries.len() - i,
            {
                if i > 0 {
                    out.push(',');
                }
                push_quoted(entries[i].0.as_str(), out);
                out.push(':');
                proof {
                    assert(decreases_to!(*v => (*v)->Table_0));
                    assert(decreases_to!((*entries) => (*entries)[i as int]));
                    assert(decreases_to!(
                        (*entries)[i as int] => (*entries)[i as int].1));
                    assert(decreases_to!(*v => (*entries)[i as int].1));
                }
                push_value_text(&entries[i].1, out);
                i = i + 1;
                proof {
                    let t = vs.take(i as int);
                    assert(t.last() == vs[i - 1]);
                    assert(t.drop_last() =~= vs.take(i - 1));
                    assert(entry_text(vs[i - 1]) == quoted(entries@[i - 1].0@) + seq![':']
                        + text_of(value_view(entries@[i - 1].1)));
                    if i == 1 {
                        assert(out@ =~= old(out)@ + seq!['{'] + entries_text(t));
                    } else {
                        assert(entries_text(t) == entries_text(vs.take(i - 1)) + seq![',']
                            + entry_text(vs[i - 1]));
                        assert(out@ =~= old(out)@ + seq!['{'] + entries_text(t));
                    }
                }
            }
            out.push('}');
            proof {
                assert(vs.take(vs.len() as int) =~= vs);
                assert(out@ =~= old(out)@ + text_of(v@));
            }
        },
    }
}

/// The text of a structured value, as a `String`.
pub fn to_text(v: &Value) -> (r: String)
    ensures
        r@ == text_of(v@),
{
    let mut out: Vec<char> = Vec::new();
    push_value_text(v, &mut out);
    crate::chars::string_of(&out)
}

} // verus!
