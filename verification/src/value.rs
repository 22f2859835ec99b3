//! The structured value model: what a configuration-file tree holds and what
//! the engine's deserializer produces.

use vstd::prelude::*;
use vstd::string::StrSliceExecFns;

verus! {

/// Mathematical model of a structured value.
///
/// A fractional or out-of-range number is carried as its decimal text,
/// exactly as it stood in the source.
pub enum ValV {
    Null,
    Bool(bool),
    Int(int),
    Float(Seq<char>),
    Str(Seq<char>),
    Array(Seq<ValV>),
    Table(Seq<(Seq<char>, ValV)>),
}

/// A structured value: the leaf of a configuration-file tree and the result
/// of deserializing a raw payload.
///
/// `Float` carries the decimal text of a number that is fractional or does
/// not fit a signed 64-bit integer; the engine never does arithmetic on it.
#[derive(Debug, PartialEq)]
pub enum Value {
    Null,
    Bool(bool),
    Int(i64),
    Float(String),
    Str(String),
    Array(Vec<Value>),
    Table(Vec<(String, Value)>),
}

/// The model of a structured value.
pub open spec fn value_view(v: Value) -> ValV
    decreases v,
    via value_view_dec
{
    match v {
        Value::Null => ValV::Null,
        Value::Bool(b) => ValV::Bool(b),
        Value::Int(n) => ValV::Int(n as int),
        Value::Float(s) => ValV::Float(s@),
        Value::Str(s) => ValV::Str(s@),
        Value::Array(elems) => ValV::Array(views_of(elems@)),
        Value::Table(entries) => ValV::Table(table_view(entries@)),
    }
}

/// The models of a sequence of values, in order.
pub open spec fn views_of(s: Seq<Value>) -> Seq<ValV>
    decreases s,
    via views_of_dec
{
    if s.len() == 0 {
        Seq::empty()
    } else {
        views_of(s.drop_last()).push(value_view(s.last()))
    }
}

/// The model of a sequence of table entries, in order.
pub open spec fn table_view(s: Seq<(String, Value)>) -> Seq<(Seq<char>, ValV)>
    decreases s,
    via table_view_dec
{
    if s.len() == 0 {
        Seq::empty()
    } else {
        table_view(s.drop_last()).push((s.last().0@, value_view(s.last().1)))
    }
}

#[via_fn]
proof fn value_view_dec(v: Value) {
    match v {
        Value::Array(elems) => {
            assert(decreases_to!(v => v->Array_0));
            assert(decreases_to!(elems => elems@));
        },
        Value::Table(entries) => {
            assert(decreases_to!(v => v->Table_0));
            assert(decreases_to!(entries => entries@));
        },
        _ => {},
    }
}

#[via_fn]
proof fn views_of_dec(s: Seq<Value>) {
    if s.len() != 0 {
        assert(decreases_to!(s => s.drop_last()));
        assert(decreases_to!(s => s[s.len() - 1]));
    }
}

#[via_fn]
proof fn table_view_dec(s: Seq<(String, Value)>) {
    if s.len() != 0 {
        assert(decreases_to!(s => s.drop_last()));
        assert(decreases_to!(s => s[s.len() - 1]));
        assert(decreases_to!(s[s.len() - 1] => s[s.len() - 1].1));
    }
}

/// Element-wise reading of `views_of`.
pub proof fn lemma_views_of(s: Seq<Value>)
    ensures
        views_of(s).len() == s.len(),
        forall|i: int| 0 <= i < s.len() ==> views_of(s)[i] == value_view(#[trigger] s[i]),
    decreases s.len(),
{
    if s.len() != 0 {
        lemma_views_of(s.drop_last());
        assert forall|i: int| 0 <= i < s.len() implies views_of(s)[i] == value_view(
            #[trigger] s[i],
        ) by {
            if i < s.len() - 1 {
                assert(views_of(s)[i] == views_of(s.drop_last())[i]);
                assert(s.drop_last()[i] == s[i]);
            } else {
                assert(s.last() == s[i]);
            }
        }
    }
}

/// Element-wise reading of `table_view`.
pub proof fn lemma_table_view(s: Seq<(String, Value)>)
    ensures
        table_view(s).len() == s.len(),
        forall|i: int|
            0 <= i < s.len() ==> table_view(s)[i] == ((#[trigger] s[i]).0@, value_view(s[i].1)),
    decreases s.len(),
{
    if s.len() != 0 {
        lemma_table_view(s.drop_last());
        assert forall|i: int| 0 <= i < s.len() implies table_view(s)[i] == ((
        #[trigger] s[i]).0@, value_view(s[i].1)) by {
            if i < s.len() - 1 {
                assert(table_view(s)[i] == table_view(s.drop_last())[i]);
                assert(s.drop_last()[i] == s[i]);
            } else {
                assert(s.last() == s[i]);
            }
        }
    }
}

impl View for Value {
    type V = ValV;

    open spec fn view(&self) -> ValV {
        value_view(*self)
    }
}

impl Clone for Value {
    /// A structural copy: the copy has the same model.
    fn clone(&self) -> (r: Value)
        ensures
            r@ == self@,
        decreases self,
    {
        match self {
            Value::Null => Value::Null,
            Value::Bool(b) => Value::Bool(*b),
            Value::Int(n) => Value::Int(*n),
            Value::Float(s) => Value::Float(s.clone()),
            Value::Str(s) => Value::Str(s.clone()),
            Value::Array(elems) => {
                let mut out: Vec<Value> = Vec::new();
                let mut i: usize = 0;
                while i < elems.len()
                    invariant
                        i <= elems.len(),
                        out@.len() == i,
                        *self is Array,
                        elems == self->Array_0,
                        forall|k: int|
                            0 <= k < i ==> value_view(#[trigger] out@[k]) == value_view(
                                elems@[k],
                            ),
                    decreases elems.len() - i,
                {
                    proof {
                        assert(decreases_to!(*self => (*self)->Array_0));
                        assert(decreases_to!((*elems) => (*elems)[i as int]));
                        assert(decreases_to!(*self => (*elems)[i as int]));
                    }
                    let c = elems[i].clone();
                    out.push(c);
                    i = i + 1;
                }
                proof {
                    lemma_views_of(out@);
                    lemma_views_of(elems@);
                    assert forall|k: int| 0 <= k < out@.len() implies views_of(out@)[k]
                        == views_of(elems@)[k] by {
                        assert(value_view(out@[k]) == value_view(elems@[k]));
                    }
                    assert(views_of(out@) =~= views_of(elems@));
                }
                Value::Array(out)
            },
            Value::Table(entries) => {
                let mut out: Vec<(String, Value)> = Vec::new();
                let mut i: usize = 0;
                while i < entries.len()
                    invariant
                        i <= entries.len(),
                        out@.len() == i,
                        *self is Table,
                        entries == self->Table_0,
                        forall|k: int|
                            0 <= k < i ==> (#[trigger] out@[k]).0@ == entries@[k].0@
                                && value_view(out@[k].1) == value_view(entries@[k].1),
                    decreases entries.len() - i,
                {
                    proof {
                        assert(decreases_to!(*self => (*self)->Table_0));
                        assert(decreases_to!((*entries) => (*entries)[i as int]));
                        assert(decreases_to!(
                            (*entries)[i as int] => (*entries)[i as int].1));
                        assert(decreases_to!(*self => (*entries)[i as int].1));
                    }
                    let k = entries[i].0.clone();
                    let c = entries[i].1.clone();
                    out.push((k, c));
                    i = i + 1;
                }
                proof {
                    lemma_table_view(out@);
                    lemma_table_view(entries@);
                    assert forall|k: int| 0 <= k < out@.len() implies table_view(out@)[k]
                        == table_view(entries@)[k] by {
                        assert(out@[k].0@ == entries@[k].0@);
                        assert(value_view(out@[k].1) == value_view(entries@[k].1));
                    }
                    assert(table_view(out@) =~= table_view(entries@));
                }
                Value::Table(out)
            },
        }
    }
}

/// Looks a key up among a table's entries: the first entry whose key matches.
pub open spec fn entries_get(entries: Seq<(Seq<char>, ValV)>, key: Seq<char>) -> Option<ValV>
    decreases entries.len(),
{
    if entries.len() == 0 {
        None
    } else if entries[0].0 == key {
        Some(entries[0].1)
    } else {
        entries_get(entries.drop_first(), key)
    }
}

/// Executable table lookup, against the model of `entries_get`.
pub fn table_get<'a>(entries: &'a Vec<(String, Value)>, key: &str) -> (r: Option<&'a Value>)
    ensures
        match r {
            Some(v) => entries_get(table_view(entries@), key@) == Some(v@),
            None => entries_get(table_view(entries@), key@) is None,
        },
{
    proof {
        lemma_table_view(entries@);
        assert(table_view(entries@).skip(0) =~= table_view(entries@));
    }
    let mut i: usize = 0;
    while i < entries.len()
        invariant
            i <= entries.len(),
            table_view(entries@).len() == entries@.len(),
            forall|k: int|
                0 <= k < entries@.len() ==> table_view(entries@)[k] == ((
                #[trigger] entries@[k]).0@, value_view(entries@[k].1)),
            entries_get(table_view(entries@), key@) == entries_get(
                table_view(entries@).skip(i as int),
                key@,
            ),
        decreases entries.len() - i,
    {
        let hit = {
            let ek: &String = &entries[i].0;
            str_eq(ek.as_str(), key)
        };
        proof {
            let s = table_view(entries@).skip(i as int);
            assert(s[0] == table_view(entries@)[i as int]);
            reveal_with_fuel(entries_get, 2);
            assert(s.drop_first() =~= table_view(entries@).skip(i as int + 1));
        }
        if hit {
            return Some(&entries[i].1);
        }
        i = i + 1;
    }
    proof {
        assert(table_view(entries@).skip(i as int) =~= Seq::<(Seq<char>, ValV)>::empty());
        reveal_with_fuel(entries_get, 1);
    }
    None
}

/// String equality, by contents.
pub fn str_eq(a: &str, b: &str) -> (r: bool)
    ensures
        r == (a@ == b@),
{
    let an = a.unicode_len();
    let bn = b.unicode_len();
    if an != bn {
        proof {
            assert(a@ != b@) by {
                assert(a@.len() != b@.len());
            }
        }
        return false;
    }
    let mut i: usize = 0;
    while i < an
        invariant
            an == a@.len(),
            an == b@.len(),
            i <= an,
            forall|k: int| 0 <= k < i ==> a@[k] == b@[k],
        decreases an - i,
    {
        if a.get_char(i) != b.get_char(i) {
            return false;
        }
        i = i + 1;
    }
    proof {
        assert(a@ =~= b@);
    }
    true
}

} // verus!
