//! The table path resolver: a dotted key path descends through nested
//! tables of the merged configuration tree to a leaf, whose text form is
//! the raw payload handed to the deserializer.

use vstd::prelude::*;
use crate::Error;
use crate::chars::string_of;
use crate::text::{text_of, to_text};
use crate::value::{ValV, Value, entries_get, table_view, table_get, str_eq};

verus! {

/// First `.` at or after `i`, or the end.
pub open spec fn dot_pos(s: Seq<char>, i: int) -> int
    decreases s.len() - i,
{
    if i < 0 || i >= s.len() {
        s.len() as int
    } else if s[i] == '.' {
        i
    } else {
        dot_pos(s, i + 1)
    }
}

/// `dot_pos` stays between `i` and the end.
pub proof fn lemma_dot_pos(s: Seq<char>, i: int)
    requires
        0 <= i <= s.len(),
    ensures
        i <= dot_pos(s, i) <= s.len(),
        forall|k: int| i <= k < dot_pos(s, i) ==> #[trigger] s[k] != '.',
        dot_pos(s, i) < s.len() ==> s[dot_pos(s, i)] == '.',
    decreases s.len() - i,
{
    if i < s.len() && s[i] != '.' {
        lemma_dot_pos(s, i + 1);
    }
}

/// The path segments from `i` on: the text split on `.`.
pub open spec fn split_from(s: Seq<char>, i: int) -> Seq<Seq<char>>
    decreases s.len() - i,
{
    let d0 = dot_pos(s, i);
    let d = if d0 < i {
        i
    } else if d0 > s.len() {
        s.len() as int
    } else {
        d0
    };
    if d >= s.len() {
        seq![s.subrange(if i <= s.len() {
            i
        } else {
            s.len() as int
        }, s.len() as int)]
    } else {
        seq![s.subrange(i, d)] + split_from(s, d + 1)
    }
}

/// The segments of a dotted path.  An empty text yields one empty segment.
pub open spec fn split_path(s: Seq<char>) -> Seq<Seq<char>> {
    split_from(s, 0)
}

/// First `.` at or after `i`, executably.
pub fn dot_pos_x(s: &Vec<char>, i: usize) -> (r: usize)
    requires
        i <= s@.len(),
    ensures
        r as int == dot_pos(s@, i as int),
        i <= r <= s@.len(),
{
    let mut k = i;
    while k < s.len()
        invariant
            i <= k <= s@.len(),
            dot_pos(s@, i as int) == dot_pos(s@, k as int),
        decreases s@.len() - k,
    {
        if s[k] == '.' {
            return k;
        }
        k = k + 1;
    }
    k
}

/// Executable path splitting.
pub fn split_path_x(p: &str) -> (r: Vec<String>)
    ensures
        segs_view(r@) == split_path(p@),
        r@.len() >= 1,
{
    let s = crate::chars::chars_of(p);
    let mut out: Vec<String> = Vec::new();
    let mut cur: usize = 0;
    proof {
        assert(segs_view(out@) =~= Seq::<Seq<char>>::empty());
        assert(split_path(p@) == segs_view(out@) + split_from(s@, 0));
    }
    loop
        invariant_except_break
            cur <= s@.len(),
            s@ == p@,
            split_path(p@) == segs_view(out@) + split_from(s@, cur as int),
        ensures
            segs_view(out@) == split_path(p@),
            out@.len() >= 1,
        decreases s@.len() - cur,
    {
        let d = dot_pos_x(&s, cur);
        let seg = crate::reader::copy_range(&s, cur, d);
        let segs = string_of(&seg);
        let ghost before = out@;
        out.push(segs);
        proof {
            assert(segs_view(out@) =~= segs_view(before).push(seg@));
        }
        if d >= s.len() {
            proof {
                assert(split_from(s@, cur as int) =~= seq![
                    s@.subrange(cur as int, s@.len() as int),
                ]);
                assert(segs_view(before) + split_from(s@, cur as int) =~= segs_view(out@));
            }
            break ;
        }
        proof {
            assert(split_from(s@, cur as int) =~= seq![s@.subrange(cur as int, d as int)]
                + split_from(s@, d + 1));
            assert(segs_view(before) + split_from(s@, cur as int) =~= segs_view(out@)
                + split_from(s@, d + 1));
        }
        cur = d + 1;
    }
    out
}

/// The models of a segment list.
pub open spec fn segs_view(segs: Seq<String>) -> Seq<Seq<char>> {
    Seq::new(segs.len(), |i: int| segs[i]@)
}

/// Outcome of descending through nested tables.
pub enum SubTableOut {
    /// The table the path leads to.
    Found(Seq<(Seq<char>, ValV)>),
    /// Some segment is missing: the caller falls back to its next source.
    Absent,
    /// Some segment names a value that is not a table; carries that
    /// segment.
    NotTable(Seq<char>),
}

/// Descends through nested tables along the segments starting at `from`.
pub open spec fn sub_table(
    tree: Seq<(Seq<char>, ValV)>,
    segs: Seq<Seq<char>>,
    from: int,
) -> SubTableOut
    decreases segs.len() - from,
{
    if from < 0 || from >= segs.len() {
        SubTableOut::Found(tree)
    } else {
        match entries_get(tree, segs[from]) {
            None => SubTableOut::Absent,
            Some(v) => match v {
                ValV::Table(sub) => sub_table(sub, segs, from + 1),
                _ => SubTableOut::NotTable(segs[from]),
            },
        }
    }
}

/// The diagnostic for a path running through a non-table value.
pub open spec fn not_table_msg(seg: Seq<char>) -> Seq<char> {
    "Field "@ + seg + " is found in configuration files but it is not a table"@
}

/// Executable descent through nested tables.
fn sub_table_x<'a>(
    tree: &'a Vec<(String, Value)>,
    segs: &Vec<String>,
    from: usize,
) -> (r: Result<Option<&'a Vec<(String, Value)>>, Error>)
    requires
        from <= segs@.len(),
    ensures
        match r {
            Ok(Some(sub)) => sub_table(table_view(tree@), segs_view(segs@), from as int)
                == SubTableOut::Found(table_view(sub@)),
            Ok(None) => sub_table(table_view(tree@), segs_view(segs@), from as int)
                is Absent,
            Err(e) => sub_table(table_view(tree@), segs_view(segs@), from as int) matches
                SubTableOut::NotTable(seg) && e == Error::FailedParse(
                e->FailedParse_0,
            ) && e->FailedParse_0@ == not_table_msg(seg),
        },
    decreases segs@.len() - from,
{
    if from >= segs.len() {
        return Ok(Some(tree));
    }
    let seg: &String = &segs[from];
    proof {
        assert(segs_view(segs@)[from as int] == segs@[from as int]@);
    }
    match table_get(tree, seg.as_str()) {
        None => Ok(None),
        Some(v) => {
            match v {
                Value::Table(sub) => sub_table_x(sub, segs, from + 1),
                _ => {
                    let mut m = String::new();
                    m.append("Field ");
                    m.append(seg.as_str());
                    m.append(" is found in configuration files but it is not a table");
                    proof {
                        assert(m@ =~= not_table_msg(seg@));
                    }
                    Err(Error::FailedParse(m))
                },
            }
        },
    }
}

/// Outcome of one configuration-file lookup.
pub enum FieldLookup {
    /// The raw payload: the leaf's text form.
    Payload(Seq<char>),
    /// Nothing at that path: the caller falls back to its next source.
    Absent,
    /// The path ran through a non-table value named by the segment.
    BadPath(Seq<char>),
}

/// The model of `find_field_in_table`: the field name is split on `.`, its
/// last segment is the key, the earlier ones — prefixed by the table
/// scope's segments, if a scope is given — name nested tables.
pub open spec fn field_lookup(
    tree: Seq<(Seq<char>, ValV)>,
    table: Option<Seq<char>>,
    field: Seq<char>,
) -> FieldLookup {
    let fsegs = split_path(field);
    let key = fsegs.last();
    let lead = match table {
        None => fsegs.drop_last(),
        Some(t) => split_path(t) + fsegs.drop_last(),
    };
    match sub_table(tree, lead, 0) {
        SubTableOut::Absent => FieldLookup::Absent,
        SubTableOut::NotTable(seg) => FieldLookup::BadPath(seg),
        SubTableOut::Found(sub) => match entries_get(sub, key) {
            None => FieldLookup::Absent,
            Some(v) => FieldLookup::Payload(text_of(v)),
        },
    }
}

/// A dotted path always has at least one segment.
pub proof fn lemma_split_nonempty(s: Seq<char>)
    ensures
        split_path(s).len() >= 1,
{
}

/// The path traversal law: a lookup of `field` under table scope `scope`
/// descends along the scope's segments first, so the whole queried path is
/// `scope.field`.  A scope whose first segment is missing from the tree is
/// mere absence — the caller falls through to its next source — while a
/// first segment naming a non-table value is a hard error carrying that
/// segment.
pub proof fn lemma_scoped_lookup(
    tree: Seq<(Seq<char>, ValV)>,
    scope: Seq<char>,
    field: Seq<char>,
)
    ensures
        field_lookup(tree, Some(scope), field) == (match sub_table(
            tree,
            split_path(scope) + split_path(field).drop_last(),
            0,
        ) {
            SubTableOut::Absent => FieldLookup::Absent,
            SubTableOut::NotTable(seg) => FieldLookup::BadPath(seg),
            SubTableOut::Found(sub) => match entries_get(sub, split_path(field).last()) {
                None => FieldLookup::Absent,
                Some(v) => FieldLookup::Payload(text_of(v)),
            },
        }),
        entries_get(tree, split_path(scope)[0]) is None ==> field_lookup(
            tree,
            Some(scope),
            field,
        ) is Absent,
        (match entries_get(tree, split_path(scope)[0]) {
            Some(v) => !(v is Table),
            None => false,
        }) ==> field_lookup(tree, Some(scope), field) == FieldLookup::BadPath(
            split_path(scope)[0],
        ),
{
    lemma_split_nonempty(scope);
    let lead = split_path(scope) + split_path(field).drop_last();
    assert(lead[0] == split_path(scope)[0]);
}

/// Looks one field up in the merged configuration tree.
///
/// The dotted `field_name` is resolved under the dotted `table` scope, if
/// one is given; the leaf found is serialized to the intermediate text
/// form.  A missing segment is `Ok(None)` — absence lets the caller fall
/// back — while a segment naming a non-table value is a hard error.
pub fn find_field_in_table(
    config: &Vec<(String, Value)>,
    table: Option<String>,
    field_name: String,
) -> (r: Result<Option<String>, Error>)
    ensures
        match r {
            Ok(Some(payload)) => field_lookup(table_view(config@), match table {
                Some(t) => Some(t@),
                None => None,
            }, field_name@) == FieldLookup::Payload(payload@),
            Ok(None) => field_lookup(table_view(config@), match table {
                Some(t) => Some(t@),
                None => None,
            }, field_name@) is Absent,
            Err(e) => field_lookup(table_view(config@), match table {
                Some(t) => Some(t@),
                None => None,
            }, field_name@) matches FieldLookup::BadPath(seg) && e == Error::FailedParse(
                e->FailedParse_0,
            ) && e->FailedParse_0@ == not_table_msg(seg),
        },
{
    let mut fsegs = split_path_x(field_name.as_str());
    let ghost fsegs0 = segs_view(fsegs@);
    let key = match fsegs.pop() {
        Some(k) => k,
        None => {
            proof {
                assert(false);
            }
            return Ok(None);
        },
    };
    proof {
        assert(key@ == split_path(field_name@).last());
        assert(segs_view(fsegs@) =~= split_path(field_name@).drop_last()) by {
            assert(fsegs@ =~= fsegs@);
            assert forall|q: int| 0 <= q < fsegs@.len() implies segs_view(fsegs@)[q]
                == fsegs0.drop_last()[q] by {}
        }
    }
    let ghost fv = segs_view(fsegs@);
    let lead: Vec<String> = match &table {
        None => fsegs,
        Some(t) => {
            let mut l = split_path_x(t.as_str());
            let ghost lv = segs_view(l@);
            l.append(&mut fsegs);
            proof {
                assert(segs_view(l@) =~= lv + fv) by {
                    assert forall|q: int| 0 <= q < l@.len() implies segs_view(l@)[q] == (lv
                        + fv)[q] by {}
                }
            }
            l
        },
    };
    match sub_table_x(config, &lead, 0) {
        Err(e) => Err(e),
        Ok(None) => Ok(None),
        Ok(Some(sub)) => {
            match table_get(sub, key.as_str()) {
                None => Ok(None),
                Some(v) => Ok(Some(to_text(v))),
            }
        },
    }
}

} // verus!
