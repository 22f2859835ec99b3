//! The file merge policy: several configuration trees combine into one,
//! table nodes merging recursively and later trees winning at the leaves.

use vstd::prelude::*;
use crate::value::{ValV, Value, entries_get, table_view, table_get, lemma_table_view, str_eq,
    value_view};

verus! {

/// The merge of two trees: entries of `base` keep their order, each
/// overridden by `over` where `over` binds the same key; entries of `over`
/// whose keys `base` lacks follow, in `over`'s order.
pub open spec fn merge_tables(
    base: Seq<(Seq<char>, ValV)>,
    over: Seq<(Seq<char>, ValV)>,
) -> Seq<(Seq<char>, ValV)>
    decreases base, 1int,
{
    merged_base(base, over) + fresh_entries(over, base)
}

/// `base`'s entries, each overridden by `over` where it binds the key.
pub open spec fn merged_base(
    base: Seq<(Seq<char>, ValV)>,
    over: Seq<(Seq<char>, ValV)>,
) -> Seq<(Seq<char>, ValV)>
    decreases base, 0int,
    via merged_base_dec
{
    if base.len() == 0 {
        Seq::empty()
    } else {
        seq![
            (base[0].0, match entries_get(over, base[0].0) {
                None => base[0].1,
                Some(w) => merge_value(base[0].1, w),
            }),
        ] + merged_base(base.drop_first(), over)
    }
}

/// Two values at one key: tables merge recursively, anything else yields
/// the later value.
pub open spec fn merge_value(v: ValV, w: ValV) -> ValV
    decreases v, 2int,
{
    match v {
        ValV::Table(bsub) => match w {
            ValV::Table(osub) => ValV::Table(merge_tables(bsub, osub)),
            _ => w,
        },
        _ => w,
    }
}

#[via_fn]
proof fn merged_base_dec(base: Seq<(Seq<char>, ValV)>, over: Seq<(Seq<char>, ValV)>) {
    if base.len() != 0 {
        assert(decreases_to!(base => base[0]));
        assert(decreases_to!(base[0] => base[0].1));
        assert(base.drop_first() =~= base.subrange(1, base.len() as int));
        assert(decreases_to!(base => base.subrange(1, base.len() as int)));
    }
}

/// `over`'s entries whose keys `base` does not bind, in order.
pub open spec fn fresh_entries(
    over: Seq<(Seq<char>, ValV)>,
    base: Seq<(Seq<char>, ValV)>,
) -> Seq<(Seq<char>, ValV)>
    decreases over.len(),
{
    if over.len() == 0 {
        Seq::empty()
    } else if entries_get(base, over[0].0) is None {
        seq![over[0]] + fresh_entries(over.drop_first(), base)
    } else {
        fresh_entries(over.drop_first(), base)
    }
}

/// Looking a key up in a concatenation reads the left part first.
pub proof fn lemma_entries_get_concat(
    a: Seq<(Seq<char>, ValV)>,
    b: Seq<(Seq<char>, ValV)>,
    k: Seq<char>,
)
    ensures
        entries_get(a + b, k) == match entries_get(a, k) {
            Some(v) => Some(v),
            None => entries_get(b, k),
        },
    decreases a.len(),
{
    if a.len() == 0 {
        assert(a + b =~= b);
    } else {
        assert((a + b)[0] == a[0]);
        assert((a + b).drop_first() =~= a.drop_first() + b);
        lemma_entries_get_concat(a.drop_first(), b, k);
    }
}

/// What `merged_base` binds: exactly `base`'s keys, with merged values.
pub proof fn lemma_merged_base_get(
    base: Seq<(Seq<char>, ValV)>,
    over: Seq<(Seq<char>, ValV)>,
    k: Seq<char>,
)
    ensures
        entries_get(merged_base(base, over), k) == match entries_get(base, k) {
            None => None::<ValV>,
            Some(v) => Some(match entries_get(over, k) {
                None => v,
                Some(w) => merge_value(v, w),
            }),
        },
    decreases base.len(),
{
    if base.len() != 0 {
        lemma_merged_base_get(base.drop_first(), over, k);
        let m = merged_base(base, over);
        assert(m[0] == (base[0].0, match entries_get(over, base[0].0) {
            None => base[0].1,
            Some(w) => merge_value(base[0].1, w),
        }));
        assert(m.drop_first() =~= merged_base(base.drop_first(), over));
    }
}

/// What `fresh_entries` binds: `over`'s keys that `base` lacks.
pub proof fn lemma_fresh_entries_get(
    over: Seq<(Seq<char>, ValV)>,
    base: Seq<(Seq<char>, ValV)>,
    k: Seq<char>,
)
    ensures
        entries_get(fresh_entries(over, base), k) == if entries_get(base, k) is None {
            entries_get(over, k)
        } else {
            None::<ValV>
        },
    decreases over.len(),
{
    if over.len() != 0 {
        lemma_fresh_entries_get(over.drop_first(), base, k);
        if entries_get(base, over[0].0) is None {
            let f = fresh_entries(over, base);
            assert(f[0] == over[0]);
            assert(f.drop_first() =~= fresh_entries(over.drop_first(), base));
        }
    }
}

/// The merge override law: where both trees bind a key, the merged tree
/// holds the later tree's value — merged recursively for two tables — and
/// where only one binds it, that value stays.
pub proof fn lemma_merge_get(
    base: Seq<(Seq<char>, ValV)>,
    over: Seq<(Seq<char>, ValV)>,
    k: Seq<char>,
)
    ensures
        entries_get(merge_tables(base, over), k) == match entries_get(base, k) {
            Some(v) => Some(match entries_get(over, k) {
                None => v,
                Some(w) => merge_value(v, w),
            }),
            None => entries_get(over, k),
        },
{
    lemma_entries_get_concat(merged_base(base, over), fresh_entries(over, base), k);
    lemma_merged_base_get(base, over, k);
    lemma_fresh_entries_get(over, base, k);
}

/// Executable merge of two trees.
pub fn merge_tables_x(base: &Vec<(String, Value)>, over: &Vec<(String, Value)>) -> (r: Vec<
    (String, Value),
>)
    ensures
        table_view(r@) == merge_tables(table_view(base@), table_view(over@)),
    decreases base,
{
    let ghost bv = table_view(base@);
    let ghost ov = table_view(over@);
    proof {
        lemma_table_view(base@);
        lemma_table_view(over@);
    }
    let mut out: Vec<(String, Value)> = Vec::new();
    let mut i: usize = 0;
    proof {
        assert(bv.skip(0) =~= bv);
        assert(table_view(out@) =~= Seq::<(Seq<char>, ValV)>::empty());
        assert(merged_base(bv, ov) == table_view(out@) + merged_base(bv.skip(0), ov));
    }
    while i < base.len()
        invariant
            i <= base@.len(),
            bv == table_view(base@),
            ov == table_view(over@),
            bv.len() == base@.len(),
            forall|q: int|
                0 <= q < base@.len() ==> bv[q] == ((#[trigger] base@[q]).0@, value_view(
                    base@[q].1,
                )),
            merged_base(bv, ov) == table_view(out@) + merged_base(bv.skip(i as int), ov),
        decreases base.len() - i,
    {
        proof {
            let s = bv.skip(i as int);
            assert(s[0] == bv[i as int]);
            assert(s.drop_first() =~= bv.skip(i as int + 1));
        }
        let key: &String = &base[i].0;
        let ghost before = out@;
        let merged: Value = match table_get(over, key.as_str()) {
            None => base[i].1.clone(),
            Some(w) => {
                match (&base[i].1, w) {
                    (Value::Table(bsub), Value::Table(osub)) => {
                        proof {
                            assert(decreases_to!(*base => (*base)[i as int]));
                            assert(decreases_to!(
                                (*base)[i as int] => (*base)[i as int].1));
                            assert(decreases_to!(
                                (*base)[i as int].1 => (*base)[i as int].1->Table_0));
                        }
                        Value::Table(merge_tables_x(bsub, osub))
                    },
                    _ => w.clone(),
                }
            },
        };
        let kc = key.clone();
        out.push((kc, merged));
        i = i + 1;
        proof {
            lemma_table_view(out@);
            lemma_table_view(before);
            assert forall|q: int| 0 <= q < out@.len() implies table_view(out@)[q] == (
            table_view(before) + seq![
                (bv[i - 1].0, match entries_get(ov, bv[i - 1].0) {
                    None => bv[i - 1].1,
                    Some(w) => merge_value(bv[i - 1].1, w),
                }),
            ])[q] by {
                if q < out@.len() - 1 {
                    assert(out@[q] == before[q]);
                }
            }
            assert(table_view(out@) =~= table_view(before) + seq![
                (bv[i - 1].0, match entries_get(ov, bv[i - 1].0) {
                    None => bv[i - 1].1,
                    Some(w) => merge_value(bv[i - 1].1, w),
                }),
            ]);
            assert(merged_base(bv.skip(i - 1), ov) == seq![
                (bv[i - 1].0, match entries_get(ov, bv[i - 1].0) {
                    None => bv[i - 1].1,
                    Some(w) => merge_value(bv[i - 1].1, w),
                }),
            ] + merged_base(bv.skip(i as int), ov));
            assert(merged_base(bv, ov) == table_view(out@) + merged_base(
                bv.skip(i as int),
                ov,
            ));
        }
    }
    proof {
        assert(bv.skip(base@.len() as int) =~= Seq::<(Seq<char>, ValV)>::empty());
        assert(merged_base(bv, ov) =~= table_view(out@));
    }
    let mut j: usize = 0;
    proof {
        assert(ov.skip(0) =~= ov);
        assert(fresh_entries(ov, bv) == fresh_entries(ov.skip(0), bv));
    }
    let ghost mid = table_view(out@);
    while j < over.len()
        invariant
            j <= over@.len(),
            bv == table_view(base@),
            ov == table_view(over@),
            ov.len() == over@.len(),
            forall|q: int|
                0 <= q < over@.len() ==> ov[q] == ((#[trigger] over@[q]).0@, value_view(
                    over@[q].1,
                )),
            mid == merged_base(bv, ov),
            table_view(out@) == mid + fresh_entries(ov, bv).subrange(
                0,
                fresh_entries(ov, bv).len() - fresh_entries(ov.skip(j as int), bv).len(),
            ),
            fresh_entries(ov.skip(j as int), bv).len() <= fresh_entries(ov, bv).len(),
            fresh_entries(ov, bv).skip(
                fresh_entries(ov, bv).len() - fresh_entries(ov.skip(j as int), bv).len(),
            ) == fresh_entries(ov.skip(j as int), bv),
        decreases over.len() - j,
    {
        proof {
            let s = ov.skip(j as int);
            assert(s[0] == ov[j as int]);
            assert(s.drop_first() =~= ov.skip(j as int + 1));
        }
        let key: &String = &over[j].0;
        let ghost done = fresh_entries(ov, bv).len() - fresh_entries(
            ov.skip(j as int),
            bv,
        ).len();
        match table_get(base, key.as_str()) {
            Some(_) => {
                proof {
                    assert(fresh_entries(ov.skip(j as int), bv) == fresh_entries(
                        ov.skip(j as int + 1),
                        bv,
                    ));
                }
            },
            None => {
                let kc = key.clone();
                let vc = over[j].1.clone();
                let ghost before = out@;
                out.push((kc, vc));
                proof {
                    lemma_table_view(out@);
                    lemma_table_view(before);
                    let fe = fresh_entries(ov, bv);
                    assert(fresh_entries(ov.skip(j as int), bv) == seq![ov[j as int]]
                        + fresh_entries(ov.skip(j as int + 1), bv));
                    assert(fe.skip(done)[0] == ov[j as int]);
                    assert(fe[done] == ov[j as int]);
                    assert forall|q: int| 0 <= q < out@.len() implies table_view(out@)[q]
                        == (mid + fe.subrange(0, done + 1))[q] by {
                        if q < out@.len() - 1 {
                            assert(out@[q] == before[q]);
                            assert(table_view(before)[q] == table_view(out@)[q]);
                        } else {
                            assert(fe.subrange(0, done + 1)[done] == fe[done]);
                        }
                    }
                    assert(table_view(out@) =~= mid + fe.subrange(0, done + 1));
                    assert(fe.skip(done + 1) =~= fe.skip(done).drop_first());
                    assert(fe.skip(done).drop_first() =~= fresh_entries(
                        ov.skip(j as int + 1),
                        bv,
                    ));
                }
            },
        }
        j = j + 1;
    }
    proof {
        assert(ov.skip(over@.len() as int) =~= Seq::<(Seq<char>, ValV)>::empty());
        assert(fresh_entries(ov.skip(over@.len() as int), bv) == Seq::<
            (Seq<char>, ValV),
        >::empty());
        let fe = fresh_entries(ov, bv);
        assert(fe.subrange(0, fe.len() as int) =~= fe);
        assert(table_view(out@) == mid + fe);
    }
    out
}

/// Merges an ordered list of trees, later trees winning.
pub open spec fn merge_list(trees: Seq<Seq<(Seq<char>, ValV)>>) -> Seq<(Seq<char>, ValV)>
    decreases trees.len(),
{
    if trees.len() == 0 {
        Seq::empty()
    } else {
        merge_tables(merge_list(trees.drop_last()), trees.last())
    }
}

/// The models of a list of trees.
pub open spec fn trees_view(trees: Seq<Vec<(String, Value)>>) -> Seq<Seq<(Seq<char>, ValV)>> {
    Seq::new(trees.len(), |i: int| table_view(trees[i]@))
}

/// Executable merge of an ordered list of trees.
pub fn merge_trees(trees: &Vec<Vec<(String, Value)>>) -> (r: Vec<(String, Value)>)
    ensures
        table_view(r@) == merge_list(trees_view(trees@)),
{
    let mut out: Vec<(String, Value)> = Vec::new();
    let mut i: usize = 0;
    proof {
        assert(trees_view(trees@).subrange(0, 0) =~= Seq::<Seq<(Seq<char>, ValV)>>::empty());
        assert(table_view(out@) =~= Seq::<(Seq<char>, ValV)>::empty());
    }
    while i < trees.len()
        invariant
            i <= trees@.len(),
            table_view(out@) == merge_list(trees_view(trees@).subrange(0, i as int)),
        decreases trees.len() - i,
    {
        out = merge_tables_x(&out, &trees[i]);
        i = i + 1;
        proof {
            let tv = trees_view(trees@);
            assert(tv.subrange(0, i as int).drop_last() =~= tv.subrange(0, i - 1));
            assert(tv.subrange(0, i as int).last() == tv[i - 1]);
            assert(tv[i - 1] == table_view(trees@[i - 1]@));
        }
    }
    proof {
        assert(trees_view(trees@).subrange(0, trees@.len() as int) =~= trees_view(trees@));
    }
    out
}

} // verus!
