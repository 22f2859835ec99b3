//! The composite resolver: every field of a schema, recursion into
//! flattened sub-schemas, and the one subcommand slot.

use vstd::prelude::*;
use crate::{Error, ErrV};
use crate::chars::{lower, lower_string};
use crate::resolve::{resolve_field, resolve_field_model};
use crate::schema::{Schema, SchemaV, FieldV, Context, CtxV, strings_view,
    no_nested_subcommand, lemma_flattens_view, flattens_view};
use crate::value::{ValV, Value, lemma_table_view, table_view, str_eq};

verus! {

/// The resolved form of one schema: its plain fields' values, its nested
/// schemas' resolutions, and — at the top level — the subcommand slice.
pub struct Resolution {
    /// Field name and resolved value, in declaration order.
    pub values: Vec<(String, Value)>,
    /// Flatten field name and nested resolution, in declaration order.
    pub nested: Vec<(String, Resolution)>,
    /// The subcommand outcome: `None` when the schema has no subcommand
    /// slot; `Some(None)` for an absent optional subcommand; otherwise the
    /// argument slice to re-parse against the chosen command's grammar.
    pub subcommand: Option<Option<Vec<String>>>,
}

/// The model of a resolution.
pub struct ResolutionV {
    pub values: Seq<(Seq<char>, ValV)>,
    pub nested: Seq<(Seq<char>, ResolutionV)>,
    pub subcommand: Option<Option<Seq<Seq<char>>>>,
}

/// The model of a resolution.
pub open spec fn resolution_view(r: Resolution) -> ResolutionV
    decreases r, 1int,
    via resolution_view_dec
{
    ResolutionV {
        values: table_view(r.values@),
        nested: nested_view(r.nested@),
        subcommand: match r.subcommand {
            None => None,
            Some(None) => Some(None),
            Some(Some(args)) => Some(Some(strings_view(args@))),
        },
    }
}

/// The models of a nested-resolution list.
pub open spec fn nested_view(rs: Seq<(String, Resolution)>) -> Seq<(Seq<char>, ResolutionV)>
    decreases rs, 0int,
    via nested_view_dec
{
    if rs.len() == 0 {
        Seq::empty()
    } else {
        nested_view(rs.drop_last()).push((rs.last().0@, resolution_view(rs.last().1)))
    }
}

#[via_fn]
proof fn resolution_view_dec(r: Resolution) {
    assert(decreases_to!(r => r.nested));
    assert(decreases_to!(r.nested => r.nested@));
}

#[via_fn]
proof fn nested_view_dec(rs: Seq<(String, Resolution)>) {
    if rs.len() != 0 {
        assert(decreases_to!(rs => rs.drop_last()));
        assert(decreases_to!(rs => rs[rs.len() - 1]));
        assert(decreases_to!(rs[rs.len() - 1] => rs[rs.len() - 1].1));
    }
}

impl View for Resolution {
    type V = ResolutionV;

    open spec fn view(&self) -> ResolutionV {
        resolution_view(*self)
    }
}

/// First argument whose case-folded text equals the selected name, at or
/// after `i`.
pub open spec fn arg_pos(args: Seq<Seq<char>>, sel: Seq<char>, i: int) -> Option<int>
    decreases args.len() - i,
{
    if i < 0 || i >= args.len() {
        None
    } else if lower(args[i]) == sel {
        Some(i)
    } else {
        arg_pos(args, sel, i + 1)
    }
}

/// The diagnostic for a selected subcommand missing from the raw
/// arguments.
pub open spec fn no_sub_msg() -> Seq<char> {
    "subcommand name not found among the raw arguments"@
}

/// The model of `parse_subcommand`: no selection is absence; otherwise
/// the raw arguments are sliced from the selected name's token on, with an
/// empty program-name placeholder in front, ready for re-parsing.
pub open spec fn sub_slice_model(
    args: Seq<Seq<char>>,
    selected: Option<Seq<char>>,
) -> Result<Option<Seq<Seq<char>>>, ErrV> {
    match selected {
        None => Ok(None),
        Some(sel) => match arg_pos(args, sel, 0) {
            None => Err(ErrV::External(no_sub_msg())),
            Some(p) => Ok(Some(seq![Seq::<char>::empty()] + args.skip(p))),
        },
    }
}

/// Locates the selected subcommand's token among the raw arguments
/// (case-insensitively) and returns the argument slice from it on,
/// prefixed with an empty program-name placeholder; `Ok(None)` when no
/// subcommand was selected.  The caller re-parses the slice against the
/// chosen command's own grammar.
pub fn parse_subcommand(args: &Vec<String>, selected: &Option<String>) -> (r: Result<
    Option<Vec<String>>,
    Error,
>)
    ensures
        match r {
            Ok(None) => sub_slice_model(strings_view(args@), match selected {
                Some(s) => Some(s@),
                None => None,
            }) == Ok::<Option<Seq<Seq<char>>>, ErrV>(None),
            Ok(Some(slice)) => sub_slice_model(strings_view(args@), match selected {
                Some(s) => Some(s@),
                None => None,
            }) == Ok::<Option<Seq<Seq<char>>>, ErrV>(Some(strings_view(slice@))),
            Err(e) => sub_slice_model(strings_view(args@), match selected {
                Some(s) => Some(s@),
                None => None,
            }) == Err::<Option<Seq<Seq<char>>>, ErrV>(e@),
        },
{
    let sel: &String = match selected {
        None => {
            return Ok(None);
        },
        Some(s) => s,
    };
    let ghost av = strings_view(args@);
    let mut i: usize = 0;
    while i < args.len()
        invariant
            i <= args@.len(),
            av == strings_view(args@),
            (match selected {
                Some(s) => s@ == sel@,
                None => false,
            }),
            arg_pos(av, sel@, 0) == arg_pos(av, sel@, i as int),
        decreases args.len() - i,
    {
        let la = lower_string(args[i].as_str());
        proof {
            assert(av[i as int] == args@[i as int]@);
        }
        if str_eq(la.as_str(), sel.as_str()) {
            let mut out: Vec<String> = Vec::new();
            out.push(String::new());
            let mut k = i;
            while k < args.len()
                invariant
                    i <= k <= args@.len(),
                    av == strings_view(args@),
                    out@.len() == 1 + k - i,
                    out@[0]@ == Seq::<char>::empty(),
                    forall|q: int|
                        0 <= q < k - i ==> (#[trigger] out@[q + 1])@ == av[i + q],
                decreases args.len() - k,
            {
                let a = args[k].clone();
                out.push(a);
                k = k + 1;
            }
            proof {
                assert forall|q: int| 0 <= q < out@.len() implies strings_view(out@)[q]
                    == (seq![Seq::<char>::empty()] + av.skip(i as int))[q] by {
                    if q > 0 {
                        assert(out@[(q - 1) + 1]@ == av[i + (q - 1)]);
                    }
                }
                assert(strings_view(out@) =~= seq![Seq::<char>::empty()] + av.skip(
                    i as int,
                ));
                assert(arg_pos(av, sel@, i as int) == Some(i as int));
                assert(sub_slice_model(strings_view(args@), match selected {
                    Some(s) => Some(s@),
                    None => None::<Seq<char>>,
                }) == Ok::<Option<Seq<Seq<char>>>, ErrV>(Some(strings_view(out@))));
            }
            return Ok(Some(out));
        }
        i = i + 1;
    }
    let m = String::from_str("subcommand name not found among the raw arguments");
    Err(Error::ExternalError(m))
}

/// The diagnostic for an absent subcommand on a field whose type does not
/// permit absence.
pub open spec fn sub_missing_msg(name: Seq<char>) -> Seq<char> {
    "Missing subcommand for non-optional field \""@ + name + "\""@
}

/// The model of the subcommand slot's resolution.
pub open spec fn sub_model(
    name: Seq<char>,
    optional: bool,
    ctx: CtxV,
) -> Result<Option<Seq<Seq<char>>>, ErrV> {
    match sub_slice_model(ctx.raw_args, ctx.selected_command) {
        Err(e) => Err(e),
        Ok(Some(slice)) => Ok(Some(slice)),
        Ok(None) => if optional {
            Ok(None)
        } else {
            Err(ErrV::Missing(sub_missing_msg(name)))
        },
    }
}

/// The model of resolving a field list, in order and fail-fast.
pub open spec fn fields_model(
    fs: Seq<FieldV>,
    ctx: CtxV,
    scope: Option<Seq<char>>,
) -> Result<Seq<(Seq<char>, ValV)>, ErrV>
    decreases fs.len(),
{
    if fs.len() == 0 {
        Ok(Seq::empty())
    } else {
        match resolve_field_model(fs[0], ctx, scope) {
            Err(e) => Err(e),
            Ok(v) => match fields_model(fs.drop_first(), ctx, scope) {
                Err(e) => Err(e),
                Ok(rest) => Ok(seq![(fs[0].name, v)] + rest),
            },
        }
    }
}

/// The model of resolving a schema: its fields, then its flattened
/// sub-schemas — each under its own table scope, or the caller's where it
/// declares none — and, at the top level only, the subcommand slot.
pub open spec fn schema_model(
    s: SchemaV,
    ctx: CtxV,
    scope: Option<Seq<char>>,
    top: bool,
) -> Result<ResolutionV, ErrV>
    decreases s, 1int,
    via schema_model_dec
{
    let eff = match s.table {
        Some(t) => Some(t),
        None => scope,
    };
    match fields_model(s.fields, ctx, eff) {
        Err(e) => Err(e),
        Ok(vals) => match flattens_model(s.flattens, ctx, eff) {
            Err(e) => Err(e),
            Ok(nested) => {
                if top {
                    match s.subcommand {
                        None => Ok(
                            ResolutionV { values: vals, nested, subcommand: None },
                        ),
                        Some((nm, opt)) => match sub_model(nm, opt, ctx) {
                            Err(e) => Err(e),
                            Ok(slice) => Ok(
                                ResolutionV {
                                    values: vals,
                                    nested,
                                    subcommand: Some(slice),
                                },
                            ),
                        },
                    }
                } else {
                    Ok(ResolutionV { values: vals, nested, subcommand: None })
                }
            },
        },
    }
}

/// The model of resolving a flatten list, in order and fail-fast.
pub open spec fn flattens_model(
    fl: Seq<(Seq<char>, SchemaV)>,
    ctx: CtxV,
    scope: Option<Seq<char>>,
) -> Result<Seq<(Seq<char>, ResolutionV)>, ErrV>
    decreases fl, 2int,
    via flattens_model_dec
{
    if fl.len() == 0 {
        Ok(Seq::empty())
    } else {
        match schema_model(fl[0].1, ctx, scope, false) {
            Err(e) => Err(e),
            Ok(sub) => match flattens_model(fl.drop_first(), ctx, scope) {
                Err(e) => Err(e),
                Ok(rest) => Ok(seq![(fl[0].0, sub)] + rest),
            },
        }
    }
}

#[via_fn]
proof fn schema_model_dec(s: SchemaV, ctx: CtxV, scope: Option<Seq<char>>, top: bool) {
    assert(decreases_to!(s => s.flattens));
}

#[via_fn]
proof fn flattens_model_dec(fl: Seq<(Seq<char>, SchemaV)>, ctx: CtxV, scope: Option<
    Seq<char>,
>) {
    if fl.len() != 0 {
        assert(decreases_to!(fl => fl[0]));
        assert(decreases_to!(fl[0] => fl[0].1));
        assert(fl.drop_first() =~= fl.subrange(1, fl.len() as int));
        assert(decreases_to!(fl => fl.subrange(1, fl.len() as int)));
    }
}

/// Resolves a whole schema against the context.
///
/// The schema's own table scope, where declared, overrides the caller's;
/// flattened sub-schemas inherit the environment prefix verbatim.  The
/// subcommand slot is honoured at the top level; declaring one in a
/// nested schema is a definition-time error, excluded here by the
/// precondition (see [`check_no_nested_subcommand`]).
pub fn resolve_schema(s: &Schema, ctx: &Context, scope: &Option<String>) -> (r: Result<
    Resolution,
    Error,
>)
    requires
        no_nested_subcommand(s@.flattens),
    ensures
        match r {
            Ok(v) => schema_model(s@, ctx@, match scope {
                Some(t) => Some(t@),
                None => None,
            }, true) == Ok::<ResolutionV, ErrV>(v@),
            Err(e) => schema_model(s@, ctx@, match scope {
                Some(t) => Some(t@),
                None => None,
            }, true) == Err::<ResolutionV, ErrV>(e@),
        },
{
    resolve_schema_at(s, ctx, scope, true)
}

/// Resolves one schema level; `top` marks the outermost call, the only
/// one whose subcommand slot is read.
fn resolve_schema_at(s: &Schema, ctx: &Context, scope: &Option<String>, top: bool) -> (r:
    Result<Resolution, Error>)
    requires
        no_nested_subcommand(s@.flattens),
        !top ==> s@.subcommand is None,
    ensures
        match r {
            Ok(v) => schema_model(s@, ctx@, match scope {
                Some(t) => Some(t@),
                None => None,
            }, top) == Ok::<ResolutionV, ErrV>(v@),
            Err(e) => schema_model(s@, ctx@, match scope {
                Some(t) => Some(t@),
                None => None,
            }, top) == Err::<ResolutionV, ErrV>(e@),
        },
    decreases s,
{
    let ghost scopev: Option<Seq<char>> = match scope {
        Some(t) => Some(t@),
        None => None,
    };
    let eff: Option<String> = match &s.table {
        Some(t) => Some(t.clone()),
        None => match scope {
            Some(t) => Some(t.clone()),
            None => None,
        },
    };
    let ghost effv: Option<Seq<char>> = match &eff {
        Some(t) => Some(t@),
        None => None,
    };
    proof {
        assert(effv == (match s@.table {
            Some(t) => Some(t),
            None => scopev,
        }));
    }
    let ghost fsv = s@.fields;
    let mut values: Vec<(String, Value)> = Vec::new();
    let mut i: usize = 0;
    proof {
        assert(fsv.skip(0) =~= fsv);
        assert(fields_model(fsv, ctx@, effv) == (match fields_model(fsv.skip(0), ctx@, effv) {
            Err(e) => Err::<Seq<(Seq<char>, ValV)>, ErrV>(e),
            Ok(rest) => Ok(table_view(values@) + rest),
        })) by {
            assert(table_view(values@) =~= Seq::<(Seq<char>, ValV)>::empty());
            match fields_model(fsv, ctx@, effv) {
                Err(e) => {},
                Ok(rest) => {
                    assert(table_view(values@) + rest =~= rest);
                },
            }
        }
    }
    while i < s.fields.len()
        invariant
            i <= s.fields@.len(),
            fsv == s@.fields,
            fsv.len() == s.fields@.len(),
            effv == (match &eff {
                Some(t) => Some(t@),
                None => None::<Seq<char>>,
            }),
            effv == (match s@.table {
                Some(t) => Some(t),
                None => scopev,
            }),
            scopev == (match scope {
                Some(t) => Some(t@),
                None => None::<Seq<char>>,
            }),
            forall|q: int|
                0 <= q < fsv.len() ==> fsv[q] == (#[trigger] s.fields@[q])@,
            fields_model(fsv, ctx@, effv) == (match fields_model(
                fsv.skip(i as int),
                ctx@,
                effv,
            ) {
                Err(e) => Err::<Seq<(Seq<char>, ValV)>, ErrV>(e),
                Ok(rest) => Ok(table_view(values@) + rest),
            }),
        decreases s.fields.len() - i,
    {
        proof {
            let fs = fsv.skip(i as int);
            assert(fs[0] == fsv[i as int]);
            assert(fs.drop_first() =~= fsv.skip(i as int + 1));
        }
        match resolve_field(&s.fields[i], ctx, &eff) {
            Err(e) => {
                proof {
                    let fs = fsv.skip(i as int);
                    assert(resolve_field_model(fs[0], ctx@, effv) == Err::<ValV, ErrV>(e@));
                    assert(fields_model(fsv, ctx@, effv) == Err::<
                        Seq<(Seq<char>, ValV)>,
                        ErrV,
                    >(e@));
                    assert(schema_model(s@, ctx@, scopev, top) == Err::<
                        ResolutionV,
                        ErrV,
                    >(e@));
                }
                return Err(e);
            },
            Ok(v) => {
                let nm = s.fields[i].name.clone();
                let ghost before = values@;
                values.push((nm, v));
                proof {
                    lemma_table_view(values@);
                    lemma_table_view(before);
                    assert forall|q: int| 0 <= q < values@.len() implies table_view(
                        values@,
                    )[q] == table_view(before).push(
                        (fsv[i as int].name, values@[values@.len() - 1].1@),
                    )[q] by {
                        if q < values@.len() - 1 {
                            assert(values@[q] == before[q]);
                        }
                    }
                    assert(table_view(values@) =~= table_view(before).push(
                        (fsv[i as int].name, values@[values@.len() - 1].1@),
                    ));
                    let fs = fsv.skip(i as int);
                    match fields_model(fs.drop_first(), ctx@, effv) {
                        Err(e) => {},
                        Ok(rest) => {
                            assert(table_view(values@) + rest =~= table_view(before) + (seq![
                                (fsv[i as int].name, values@[values@.len() - 1].1@),
                            ] + rest));
                        },
                    }
                }
            },
        }
        i = i + 1;
    }
    proof {
        assert(fsv.skip(fsv.len() as int) =~= Seq::<FieldV>::empty());
        match fields_model(fsv, ctx@, effv) {
            Err(e) => {
                assert(false);
            },
            Ok(vals) => {
                assert(table_view(values@) + Seq::<(Seq<char>, ValV)>::empty() =~= table_view(
                    values@,
                ));
                assert(vals == table_view(values@));
            },
        }
    }
    let ghost flv = s@.flattens;
    proof {
        lemma_flattens_view(s.flattens@);
    }
    let mut nested: Vec<(String, Resolution)> = Vec::new();
    let mut j: usize = 0;
    proof {
        assert(flv.skip(0) =~= flv);
        assert(flattens_model(flv, ctx@, effv) == (match flattens_model(
            flv.skip(0),
            ctx@,
            effv,
        ) {
            Err(e) => Err::<Seq<(Seq<char>, ResolutionV)>, ErrV>(e),
            Ok(rest) => Ok(nested_view(nested@) + rest),
        })) by {
            assert(nested_view(nested@) =~= Seq::<(Seq<char>, ResolutionV)>::empty());
            match flattens_model(flv, ctx@, effv) {
                Err(e) => {},
                Ok(rest) => {
                    assert(nested_view(nested@) + rest =~= rest);
                },
            }
        }
    }
    while j < s.flattens.len()
        invariant
            j <= s.flattens@.len(),
            flv == s@.flattens,
            flv.len() == s.flattens@.len(),
            no_nested_subcommand(flv),
            effv == (match &eff {
                Some(t) => Some(t@),
                None => None::<Seq<char>>,
            }),
            effv == (match s@.table {
                Some(t) => Some(t),
                None => scopev,
            }),
            scopev == (match scope {
                Some(t) => Some(t@),
                None => None::<Seq<char>>,
            }),
            forall|q: int|
                0 <= q < flv.len() ==> flv[q] == ((#[trigger] s.flattens@[q]).0@,
                s.flattens@[q].1@),
            flattens_model(flv, ctx@, effv) == (match flattens_model(
                flv.skip(j as int),
                ctx@,
                effv,
            ) {
                Err(e) => Err::<Seq<(Seq<char>, ResolutionV)>, ErrV>(e),
                Ok(rest) => Ok(nested_view(nested@) + rest),
            }),
            fsv == s@.fields,
            fields_model(fsv, ctx@, effv) == Ok::<Seq<(Seq<char>, ValV)>, ErrV>(
                table_view(values@),
            ),
        decreases s.flattens.len() - j,
    {
        proof {
            let fs = flv.skip(j as int);
            assert(fs[0] == flv[j as int]);
            assert(fs.drop_first() =~= flv.skip(j as int + 1));
            lemma_no_nested_sub_at(flv, j as int);
            assert(decreases_to!(*s => (*s).flattens));
            assert(decreases_to!((*s).flattens => (*s).flattens[j as int]));
            assert(decreases_to!(
                (*s).flattens[j as int] => (*s).flattens[j as int].1));
        }
        match resolve_schema_at(&s.flattens[j].1, ctx, &eff, false) {
            Err(e) => {
                proof {
                    let fs = flv.skip(j as int);
                    assert(schema_model(fs[0].1, ctx@, effv, false) == Err::<
                        ResolutionV,
                        ErrV,
                    >(e@));
                    assert(flattens_model(flv, ctx@, effv) == Err::<
                        Seq<(Seq<char>, ResolutionV)>,
                        ErrV,
                    >(e@));
                    assert(schema_model(s@, ctx@, scopev, top) == Err::<
                        ResolutionV,
                        ErrV,
                    >(e@));
                }
                return Err(e);
            },
            Ok(sub) => {
                let nm = s.flattens[j].0.clone();
                let ghost before = nested@;
                nested.push((nm, sub));
                proof {
                    lemma_nested_view(nested@);
                    lemma_nested_view(before);
                    assert forall|q: int| 0 <= q < nested@.len() implies nested_view(
                        nested@,
                    )[q] == nested_view(before).push(
                        (flv[j as int].0, nested@[nested@.len() - 1].1@),
                    )[q] by {
                        if q < nested@.len() - 1 {
                            assert(nested@[q] == before[q]);
                        }
                    }
                    assert(nested_view(nested@) =~= nested_view(before).push(
                        (flv[j as int].0, nested@[nested@.len() - 1].1@),
                    ));
                    let fs = flv.skip(j as int);
                    match flattens_model(fs.drop_first(), ctx@, effv) {
                        Err(e) => {},
                        Ok(rest) => {
                            assert(nested_view(nested@) + rest =~= nested_view(before)
                                + (seq![
                                (flv[j as int].0, nested@[nested@.len() - 1].1@),
                            ] + rest));
                        },
                    }
                }
            },
        }
        j = j + 1;
    }
    proof {
        assert(flv.skip(flv.len() as int) =~= Seq::<(Seq<char>, SchemaV)>::empty());
        match flattens_model(flv, ctx@, effv) {
            Err(e) => {
                assert(false);
            },
            Ok(ns) => {
                assert(nested_view(nested@) + Seq::<(Seq<char>, ResolutionV)>::empty()
                    =~= nested_view(nested@));
                assert(ns == nested_view(nested@));
            },
        }
    }
    if top {
        match &s.subcommand {
            None => Ok(Resolution { values, nested, subcommand: None }),
            Some(sc) => {
                match parse_subcommand(&ctx.raw_args, &ctx.selected_command) {
                    Err(e) => Err(e),
                    Ok(Some(slice)) => Ok(
                        Resolution { values, nested, subcommand: Some(Some(slice)) },
                    ),
                    Ok(None) => {
                        if sc.optional {
                            Ok(Resolution { values, nested, subcommand: Some(None) })
                        } else {
                            let mut m = String::from_str(
                                "Missing subcommand for non-optional field \"",
                            );
                            m.append(sc.name.as_str());
                            m.append("\"");
                            proof {
                                assert(m@ =~= sub_missing_msg(sc.name@));
                            }
                            Err(Error::MissingArgument(m))
                        }
                    },
                }
            },
        }
    } else {
        Ok(Resolution { values, nested, subcommand: None })
    }
}

/// Element-wise reading of `nested_view`.
pub proof fn lemma_nested_view(rs: Seq<(String, Resolution)>)
    ensures
        nested_view(rs).len() == rs.len(),
        forall|i: int|
            0 <= i < rs.len() ==> nested_view(rs)[i] == ((#[trigger] rs[i]).0@,
            resolution_view(rs[i].1)),
    decreases rs.len(),
{
    if rs.len() != 0 {
        lemma_nested_view(rs.drop_last());
        assert forall|i: int| 0 <= i < rs.len() implies nested_view(rs)[i] == ((
        #[trigger] rs[i]).0@, resolution_view(rs[i].1)) by {
            if i < rs.len() - 1 {
                assert(nested_view(rs)[i] == nested_view(rs.drop_last())[i]);
                assert(rs.drop_last()[i] == rs[i]);
            } else {
                assert(rs.last() == rs[i]);
            }
        }
    }
}

/// Each member of a subcommand-free flatten list is itself
/// subcommand-free.
pub proof fn lemma_no_nested_sub_at(fl: Seq<(Seq<char>, SchemaV)>, i: int)
    requires
        no_nested_subcommand(fl),
        0 <= i < fl.len(),
    ensures
        fl[i].1.subcommand is None,
        no_nested_subcommand(fl[i].1.flattens),
    decreases fl.len(),
{
    if i < fl.len() - 1 {
        lemma_no_nested_sub_at(fl.drop_last(), i);
        assert(fl.drop_last()[i] == fl[i]);
    } else {
        assert(fl.last() == fl[i]);
    }
}

/// Executable check that no nested schema declares a subcommand.
pub fn check_no_nested_subcommand(fl: &Vec<(String, Schema)>) -> (r: bool)
    ensures
        r == no_nested_subcommand(flattens_view(fl@)),
    decreases fl,
{
    proof {
        lemma_flattens_view(fl@);
    }
    let ghost flv = flattens_view(fl@);
    let mut k: usize = 0;
    let mut ok = true;
    proof {
        assert(flv.take(0) =~= Seq::<(Seq<char>, SchemaV)>::empty());
    }
    while k < fl.len()
        invariant
            k <= fl@.len(),
            flv == flattens_view(fl@),
            flv.len() == fl@.len(),
            forall|q: int|
                0 <= q < fl@.len() ==> flv[q] == ((#[trigger] fl@[q]).0@, fl@[q].1@),
            ok == no_nested_subcommand(flv.take(k as int)),
        decreases fl@.len() - k,
    {
        let has_sub = match &fl[k].1.subcommand {
            Some(sc) => true,
            None => false,
        };
        proof {
            assert(decreases_to!(*fl => (*fl)[k as int]));
            assert(decreases_to!((*fl)[k as int] => (*fl)[k as int].1));
            assert(decreases_to!(
                (*fl)[k as int].1 => (*fl)[k as int].1.flattens));
        }
        let sub_ok = check_no_nested_subcommand(&fl[k].1.flattens);
        ok = ok && !has_sub && sub_ok;
        k = k + 1;
        proof {
            let pre = flv.take(k as int);
            assert(pre.drop_last() =~= flv.take(k - 1));
            assert(pre.last() == flv[k - 1]);
            assert(flv[k - 1].1 == fl@[k - 1].1@);
        }
    }
    proof {
        assert(flv.take(fl@.len() as int) =~= flv);
    }
    ok
}

} // verus!
