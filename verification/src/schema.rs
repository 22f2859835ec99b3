//! The schema: each field's name, its ordered source list and its optional
//! default; nested schemas composed by flattening; at most one subcommand
//! slot.  The resolution context carries the three raw source views.

use vstd::prelude::*;
use crate::chars::{lower, lower_string};
use crate::env::EnvData;
use crate::value::{ValV, Value, value_view};

verus! {

/// One candidate source of a field's raw value.  `None` for the key means
/// it is derived from the field name and ambient scope at resolution time.
pub enum SourceSpec {
    /// A matched command-line argument.
    Clap { key: Option<String> },
    /// An environment variable.
    Env { key: Option<String> },
    /// A configuration-file key, a dotted path.
    Config { key: Option<String> },
}

/// The model of a source.
pub enum SrcV {
    Clap(Option<Seq<char>>),
    Env(Option<Seq<char>>),
    Config(Option<Seq<char>>),
}

/// The model of one source.
pub open spec fn src_view(s: SourceSpec) -> SrcV {
    match s {
        SourceSpec::Clap { key } => SrcV::Clap(match key {
            Some(k) => Some(k@),
            None => None,
        }),
        SourceSpec::Env { key } => SrcV::Env(match key {
            Some(k) => Some(k@),
            None => None,
        }),
        SourceSpec::Config { key } => SrcV::Config(match key {
            Some(k) => Some(k@),
            None => None,
        }),
    }
}

impl View for SourceSpec {
    type V = SrcV;

    open spec fn view(&self) -> SrcV {
        src_view(*self)
    }
}

/// The schema of one plain field.
pub struct FieldSchema {
    /// The declared field name.
    pub name: String,
    /// The ordered source list, first source tried first.
    pub sources: Vec<SourceSpec>,
    /// The default, consulted only after every source missed.
    pub default: Option<Value>,
}

/// The model of a field schema.
pub struct FieldV {
    pub name: Seq<char>,
    pub sources: Seq<SrcV>,
    pub default: Option<ValV>,
}

/// The model of a field schema.
pub open spec fn field_view(f: FieldSchema) -> FieldV {
    FieldV {
        name: f.name@,
        sources: Seq::new(f.sources@.len(), |i: int| src_view(f.sources@[i])),
        default: match f.default {
            Some(d) => Some(value_view(d)),
            None => None,
        },
    }
}

impl View for FieldSchema {
    type V = FieldV;

    open spec fn view(&self) -> FieldV {
        field_view(*self)
    }
}

/// The subcommand slot: its field name, and whether absence is legal.
pub struct SubcommandSchema {
    pub name: String,
    pub optional: bool,
}

/// A schema tree: plain fields, flattened sub-schemas, and at most one
/// subcommand slot.  Subcommands are forbidden in nested schemas.
pub struct Schema {
    /// The table scope this schema declares for its configuration-file
    /// lookups, or `None` to inherit the caller's.
    pub table: Option<String>,
    pub fields: Vec<FieldSchema>,
    pub flattens: Vec<(String, Schema)>,
    pub subcommand: Option<SubcommandSchema>,
}

/// The model of a schema tree.
pub struct SchemaV {
    pub table: Option<Seq<char>>,
    pub fields: Seq<FieldV>,
    pub flattens: Seq<(Seq<char>, SchemaV)>,
    pub subcommand: Option<(Seq<char>, bool)>,
}

/// The model of a schema tree.
pub open spec fn schema_view(s: Schema) -> SchemaV
    decreases s, 1int,
    via schema_view_dec
{
    SchemaV {
        table: match s.table {
            Some(t) => Some(t@),
            None => None,
        },
        fields: Seq::new(s.fields@.len(), |i: int| field_view(s.fields@[i])),
        flattens: flattens_view(s.flattens@),
        subcommand: match s.subcommand {
            Some(sc) => Some((sc.name@, sc.optional)),
            None => None,
        },
    }
}

/// The models of a flatten list.
pub open spec fn flattens_view(fl: Seq<(String, Schema)>) -> Seq<(Seq<char>, SchemaV)>
    decreases fl, 0int,
    via flattens_view_dec
{
    if fl.len() == 0 {
        Seq::empty()
    } else {
        flattens_view(fl.drop_last()).push((fl.last().0@, schema_view(fl.last().1)))
    }
}

#[via_fn]
proof fn schema_view_dec(s: Schema) {
    assert(decreases_to!(s => s.flattens));
    assert(decreases_to!(s.flattens => s.flattens@));
}

#[via_fn]
proof fn flattens_view_dec(fl: Seq<(String, Schema)>) {
    if fl.len() != 0 {
        assert(decreases_to!(fl => fl.drop_last()));
        assert(decreases_to!(fl => fl[fl.len() - 1]));
        assert(decreases_to!(fl[fl.len() - 1] => fl[fl.len() - 1].1));
    }
}

/// Element-wise reading of `flattens_view`.
pub proof fn lemma_flattens_view(fl: Seq<(String, Schema)>)
    ensures
        flattens_view(fl).len() == fl.len(),
        forall|i: int|
            0 <= i < fl.len() ==> flattens_view(fl)[i] == ((#[trigger] fl[i]).0@,
            schema_view(fl[i].1)),
    decreases fl.len(),
{
    if fl.len() != 0 {
        lemma_flattens_view(fl.drop_last());
        assert forall|i: int| 0 <= i < fl.len() implies flattens_view(fl)[i] == ((
        #[trigger] fl[i]).0@, schema_view(fl[i].1)) by {
            if i < fl.len() - 1 {
                assert(flattens_view(fl)[i] == flattens_view(fl.drop_last())[i]);
                assert(fl.drop_last()[i] == fl[i]);
            } else {
                assert(fl.last() == fl[i]);
            }
        }
    }
}

impl View for Schema {
    type V = SchemaV;

    open spec fn view(&self) -> SchemaV {
        schema_view(*self)
    }
}

/// No schema reachable through flattening declares a subcommand.
pub open spec fn no_nested_subcommand(fl: Seq<(Seq<char>, SchemaV)>) -> bool
    decreases fl,
    via no_nested_subcommand_dec
{
    if fl.len() == 0 {
        true
    } else {
        fl.last().1.subcommand is None && no_nested_subcommand(fl.last().1.flattens)
            && no_nested_subcommand(fl.drop_last())
    }
}

#[via_fn]
proof fn no_nested_subcommand_dec(fl: Seq<(Seq<char>, SchemaV)>) {
    if fl.len() != 0 {
        assert(decreases_to!(fl => fl.drop_last()));
        assert(decreases_to!(fl => fl[fl.len() - 1]));
        assert(decreases_to!(fl[fl.len() - 1] => fl[fl.len() - 1].1));
        assert(decreases_to!(fl[fl.len() - 1].1 => fl[fl.len() - 1].1.flattens));
    }
}

/// Every field of the list has at least one source or a default.
pub open spec fn fields_well_sourced(fs: Seq<FieldV>) -> bool {
    forall|i: int|
        0 <= i < fs.len() ==> (#[trigger] fs[i]).sources.len() > 0 || fs[i].default is Some
}

/// The definition-time invariant of a schema: every field, at every
/// nesting depth, has at least one source or a default.
pub open spec fn schema_well_sourced(s: SchemaV) -> bool
    decreases s, 2int,
    via schema_well_sourced_dec
{
    fields_well_sourced(s.fields) && flattens_well_sourced(s.flattens)
}

/// Well-sourcedness of every flattened sub-schema.
pub open spec fn flattens_well_sourced(fl: Seq<(Seq<char>, SchemaV)>) -> bool
    decreases fl, 3int,
    via flattens_well_sourced_dec
{
    if fl.len() == 0 {
        true
    } else {
        schema_well_sourced(fl.last().1) && flattens_well_sourced(fl.drop_last())
    }
}

#[via_fn]
proof fn schema_well_sourced_dec(s: SchemaV) {
    assert(decreases_to!(s => s.flattens));
}

#[via_fn]
proof fn flattens_well_sourced_dec(fl: Seq<(Seq<char>, SchemaV)>) {
    if fl.len() != 0 {
        assert(decreases_to!(fl => fl.drop_last()));
        assert(decreases_to!(fl => fl[fl.len() - 1]));
        assert(decreases_to!(fl[fl.len() - 1] => fl[fl.len() - 1].1));
    }
}

/// Checks the definition-time invariant: a field with neither a source
/// nor a default can never resolve, so declaring one is an error.
pub fn check_well_sourced(s: &Schema) -> (r: bool)
    ensures
        r == schema_well_sourced(s@),
    decreases s,
{
    let mut ok = true;
    let mut i: usize = 0;
    while i < s.fields.len()
        invariant
            i <= s.fields@.len(),
            s@.fields.len() == s.fields@.len(),
            forall|q: int|
                0 <= q < s.fields@.len() ==> s@.fields[q] == (#[trigger] s.fields@[q])@,
            ok == fields_well_sourced(s@.fields.take(i as int)),
        decreases s.fields.len() - i,
    {
        let f = &s.fields[i];
        let has_default = match &f.default {
            Some(d) => true,
            None => false,
        };
        let field_ok = f.sources.len() > 0 || has_default;
        ok = ok && field_ok;
        i = i + 1;
        proof {
            let pre = s@.fields.take(i as int);
            assert(field_ok == ((#[trigger] pre[i - 1]).sources.len() > 0 || pre[i - 1].default
                is Some));
            assert forall|q: int| 0 <= q < pre.len() && ok implies (
            #[trigger] pre[q]).sources.len() > 0 || pre[q].default is Some by {
                if q < pre.len() - 1 {
                    assert(s@.fields.take(i - 1)[q] == pre[q]);
                }
            }
            if !ok {
                if fields_well_sourced(pre) {
                    if !field_ok {
                        assert(!(pre[i - 1].sources.len() > 0 || pre[i - 1].default is Some));
                    } else {
                        assert(!fields_well_sourced(s@.fields.take(i - 1)));
                        let bad = choose|q: int|
                            0 <= q < i - 1 && !((#[trigger] s@.fields.take(i - 1)[q]).sources.len()
                                > 0 || s@.fields.take(i - 1)[q].default is Some);
                        assert(pre[bad] == s@.fields.take(i - 1)[bad]);
                    }
                }
            }
        }
    }
    proof {
        assert(s@.fields.take(s@.fields.len() as int) =~= s@.fields);
        lemma_flattens_view(s.flattens@);
        assert(flattens_well_sourced(s@.flattens.take(0)));
    }
    let mut j: usize = 0;
    while j < s.flattens.len()
        invariant
            j <= s.flattens@.len(),
            s@.flattens.len() == s.flattens@.len(),
            forall|q: int|
                0 <= q < s.flattens@.len() ==> s@.flattens[q] == ((
                #[trigger] s.flattens@[q]).0@, s.flattens@[q].1@),
            ok == (fields_well_sourced(s@.fields) && flattens_well_sourced(
                s@.flattens.take(j as int),
            )),
        decreases s.flattens.len() - j,
    {
        proof {
            assert(decreases_to!(*s => (*s).flattens));
            assert(decreases_to!((*s).flattens => (*s).flattens[j as int]));
            assert(decreases_to!(
                (*s).flattens[j as int] => (*s).flattens[j as int].1));
        }
        let sub_ok = check_well_sourced(&s.flattens[j].1);
        ok = ok && sub_ok;
        j = j + 1;
        proof {
            let pre = s@.flattens.take(j as int);
            assert(pre.drop_last() =~= s@.flattens.take(j - 1));
            assert(pre.last() == s@.flattens[j - 1]);
            assert(s@.flattens[j - 1].1 == s.flattens@[j - 1].1@);
        }
    }
    proof {
        assert(s@.flattens.take(s@.flattens.len() as int) =~= s@.flattens);
    }
    ok
}

/// The command-line keys one source list contributes: for each `Clap`
/// source, its explicit key or the field name.
pub open spec fn srcs_clap_keys(srcs: Seq<SrcV>, field: Seq<char>) -> Seq<Seq<char>>
    decreases srcs.len(),
{
    if srcs.len() == 0 {
        Seq::empty()
    } else {
        srcs_clap_keys(srcs.drop_last(), field) + (match srcs.last() {
            SrcV::Clap(k) => seq![
                match k {
                    Some(k) => k,
                    None => field,
                },
            ],
            _ => Seq::empty(),
        })
    }
}

/// The command-line keys a field list contributes, in declaration order.
pub open spec fn fields_clap_keys(fs: Seq<FieldV>) -> Seq<Seq<char>>
    decreases fs.len(),
{
    if fs.len() == 0 {
        Seq::empty()
    } else {
        fields_clap_keys(fs.drop_last()) + srcs_clap_keys(fs.last().sources, fs.last().name)
    }
}

/// The command-line grammar a schema implies: every argument key its
/// fields and flattened sub-schemas may consume, in declaration order.
pub open spec fn schema_clap_keys(s: SchemaV) -> Seq<Seq<char>>
    decreases s, 1int,
    via schema_clap_keys_dec
{
    fields_clap_keys(s.fields) + flattens_clap_keys(s.flattens)
}

/// The command-line keys of a flatten list.
pub open spec fn flattens_clap_keys(fl: Seq<(Seq<char>, SchemaV)>) -> Seq<Seq<char>>
    decreases fl, 2int,
    via flattens_clap_keys_dec
{
    if fl.len() == 0 {
        Seq::empty()
    } else {
        flattens_clap_keys(fl.drop_last()) + schema_clap_keys(fl.last().1)
    }
}

#[via_fn]
proof fn schema_clap_keys_dec(s: SchemaV) {
    assert(decreases_to!(s => s.flattens));
}

#[via_fn]
proof fn flattens_clap_keys_dec(fl: Seq<(Seq<char>, SchemaV)>) {
    if fl.len() != 0 {
        assert(decreases_to!(fl => fl.drop_last()));
        assert(decreases_to!(fl => fl[fl.len() - 1]));
        assert(decreases_to!(fl[fl.len() - 1] => fl[fl.len() - 1].1));
    }
}

/// Collects the command-line keys a schema implies: the projection the
/// external matcher builds its grammar from.
pub fn clap_keys(s: &Schema) -> (r: Vec<String>)
    ensures
        strings_view(r@) == schema_clap_keys(s@),
    decreases s,
{
    let mut out: Vec<String> = Vec::new();
    let mut i: usize = 0;
    proof {
        assert(strings_view(out@) =~= Seq::<Seq<char>>::empty());
        assert(fields_clap_keys(s@.fields.take(0)) =~= Seq::<Seq<char>>::empty());
    }
    while i < s.fields.len()
        invariant
            i <= s.fields@.len(),
            s@.fields.len() == s.fields@.len(),
            forall|q: int|
                0 <= q < s.fields@.len() ==> s@.fields[q] == (#[trigger] s.fields@[q])@,
            strings_view(out@) == fields_clap_keys(s@.fields.take(i as int)),
        decreases s.fields.len() - i,
    {
        let f = &s.fields[i];
        let ghost keys_before = strings_view(out@);
        let mut k: usize = 0;
        proof {
            assert(srcs_clap_keys(f@.sources.take(0), f@.name) =~= Seq::<Seq<char>>::empty());
            assert(strings_view(out@) =~= keys_before + srcs_clap_keys(
                f@.sources.take(0),
                f@.name,
            ));
        }
        while k < f.sources.len()
            invariant
                k <= f.sources@.len(),
                f == &s.fields[i as int],
                f@.sources.len() == f.sources@.len(),
                f@.name == f.name@,
                forall|q: int|
                    0 <= q < f.sources@.len() ==> f@.sources[q] == src_view(
                        #[trigger] f.sources@[q],
                    ),
                strings_view(out@) == keys_before + srcs_clap_keys(
                    f@.sources.take(k as int),
                    f@.name,
                ),
            decreases f.sources.len() - k,
        {
            let ghost before = out@;
            proof {
                let pre = f@.sources.take(k + 1);
                assert(pre.drop_last() =~= f@.sources.take(k as int));
                assert(pre.last() == f@.sources[k as int]);
                assert(f@.sources[k as int] == src_view(f.sources@[k as int]));
            }
            match &f.sources[k] {
                SourceSpec::Clap { key } => {
                    let kk: String = match key {
                        Some(k) => k.clone(),
                        None => f.name.clone(),
                    };
                    proof {
                        assert(kk@ == (match f@.sources[k as int] {
                            SrcV::Clap(ek) => match ek {
                                Some(ek) => ek,
                                None => f@.name,
                            },
                            _ => f@.name,
                        }));
                    }
                    out.push(kk);
                    proof {
                        let pre = f@.sources.take(k as int + 1);
                        let tail = (match pre.last() {
                            SrcV::Clap(ek) => seq![
                                match ek {
                                    Some(ek) => ek,
                                    None => f@.name,
                                },
                            ],
                            _ => Seq::<Seq<char>>::empty(),
                        });
                        assert(pre.len() == k + 1);
                        assert(srcs_clap_keys(pre, f@.name) == srcs_clap_keys(
                            pre.drop_last(),
                            f@.name,
                        ) + tail);
                        assert(srcs_clap_keys(pre.drop_last(), f@.name) == srcs_clap_keys(
                            f@.sources.take(k as int),
                            f@.name,
                        ));
                        assert(tail.len() == 1);
                        assert(tail[0] == out@[out@.len() - 1]@);
                        assert(strings_view(out@) =~= keys_before + srcs_clap_keys(
                            pre,
                            f@.name,
                        )) by {
                            assert(strings_view(before).len() == before.len());
                            assert(strings_view(out@).len() == out@.len());
                            assert forall|q: int|
                                0 <= q < out@.len() implies strings_view(out@)[q] == (
                            keys_before + srcs_clap_keys(pre, f@.name))[q] by {
                                assert(strings_view(out@)[q] == out@[q]@);
                                if q < before.len() {
                                    assert(out@[q] == before[q]);
                                    assert(strings_view(before)[q] == before[q]@);
                                } else {
                                    assert(q == before.len());
                                    assert(out@[q] == out@[out@.len() - 1]);
                                }
                            }
                        }
                    }
                },
                _ => {
                    proof {
                        let pre = f@.sources.take(k + 1);
                        assert(srcs_clap_keys(pre, f@.name) =~= srcs_clap_keys(
                            f@.sources.take(k as int),
                            f@.name,
                        ));
                    }
                },
            }
            k = k + 1;
        }
        i = i + 1;
        proof {
            assert(f@.sources.take(f@.sources.len() as int) =~= f@.sources);
            let pre = s@.fields.take(i as int);
            assert(pre.drop_last() =~= s@.fields.take(i - 1));
            assert(pre.last() == s@.fields[i - 1]);
        }
    }
    proof {
        assert(s@.fields.take(s@.fields.len() as int) =~= s@.fields);
        lemma_flattens_view(s.flattens@);
        assert(flattens_clap_keys(s@.flattens.take(0)) =~= Seq::<Seq<char>>::empty());
        assert(strings_view(out@) + flattens_clap_keys(s@.flattens.take(0)) =~= strings_view(
            out@,
        ));
    }
    let ghost field_keys = strings_view(out@);
    let mut j: usize = 0;
    while j < s.flattens.len()
        invariant
            j <= s.flattens@.len(),
            s@.flattens.len() == s.flattens@.len(),
            field_keys == fields_clap_keys(s@.fields),
            forall|q: int|
                0 <= q < s.flattens@.len() ==> s@.flattens[q] == ((
                #[trigger] s.flattens@[q]).0@, s.flattens@[q].1@),
            strings_view(out@) == field_keys + flattens_clap_keys(
                s@.flattens.take(j as int),
            ),
        decreases s.flattens.len() - j,
    {
        proof {
            assert(decreases_to!(*s => (*s).flattens));
            assert(decreases_to!((*s).flattens => (*s).flattens[j as int]));
            assert(decreases_to!(
                (*s).flattens[j as int] => (*s).flattens[j as int].1));
        }
        let mut sub = clap_keys(&s.flattens[j].1);
        let ghost before = out@;
        let ghost oldsub = sub@;
        let ghost subv = strings_view(sub@);
        out.append(&mut sub);
        j = j + 1;
        proof {
            let pre = s@.flattens.take(j as int);
            assert(pre.drop_last() =~= s@.flattens.take(j - 1));
            assert(pre.last() == s@.flattens[j - 1]);
            assert(strings_view(out@) =~= strings_view(before) + subv) by {
                assert forall|q: int| 0 <= q < out@.len() implies strings_view(out@)[q]
                    == (strings_view(before) + subv)[q] by {
                    if q < before.len() {
                        assert(out@[q] == before[q]);
                    } else {
                        assert(out@[q] == oldsub[q - before.len()]);
                    }
                }
            }
        }
    }
    proof {
        assert(s@.flattens.take(s@.flattens.len() as int) =~= s@.flattens);
    }
    out
}

/// The resolution context: the three raw source views and the ambient
/// settings, immutable for one resolution pass.
pub struct Context {
    /// Matched command-line arguments: key to raw payload, as the external
    /// matcher produced them.
    pub clap: Vec<(String, String)>,
    /// The environment snapshot.
    pub env: EnvData,
    /// The merged configuration-file tree.
    pub file: Vec<(String, Value)>,
    /// The active environment-variable prefix.  `Some("")` means no
    /// prefix; `None` asks for the executable-name prefix.
    pub env_prefix: Option<String>,
    /// The executable's base name, injected by the embedding application;
    /// needed only when `env_prefix` is `None`.
    pub exe_name: Option<String>,
    /// The raw argument vector, kept for subcommand re-parsing.
    pub raw_args: Vec<String>,
    /// The subcommand the top-level match selected, if any.
    pub selected_command: Option<String>,
}

/// The model of a resolution context.
pub struct CtxV {
    pub clap: Seq<(Seq<char>, Seq<char>)>,
    pub env: Seq<(Seq<char>, Seq<char>)>,
    pub file: Seq<(Seq<char>, ValV)>,
    pub env_prefix: Option<Seq<char>>,
    pub exe_name: Option<Seq<char>>,
    pub raw_args: Seq<Seq<char>>,
    pub selected_command: Option<Seq<char>>,
}

/// The models of a string list.
pub open spec fn strings_view(v: Seq<String>) -> Seq<Seq<char>> {
    Seq::new(v.len(), |i: int| v[i]@)
}

impl View for Context {
    type V = CtxV;

    open spec fn view(&self) -> CtxV {
        CtxV {
            clap: crate::env::pairs_view(self.clap@),
            env: self.env@,
            file: crate::value::table_view(self.file@),
            env_prefix: match self.env_prefix {
                Some(p) => Some(p@),
                None => None,
            },
            exe_name: match self.exe_name {
                Some(e) => Some(e@),
                None => None,
            },
            raw_args: strings_view(self.raw_args@),
            selected_command: match self.selected_command {
                Some(c) => Some(c@),
                None => None,
            },
        }
    }
}

/// The effective environment key of a field: the explicit key if one was
/// given, else the prefix joined to the field name with `_`; with no
/// prefix the executable name stands in, and `None` says it is missing.
/// The result is always case-folded.
pub open spec fn env_key_of(
    explicit: Option<Seq<char>>,
    prefix: Option<Seq<char>>,
    exe: Option<Seq<char>>,
    field: Seq<char>,
) -> Option<Seq<char>> {
    match explicit {
        Some(k) => Some(lower(k)),
        None => match prefix {
            Some(p) => if p.len() == 0 {
                Some(lower(field))
            } else {
                Some(lower(p + seq!['_'] + field))
            },
            None => match exe {
                Some(b) => Some(lower(b + seq!['_'] + field)),
                None => None,
            },
        },
    }
}

/// Executable effective environment key.
pub fn env_key_x(
    explicit: &Option<String>,
    prefix: &Option<String>,
    exe: &Option<String>,
    field: &str,
) -> (r: Option<String>)
    ensures
        match r {
            Some(k) => env_key_of(
                match explicit {
                    Some(e) => Some(e@),
                    None => None,
                },
                match prefix {
                    Some(p) => Some(p@),
                    None => None,
                },
                match exe {
                    Some(b) => Some(b@),
                    None => None,
                },
                field@,
            ) == Some(k@),
            None => env_key_of(
                match explicit {
                    Some(e) => Some(e@),
                    None => None,
                },
                match prefix {
                    Some(p) => Some(p@),
                    None => None,
                },
                match exe {
                    Some(b) => Some(b@),
                    None => None,
                },
                field@,
            ) is None,
        },
{
    match explicit {
        Some(k) => Some(lower_string(k.as_str())),
        None => {
            match prefix {
                Some(p) => {
                    if p.as_str().is_empty() {
                        Some(lower_string(field))
                    } else {
                        let mut whole = p.clone();
                        whole.append("_");
                        whole.append(field);
                        proof {
                            reveal_strlit("_");
                            assert(whole@ =~= p@ + seq!['_'] + field@);
                        }
                        Some(lower_string(whole.as_str()))
                    }
                },
                None => {
                    match exe {
                        Some(b) => {
                            let mut whole = b.clone();
                            whole.append("_");
                            whole.append(field);
                            proof {
                                reveal_strlit("_");
                                assert(whole@ =~= b@ + seq!['_'] + field@);
                            }
                            Some(lower_string(whole.as_str()))
                        },
                        None => None,
                    }
                },
            }
        },
    }
}

} // verus!
