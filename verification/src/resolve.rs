//! The field resolution algorithm: walk the ordered source list, stop at
//! the first present raw payload, deserialize it; fall back to the default
//! only after every source missed.

use vstd::prelude::*;
use crate::{Error, ErrV};
use crate::chars::lower;
use crate::env::{assoc, assoc_get, env_lookup};
use crate::lookup::{field_lookup, FieldLookup, find_field_in_table, not_table_msg};
use crate::parse::parse_text;
use crate::reader::parse_payload;
use crate::schema::{SrcV, SourceSpec, FieldSchema, FieldV, Context, CtxV, env_key_of,
    env_key_x, src_view};
use crate::value::{ValV, Value, value_view};

verus! {

/// Which source produced a payload.
#[derive(Debug, Clone, Copy, PartialEq, Eq, Structural)]
pub enum SourceKind {
    Clap,
    Env,
    Config,
}

/// Outcome of probing one source for one field.
pub enum HitV {
    /// A present raw payload.
    Hit(SourceKind, Seq<char>),
    /// Nothing there: fall through to the next source.
    Miss,
    /// A hard failure that must not fall through.
    Fail(ErrV),
}

/// The diagnostic for an executable-name prefix that was never injected.
pub open spec fn exe_missing_msg() -> Seq<char> {
    "no executable name was supplied for the environment prefix"@
}

/// Probing one source: a command-line key is the explicit one or the field
/// name; an environment key is derived by `env_key_of` and looked up
/// case-insensitively; a configuration key is resolved under the table
/// scope, a bad path failing hard.
pub open spec fn eval_source(
    src: SrcV,
    ctx: CtxV,
    scope: Option<Seq<char>>,
    field: Seq<char>,
) -> HitV {
    match src {
        SrcV::Clap(k) => {
            let key = match k {
                Some(k) => k,
                None => field,
            };
            match assoc(ctx.clap, key) {
                Some(p) => HitV::Hit(SourceKind::Clap, p),
                None => HitV::Miss,
            }
        },
        SrcV::Env(k) => match env_key_of(k, ctx.env_prefix, ctx.exe_name, field) {
            None => HitV::Fail(ErrV::External(exe_missing_msg())),
            Some(ek) => match env_lookup(ctx.env, ek) {
                Some(p) => HitV::Hit(SourceKind::Env, p),
                None => HitV::Miss,
            },
        },
        SrcV::Config(k) => {
            let key = match k {
                Some(k) => k,
                None => field,
            };
            match field_lookup(ctx.file, scope, key) {
                FieldLookup::Payload(p) => HitV::Hit(SourceKind::Config, p),
                FieldLookup::Absent => HitV::Miss,
                FieldLookup::BadPath(seg) => HitV::Fail(ErrV::Parse(not_table_msg(seg))),
            }
        },
    }
}

/// Outcome of walking a whole source list.
pub enum FirstV {
    /// The first present payload, and the source that produced it.
    Payload(SourceKind, Seq<char>),
    /// Every source missed.
    Nothing,
    /// A source failed hard before any payload was found.
    Failed(ErrV),
}

/// The first source with a present payload wins; a hard failure stops the
/// walk; a miss falls through.
pub open spec fn first_hit(
    srcs: Seq<SrcV>,
    ctx: CtxV,
    scope: Option<Seq<char>>,
    field: Seq<char>,
) -> FirstV
    decreases srcs.len(),
{
    if srcs.len() == 0 {
        FirstV::Nothing
    } else {
        match eval_source(srcs[0], ctx, scope, field) {
            HitV::Hit(k, p) => FirstV::Payload(k, p),
            HitV::Fail(e) => FirstV::Failed(e),
            HitV::Miss => first_hit(srcs.drop_first(), ctx, scope, field),
        }
    }
}

/// The name a source goes by in diagnostics.
pub open spec fn src_name(s: SrcV) -> Seq<char> {
    match s {
        SrcV::Clap(k) => "command line"@,
        SrcV::Env(k) => "env"@,
        SrcV::Config(k) => "configuration file"@,
    }
}

/// The comma-joined names of a source list.
pub open spec fn src_list_text(srcs: Seq<SrcV>) -> Seq<char>
    decreases srcs.len(),
{
    if srcs.len() == 0 {
        Seq::empty()
    } else if srcs.len() == 1 {
        src_name(srcs.last())
    } else {
        src_list_text(srcs.drop_last()) + ", "@ + src_name(srcs.last())
    }
}

/// The diagnostic for a field found in no source and without a default;
/// it names every source that was tried, in order.
pub open spec fn missing_msg(field: Seq<char>, srcs: Seq<SrcV>) -> Seq<char> {
    "field "@ + field + " not found nor in "@ + src_list_text(srcs) + " nor as a default"@
}

/// The diagnostic for a payload the deserializer rejects.
pub open spec fn deser_msg(field: Seq<char>, payload: Seq<char>) -> Seq<char> {
    "Can't deserialize value "@ + payload + " of field "@ + field
}

/// What a raw payload deserializes to.  An empty payload is a present
/// value: it reads as the empty string, not as absence.
pub open spec fn deser(payload: Seq<char>) -> Option<ValV> {
    if payload.len() == 0 {
        Some(ValV::Str(Seq::empty()))
    } else {
        parse_text(payload)
    }
}

/// The outcome of one field resolution, before deserialization.
pub enum Resolved {
    /// A raw payload, and the source that produced it.
    FromSource(SourceKind, String),
    /// No source yielded a payload; the default applies.
    FromDefault,
}

/// The model of a resolved outcome.
pub enum ResolvedV {
    FromSource(SourceKind, Seq<char>),
    FromDefault,
}

impl View for Resolved {
    type V = ResolvedV;

    open spec fn view(&self) -> ResolvedV {
        match self {
            Resolved::FromSource(k, p) => ResolvedV::FromSource(*k, p@),
            Resolved::FromDefault => ResolvedV::FromDefault,
        }
    }
}

/// The model of `resolve_field_raw`.
pub open spec fn resolve_raw_model(f: FieldV, ctx: CtxV, scope: Option<Seq<char>>) -> Result<
    ResolvedV,
    ErrV,
> {
    match first_hit(f.sources, ctx, scope, f.name) {
        FirstV::Failed(e) => Err(e),
        FirstV::Payload(k, p) => Ok(ResolvedV::FromSource(k, p)),
        FirstV::Nothing => if f.default is Some {
            Ok(ResolvedV::FromDefault)
        } else {
            Err(ErrV::Missing(missing_msg(f.name, f.sources)))
        },
    }
}

/// The model of `resolve_field`.
pub open spec fn resolve_field_model(f: FieldV, ctx: CtxV, scope: Option<Seq<char>>) -> Result<
    ValV,
    ErrV,
> {
    match first_hit(f.sources, ctx, scope, f.name) {
        FirstV::Failed(e) => Err(e),
        FirstV::Payload(k, p) => match deser(p) {
            Some(v) => Ok(v),
            None => Err(ErrV::Parse(deser_msg(f.name, p))),
        },
        FirstV::Nothing => match f.default {
            Some(d) => Ok(d),
            None => Err(ErrV::Missing(missing_msg(f.name, f.sources))),
        },
    }
}

/// Probes one source, executably.
fn eval_source_x(src: &SourceSpec, ctx: &Context, scope: &Option<String>, field: &str) -> (r:
    Result<Option<(SourceKind, String)>, Error>)
    ensures
        match r {
            Ok(Some((k, p))) => eval_source(src@, ctx@, match scope {
                Some(t) => Some(t@),
                None => None,
            }, field@) == HitV::Hit(k, p@),
            Ok(None) => eval_source(src@, ctx@, match scope {
                Some(t) => Some(t@),
                None => None,
            }, field@) is Miss,
            Err(e) => eval_source(src@, ctx@, match scope {
                Some(t) => Some(t@),
                None => None,
            }, field@) == HitV::Fail(e@),
        },
{
    match src {
        SourceSpec::Clap { key } => {
            let k: &str = match key {
                Some(k) => k.as_str(),
                None => field,
            };
            match assoc_get(&ctx.clap, k) {
                Some(p) => Ok(Some((SourceKind::Clap, p.clone()))),
                None => Ok(None),
            }
        },
        SourceSpec::Env { key } => {
            match env_key_x(key, &ctx.env_prefix, &ctx.exe_name, field) {
                None => {
                    let m = String::from_str(
                        "no executable name was supplied for the environment prefix",
                    );
                    Err(Error::ExternalError(m))
                },
                Some(ek) => {
                    match ctx.env.get(ek.as_str()) {
                        Some(p) => Ok(Some((SourceKind::Env, p.clone()))),
                        None => Ok(None),
                    }
                },
            }
        },
        SourceSpec::Config { key } => {
            let k: String = match key {
                Some(k) => k.clone(),
                None => String::from_str(field),
            };
            let scope_copy: Option<String> = match scope {
                Some(t) => Some(t.clone()),
                None => None,
            };
            match find_field_in_table(&ctx.file, scope_copy, k) {
                Err(e) => Err(e),
                Ok(None) => Ok(None),
                Ok(Some(p)) => Ok(Some((SourceKind::Config, p))),
            }
        },
    }
}

/// Builds the comma-joined names of a source list.
fn src_list_x(srcs: &Vec<SourceSpec>) -> (r: String)
    ensures
        r@ == src_list_text(srcs_view(srcs@)),
{
    let mut out = String::new();
    let mut i: usize = 0;
    proof {
        assert(srcs_view(srcs@).subrange(0, 0) =~= Seq::<SrcV>::empty());
    }
    while i < srcs.len()
        invariant
            i <= srcs@.len(),
            out@ == src_list_text(srcs_view(srcs@).subrange(0, i as int)),
        decreases srcs.len() - i,
    {
        if i > 0 {
            out.append(", ");
        }
        match &srcs[i] {
            SourceSpec::Clap { key } => {
                out.append("command line");
            },
            SourceSpec::Env { key } => {
                out.append("env");
            },
            SourceSpec::Config { key } => {
                out.append("configuration file");
            },
        }
        i = i + 1;
        proof {
            reveal_strlit(", ");
            let sv = srcs_view(srcs@);
            assert(sv.subrange(0, i as int).drop_last() =~= sv.subrange(0, i - 1));
            assert(sv.subrange(0, i as int).last() == sv[i - 1]);
            assert(sv[i - 1] == src_view(srcs@[i - 1]));
            assert(out@ =~= src_list_text(sv.subrange(0, i as int)));
        }
    }
    proof {
        assert(srcs_view(srcs@).subrange(0, srcs@.len() as int) =~= srcs_view(srcs@));
    }
    out
}

/// The models of a source list.
pub open spec fn srcs_view(srcs: Seq<SourceSpec>) -> Seq<SrcV> {
    Seq::new(srcs.len(), |i: int| src_view(srcs[i]))
}

/// Builds the missing-argument diagnostic.
fn missing_msg_x(field: &str, srcs: &Vec<SourceSpec>) -> (r: String)
    ensures
        r@ == missing_msg(field@, srcs_view(srcs@)),
{
    let mut out = String::from_str("field ");
    out.append(field);
    out.append(" not found nor in ");
    let list = src_list_x(srcs);
    out.append(list.as_str());
    out.append(" nor as a default");
    proof {
        assert(out@ =~= missing_msg(field@, srcs_view(srcs@)));
    }
    out
}

/// Builds the deserialization diagnostic.
fn deser_msg_x(field: &str, payload: &str) -> (r: String)
    ensures
        r@ == deser_msg(field@, payload@),
{
    let mut out = String::from_str("Can't deserialize value ");
    out.append(payload);
    out.append(" of field ");
    out.append(field);
    proof {
        assert(out@ =~= deser_msg(field@, payload@));
    }
    out
}

/// Resolves one field to its raw outcome: the first present payload with
/// its source, the default marker, or the error the model prescribes.
pub fn resolve_field_raw(f: &FieldSchema, ctx: &Context, scope: &Option<String>) -> (r: Result<
    Resolved,
    Error,
>)
    ensures
        match r {
            Ok(v) => resolve_raw_model(f@, ctx@, match scope {
                Some(t) => Some(t@),
                None => None,
            }) == Ok::<ResolvedV, ErrV>(v@),
            Err(e) => resolve_raw_model(f@, ctx@, match scope {
                Some(t) => Some(t@),
                None => None,
            }) == Err::<ResolvedV, ErrV>(e@),
        },
{
    let ghost scv: Option<Seq<char>> = match scope {
        Some(t) => Some(t@),
        None => None,
    };
    let ghost srcs = f@.sources;
    let mut i: usize = 0;
    proof {
        assert(srcs.skip(0) =~= srcs);
    }
    while i < f.sources.len()
        invariant
            i <= f.sources@.len(),
            srcs == f@.sources,
            scv == (match scope {
                Some(t) => Some(t@),
                None => None::<Seq<char>>,
            }),
            srcs.len() == f.sources@.len(),
            forall|q: int| 0 <= q < srcs.len() ==> srcs[q] == src_view(#[trigger] f.sources@[q]),
            first_hit(srcs, ctx@, scv, f@.name) == first_hit(
                srcs.skip(i as int),
                ctx@,
                scv,
                f@.name,
            ),
        decreases f.sources.len() - i,
    {
        proof {
            let s = srcs.skip(i as int);
            assert(s[0] == srcs[i as int]);
            assert(s.drop_first() =~= srcs.skip(i as int + 1));
        }
        match eval_source_x(&f.sources[i], ctx, scope, f.name.as_str()) {
            Err(e) => {
                return Err(e);
            },
            Ok(Some((k, p))) => {
                return Ok(Resolved::FromSource(k, p));
            },
            Ok(None) => {},
        }
        i = i + 1;
    }
    proof {
        assert(srcs.skip(srcs.len() as int) =~= Seq::<SrcV>::empty());
    }
    match &f.default {
        Some(d) => Ok(Resolved::FromDefault),
        None => Err(Error::MissingArgument(missing_msg_x(f.name.as_str(), &f.sources))),
    }
}

/// Resolves one field to its value: the first present payload
/// deserialized, or the default, or the error the model prescribes.
pub fn resolve_field(f: &FieldSchema, ctx: &Context, scope: &Option<String>) -> (r: Result<
    Value,
    Error,
>)
    ensures
        match r {
            Ok(v) => resolve_field_model(f@, ctx@, match scope {
                Some(t) => Some(t@),
                None => None,
            }) == Ok::<ValV, ErrV>(v@),
            Err(e) => resolve_field_model(f@, ctx@, match scope {
                Some(t) => Some(t@),
                None => None,
            }) == Err::<ValV, ErrV>(e@),
        },
{
    match resolve_field_raw(f, ctx, scope) {
        Err(e) => Err(e),
        Ok(Resolved::FromDefault) => {
            match &f.default {
                Some(d) => Ok(d.clone()),
                None => {
                    proof {
                        assert(false);
                    }
                    Err(Error::ExternalError(String::new()))
                },
            }
        },
        Ok(Resolved::FromSource(k, p)) => {
            if p.as_str().is_empty() {
                proof {
                    assert(deser(p@) == Some(ValV::Str(Seq::<char>::empty())));
                }
                Ok(Value::Str(String::new()))
            } else {
                match parse_payload(p.as_str()) {
                    Some(v) => Ok(v),
                    None => Err(
                        Error::FailedParse(deser_msg_x(f.name.as_str(), p.as_str())),
                    ),
                }
            }
        },
    }
}

/// The walk's verdict read element-wise: every source before a payload (or
/// before the end) missed.
pub proof fn lemma_first_hit_skip(
    srcs: Seq<SrcV>,
    ctx: CtxV,
    scope: Option<Seq<char>>,
    field: Seq<char>,
    i: int,
)
    requires
        0 <= i <= srcs.len(),
        forall|k: int| 0 <= k < i ==> eval_source(#[trigger] srcs[k], ctx, scope, field)
            is Miss,
    ensures
        first_hit(srcs, ctx, scope, field) == first_hit(srcs.skip(i), ctx, scope, field),
    decreases i,
{
    if i > 0 {
        lemma_first_hit_skip(srcs, ctx, scope, field, i - 1);
        let s = srcs.skip(i - 1);
        assert(s[0] == srcs[i - 1]);
        assert(eval_source(srcs[i - 1], ctx, scope, field) is Miss);
        assert(s.drop_first() =~= srcs.skip(i));
        assert(first_hit(s, ctx, scope, field) == first_hit(
            s.drop_first(),
            ctx,
            scope,
            field,
        ));
    } else {
        assert(srcs.skip(0) =~= srcs);
    }
}

/// The precedence law: when every source before position `i` misses and
/// the source at `i` yields a payload, the field resolves from that
/// payload alone — later sources and the default are never consulted.
pub proof fn lemma_precedence(
    f: FieldV,
    ctx: CtxV,
    scope: Option<Seq<char>>,
    i: int,
    k: SourceKind,
    p: Seq<char>,
)
    requires
        0 <= i < f.sources.len(),
        forall|q: int| 0 <= q < i ==> eval_source(#[trigger] f.sources[q], ctx, scope, f.name)
            is Miss,
        eval_source(f.sources[i], ctx, scope, f.name) == HitV::Hit(k, p),
    ensures
        resolve_field_model(f, ctx, scope) == (match deser(p) {
            Some(v) => Ok::<ValV, ErrV>(v),
            None => Err::<ValV, ErrV>(ErrV::Parse(deser_msg(f.name, p))),
        }),
        resolve_raw_model(f, ctx, scope) == Ok::<ResolvedV, ErrV>(
            ResolvedV::FromSource(k, p),
        ),
{
    lemma_first_hit_skip(f.sources, ctx, scope, f.name, i);
    let s = f.sources.skip(i);
    assert(s[0] == f.sources[i]);
    assert(first_hit(s, ctx, scope, f.name) == FirstV::Payload(k, p));
}

/// The default-is-last law, first half: the default is used exactly when
/// every listed source misses.
pub proof fn lemma_default_only_after_all_miss(
    f: FieldV,
    ctx: CtxV,
    scope: Option<Seq<char>>,
)
    requires
        f.default is Some,
        forall|q: int|
            0 <= q < f.sources.len() ==> eval_source(
                #[trigger] f.sources[q],
                ctx,
                scope,
                f.name,
            ) is Miss,
    ensures
        resolve_field_model(f, ctx, scope) == Ok::<ValV, ErrV>(f.default->0),
        resolve_raw_model(f, ctx, scope) == Ok::<ResolvedV, ErrV>(ResolvedV::FromDefault),
{
    lemma_first_hit_skip(f.sources, ctx, scope, f.name, f.sources.len() as int);
    assert(f.sources.skip(f.sources.len() as int) =~= Seq::<SrcV>::empty());
}

/// The default-is-last law, second half: while any source still yields a
/// payload or fails, the declared default plays no part in the outcome.
pub proof fn lemma_default_never_preempts(
    f: FieldV,
    g: FieldV,
    ctx: CtxV,
    scope: Option<Seq<char>>,
)
    requires
        f.name == g.name,
        f.sources == g.sources,
        !(first_hit(f.sources, ctx, scope, f.name) is Nothing),
    ensures
        resolve_field_model(f, ctx, scope) == resolve_field_model(g, ctx, scope),
        resolve_raw_model(f, ctx, scope) == resolve_raw_model(g, ctx, scope),
{
}

} // verus!
