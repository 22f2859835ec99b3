//! Runtime options: explicit source replacements and the environment
//! prefix, each later entry overriding an earlier one of the same kind;
//! and the choice of configuration-file paths from their declared
//! command-line, environment and default sources.

use vstd::prelude::*;
use crate::{Error, ErrV};
use crate::chars::lower;
use crate::env::{assoc, assoc_get, env_lookup, pairs_view, EnvData};

verus! {

/// A configuration-file format the loader understands.
#[derive(Debug, Clone, Copy, PartialEq, Eq, Structural)]
pub enum FileFormat {
    Toml,
    Json,
    Json5,
    Yaml,
    Ron,
}

/// Description of one configuration file to load.
#[derive(Debug, Clone, PartialEq, Eq)]
pub struct FileOptions {
    /// File format.
    pub format: FileFormat,
    /// Path to the file.
    pub path: String,
}

/// The model of a file description.
pub struct FileOptV {
    pub format: FileFormat,
    pub path: Seq<char>,
}

impl View for FileOptions {
    type V = FileOptV;

    open spec fn view(&self) -> FileOptV {
        FileOptV { format: self.format, path: self.path@ }
    }
}

/// A declared configuration file: where its path may come from.
pub struct FileDecl {
    pub format: FileFormat,
    /// The command-line key naming the path, if one was declared.
    pub clap_key: Option<String>,
    /// The environment key naming the path, if one was declared.
    pub env_key: Option<String>,
    /// The fallback path, if one was declared.
    pub default_path: Option<String>,
    /// Whether the whole file may be skipped when no source names a path.
    pub optional: bool,
}

/// The model of a file declaration.
pub struct FileDeclV {
    pub format: FileFormat,
    pub clap_key: Option<Seq<char>>,
    pub env_key: Option<Seq<char>>,
    pub default_path: Option<Seq<char>>,
    pub optional: bool,
}

impl View for FileDecl {
    type V = FileDeclV;

    open spec fn view(&self) -> FileDeclV {
        FileDeclV {
            format: self.format,
            clap_key: match self.clap_key {
                Some(k) => Some(k@),
                None => None,
            },
            env_key: match self.env_key {
                Some(k) => Some(k@),
                None => None,
            },
            default_path: match self.default_path {
                Some(p) => Some(p@),
                None => None,
            },
            optional: self.optional,
        }
    }
}

/// The diagnostic for a file none of whose sources named a path.
pub open spec fn file_missing_msg(d: FileDeclV) -> Seq<char> {
    let tail = "default path for file was not specified"@;
    match (d.clap_key, d.env_key) {
        (Some(c), Some(e)) => "key `"@ + c + "` was not found in command line; key `"@ + e
            + "` was not found in environment; "@ + tail,
        (Some(c), None) => "key `"@ + c + "` was not found in command line; "@ + tail,
        (None, Some(e)) => "key `"@ + e + "` was not found in environment; "@ + tail,
        (None, None) => tail,
    }
}

/// The model of one file declaration's path choice: the command line
/// first, then the environment, then the default; a missing path is only
/// allowed for an optional file.
pub open spec fn file_path_model(
    d: FileDeclV,
    clap: Seq<(Seq<char>, Seq<char>)>,
    env: Seq<(Seq<char>, Seq<char>)>,
) -> Result<Option<FileOptV>, ErrV> {
    let clap_hit = match d.clap_key {
        Some(k) => assoc(clap, k),
        None => None,
    };
    let env_hit = match d.env_key {
        Some(k) => env_lookup(env, k),
        None => None,
    };
    match clap_hit {
        Some(p) => Ok(Some(FileOptV { format: d.format, path: p })),
        None => match env_hit {
            Some(p) => Ok(Some(FileOptV { format: d.format, path: p })),
            None => match d.default_path {
                Some(p) => Ok(Some(FileOptV { format: d.format, path: p })),
                None => if d.optional {
                    Ok(None)
                } else {
                    Err(ErrV::Missing(file_missing_msg(d)))
                },
            },
        },
    }
}

/// The models of a declaration list.
pub open spec fn decls_view(ds: Seq<FileDecl>) -> Seq<FileDeclV> {
    Seq::new(ds.len(), |i: int| ds[i]@)
}

/// The models of a file-description list.
pub open spec fn file_opts_view(fs: Seq<FileOptions>) -> Seq<FileOptV> {
    Seq::new(fs.len(), |i: int| fs[i]@)
}

/// The model of choosing every declared file's path, in order; optional
/// files whose sources all missed are dropped.
pub open spec fn file_paths_model(
    ds: Seq<FileDeclV>,
    clap: Seq<(Seq<char>, Seq<char>)>,
    env: Seq<(Seq<char>, Seq<char>)>,
) -> Result<Seq<FileOptV>, ErrV>
    decreases ds.len(),
{
    if ds.len() == 0 {
        Ok(Seq::empty())
    } else {
        match file_path_model(ds[0], clap, env) {
            Err(e) => Err(e),
            Ok(head) => match file_paths_model(ds.drop_first(), clap, env) {
                Err(e) => Err(e),
                Ok(rest) => match head {
                    Some(f) => Ok(seq![f] + rest),
                    None => Ok(rest),
                },
            },
        }
    }
}

/// Chooses the path of every declared configuration file: its command-line
/// key first, then its environment key (case-insensitively), then its
/// default path; an optional file with no path is skipped, any other is a
/// missing-argument error naming the sources that were tried.
pub fn resolve_file_paths(
    decls: &Vec<FileDecl>,
    clap: &Vec<(String, String)>,
    env: &EnvData,
) -> (r: Result<Vec<FileOptions>, Error>)
    ensures
        match r {
            Ok(fs) => file_paths_model(decls_view(decls@), pairs_view(clap@), env@) == Ok::<
                Seq<FileOptV>,
                ErrV,
            >(file_opts_view(fs@)),
            Err(e) => file_paths_model(decls_view(decls@), pairs_view(clap@), env@)
                == Err::<Seq<FileOptV>, ErrV>(e@),
        },
{
    let ghost dv = decls_view(decls@);
    let ghost cv = pairs_view(clap@);
    let mut out: Vec<FileOptions> = Vec::new();
    let mut i: usize = 0;
    proof {
        assert(dv.skip(0) =~= dv);
        assert(file_opts_view(out@) =~= Seq::<FileOptV>::empty());
        match file_paths_model(dv, cv, env@) {
            Err(e) => {},
            Ok(rest) => {
                assert(file_opts_view(out@) + rest =~= rest);
            },
        }
    }
    while i < decls.len()
        invariant
            i <= decls@.len(),
            dv == decls_view(decls@),
            cv == pairs_view(clap@),
            dv.len() == decls@.len(),
            forall|q: int| 0 <= q < dv.len() ==> dv[q] == (#[trigger] decls@[q])@,
            file_paths_model(dv, cv, env@) == (match file_paths_model(
                dv.skip(i as int),
                cv,
                env@,
            ) {
                Err(e) => Err::<Seq<FileOptV>, ErrV>(e),
                Ok(rest) => Ok(file_opts_view(out@) + rest),
            }),
        decreases decls.len() - i,
    {
        proof {
            let ds = dv.skip(i as int);
            assert(ds[0] == dv[i as int]);
            assert(ds.drop_first() =~= dv.skip(i as int + 1));
        }
        let d = &decls[i];
        let mut chosen: Option<String> = None;
        match &d.clap_key {
            Some(k) => {
                match assoc_get(clap, k.as_str()) {
                    Some(p) => {
                        chosen = Some(p.clone());
                    },
                    None => {},
                }
            },
            None => {},
        }
        if chosen.is_none() {
            match &d.env_key {
                Some(k) => {
                    match env.get(k.as_str()) {
                        Some(p) => {
                            chosen = Some(p.clone());
                        },
                        None => {},
                    }
                },
                None => {},
            }
        }
        if chosen.is_none() {
            match &d.default_path {
                Some(p) => {
                    chosen = Some(p.clone());
                },
                None => {},
            }
        }
        match chosen {
            Some(p) => {
                let ghost before = out@;
                out.push(FileOptions { format: d.format, path: p });
                proof {
                    assert forall|q: int| 0 <= q < out@.len() implies file_opts_view(
                        out@,
                    )[q] == file_opts_view(before).push(out@[out@.len() - 1]@)[q] by {
                        if q < out@.len() - 1 {
                            assert(out@[q] == before[q]);
                        }
                    }
                    assert(file_opts_view(out@) =~= file_opts_view(before).push(
                        out@[out@.len() - 1]@,
                    ));
                    match file_paths_model(dv.skip(i as int + 1), cv, env@) {
                        Err(e) => {},
                        Ok(rest) => {
                            assert(file_opts_view(out@) + rest =~= file_opts_view(before)
                                + (seq![out@[out@.len() - 1]@] + rest));
                        },
                    }
                }
            },
            None => {
                if !d.optional {
                    let mut m = String::new();
                    match &d.clap_key {
                        Some(c) => {
                            m.append("key `");
                            m.append(c.as_str());
                            m.append("` was not found in command line; ");
                        },
                        None => {},
                    }
                    match &d.env_key {
                        Some(e) => {
                            m.append("key `");
                            m.append(e.as_str());
                            m.append("` was not found in environment; ");
                        },
                        None => {},
                    }
                    m.append("default path for file was not specified");
                    proof {
                        reveal_strlit("key `");
                        reveal_strlit("` was not found in command line; ");
                        reveal_strlit("` was not found in environment; ");
                        reveal_strlit("` was not found in command line; key `");
                        reveal_strlit("default path for file was not specified");
                        assert(m@ =~= file_missing_msg(dv[i as int]));
                    }
                    return Err(Error::MissingArgument(m));
                }
            },
        }
        i = i + 1;
    }
    proof {
        assert(dv.skip(dv.len() as int) =~= Seq::<FileDeclV>::empty());
        match file_paths_model(dv, cv, env@) {
            Err(e) => {
                assert(false);
            },
            Ok(fs) => {
                assert(file_opts_view(out@) + Seq::<FileOptV>::empty() =~= file_opts_view(
                    out@,
                ));
            },
        }
    }
    Ok(out)
}

/// Replacement of the command line source.
#[derive(Debug, PartialEq, Eq)]
pub enum ClapSource {
    /// No command-line input at all.
    Empty,
    /// A raw argument vector for the external matcher to parse.
    Args(Vec<String>),
    /// Already-matched arguments: key to raw payload.
    Matches(Vec<(String, String)>),
}

/// The model of a command-line replacement.
pub enum ClapSrcV {
    Empty,
    Args(Seq<Seq<char>>),
    Matches(Seq<(Seq<char>, Seq<char>)>),
}

impl View for ClapSource {
    type V = ClapSrcV;

    open spec fn view(&self) -> ClapSrcV {
        match self {
            ClapSource::Empty => ClapSrcV::Empty,
            ClapSource::Args(args) => ClapSrcV::Args(crate::schema::strings_view(args@)),
            ClapSource::Matches(m) => ClapSrcV::Matches(pairs_view(m@)),
        }
    }
}

/// Replacement of one usual source.
#[derive(Debug, PartialEq, Eq)]
pub enum Source {
    /// Configuration files; several merge, a later one winning collisions.
    ConfigFiles(Vec<FileOptions>),
    /// The command line.
    Clap(ClapSource),
    /// A map standing in for the environment; useful in tests.
    Env(Vec<(String, String)>),
}

/// The model of a source replacement.
pub enum SourceV {
    ConfigFiles(Seq<FileOptV>),
    Clap(ClapSrcV),
    Env(Seq<(Seq<char>, Seq<char>)>),
}

impl View for Source {
    type V = SourceV;

    open spec fn view(&self) -> SourceV {
        match self {
            Source::ConfigFiles(fs) => SourceV::ConfigFiles(file_opts_view(fs@)),
            Source::Clap(c) => SourceV::Clap(c@),
            Source::Env(m) => SourceV::Env(pairs_view(m@)),
        }
    }
}

/// One runtime option, overriding the corresponding schema-level setting.
#[derive(Debug, PartialEq, Eq)]
pub enum ConfigOption {
    /// Prefix of the environment variables.
    EnvPrefix(String),
    /// Replacement of the usual source.
    ExplicitSource(Source),
}

/// The model of a runtime option.
pub enum ConfigOptV {
    EnvPrefix(Seq<char>),
    ExplicitSource(SourceV),
}

impl View for ConfigOption {
    type V = ConfigOptV;

    open spec fn view(&self) -> ConfigOptV {
        match self {
            ConfigOption::EnvPrefix(p) => ConfigOptV::EnvPrefix(p@),
            ConfigOption::ExplicitSource(s) => ConfigOptV::ExplicitSource(s@),
        }
    }
}

/// The models of an option list.
pub open spec fn opts_view(os: Seq<ConfigOption>) -> Seq<ConfigOptV> {
    Seq::new(os.len(), |i: int| os[i]@)
}

/// The last environment-prefix option, if any.
pub open spec fn last_prefix(os: Seq<ConfigOptV>) -> Option<Seq<char>>
    decreases os.len(),
{
    if os.len() == 0 {
        None
    } else {
        match os.last() {
            ConfigOptV::EnvPrefix(p) => Some(p),
            _ => last_prefix(os.drop_last()),
        }
    }
}

/// Case folding applied to every key of a pair list.
pub open spec fn lower_pairs(m: Seq<(Seq<char>, Seq<char>)>) -> Seq<(Seq<char>, Seq<char>)> {
    Seq::new(m.len(), |i: int| (lower(m[i].0), m[i].1))
}

/// The last environment replacement, keys case-folded, if any.
pub open spec fn last_env(os: Seq<ConfigOptV>) -> Option<Seq<(Seq<char>, Seq<char>)>>
    decreases os.len(),
{
    if os.len() == 0 {
        None
    } else {
        match os.last() {
            ConfigOptV::ExplicitSource(SourceV::Env(m)) => Some(lower_pairs(m)),
            _ => last_env(os.drop_last()),
        }
    }
}

/// The last command-line replacement, if any.
pub open spec fn last_clap(os: Seq<ConfigOptV>) -> Option<ClapSrcV>
    decreases os.len(),
{
    if os.len() == 0 {
        None
    } else {
        match os.last() {
            ConfigOptV::ExplicitSource(SourceV::Clap(c)) => Some(c),
            _ => last_clap(os.drop_last()),
        }
    }
}

/// The last configuration-file replacement, if any.
pub open spec fn last_files(os: Seq<ConfigOptV>) -> Option<Seq<FileOptV>>
    decreases os.len(),
{
    if os.len() == 0 {
        None
    } else {
        match os.last() {
            ConfigOptV::ExplicitSource(SourceV::ConfigFiles(fs)) => Some(fs),
            _ => last_files(os.drop_last()),
        }
    }
}

/// The overrides a list of options amounts to.
pub struct OptionOverrides {
    /// The environment prefix, if one was set.
    pub env_prefix: Option<String>,
    /// The replacement environment, keys case-folded, if one was set.
    pub env: Option<EnvData>,
    /// The replacement command-line source, if one was set.
    pub clap: Option<ClapSource>,
    /// The replacement configuration files, if set.
    pub files: Option<Vec<FileOptions>>,
}

/// Applies a list of options: for each kind the last entry wins, and a
/// replacement environment has its keys case-folded.
pub fn apply_options(opts: Vec<ConfigOption>) -> (r: OptionOverrides)
    ensures
        (match r.env_prefix {
            Some(p) => last_prefix(opts_view(opts@)) == Some(p@),
            None => last_prefix(opts_view(opts@)) is None,
        }),
        (match r.env {
            Some(e) => last_env(opts_view(opts@)) == Some(e@),
            None => last_env(opts_view(opts@)) is None,
        }),
        (match r.clap {
            Some(c) => last_clap(opts_view(opts@)) == Some(c@),
            None => last_clap(opts_view(opts@)) is None,
        }),
        (match r.files {
            Some(fs) => last_files(opts_view(opts@)) == Some(file_opts_view(fs@)),
            None => last_files(opts_view(opts@)) is None,
        }),
{
    let ghost ov = opts_view(opts@);
    let mut env_prefix: Option<String> = None;
    let mut env: Option<EnvData> = None;
    let mut clap: Option<ClapSource> = None;
    let mut files: Option<Vec<FileOptions>> = None;
    let mut i: usize = 0;
    proof {
        assert(ov.take(0) =~= Seq::<ConfigOptV>::empty());
    }
    while i < opts.len()
        invariant
            i <= opts@.len(),
            ov == opts_view(opts@),
            ov.len() == opts@.len(),
            forall|q: int| 0 <= q < ov.len() ==> ov[q] == (#[trigger] opts@[q])@,
            (match env_prefix {
                Some(p) => last_prefix(ov.take(i as int)) == Some(p@),
                None => last_prefix(ov.take(i as int)) is None,
            }),
            (match env {
                Some(e) => last_env(ov.take(i as int)) == Some(e@),
                None => last_env(ov.take(i as int)) is None,
            }),
            (match clap {
                Some(c) => last_clap(ov.take(i as int)) == Some(c@),
                None => last_clap(ov.take(i as int)) is None,
            }),
            (match files {
                Some(fs) => last_files(ov.take(i as int)) == Some(file_opts_view(fs@)),
                None => last_files(ov.take(i as int)) is None,
            }),
        decreases opts.len() - i,
    {
        match &opts[i] {
            ConfigOption::EnvPrefix(p) => {
                env_prefix = Some(p.clone());
            },
            ConfigOption::ExplicitSource(Source::Env(m)) => {
                env = Some(EnvData::normalized(m));
                proof {
                    match &env {
                        Some(e) => {
                            assert(e@ =~= lower_pairs(pairs_view(m@)));
                        },
                        None => {},
                    }
                }
            },
            ConfigOption::ExplicitSource(Source::Clap(c)) => {
                clap = Some(clone_clap_source(c));
            },
            ConfigOption::ExplicitSource(Source::ConfigFiles(fs)) => {
                files = Some(clone_files(fs));
            },
        }
        i = i + 1;
        proof {
            let pre = ov.take(i as int);
            assert(pre.drop_last() =~= ov.take(i - 1));
            assert(pre.last() == ov[i - 1]);
            assert(ov[i - 1] == opts@[i - 1]@);
        }
    }
    proof {
        assert(ov.take(ov.len() as int) =~= ov);
    }
    OptionOverrides { env_prefix, env, clap, files }
}

/// A structural copy of a command-line replacement.
fn clone_clap_source(c: &ClapSource) -> (r: ClapSource)
    ensures
        r@ == c@,
{
    match c {
        ClapSource::Empty => ClapSource::Empty,
        ClapSource::Args(args) => {
            let mut copy: Vec<String> = Vec::new();
            let mut k: usize = 0;
            while k < args.len()
                invariant
                    k <= args@.len(),
                    copy@.len() == k,
                    forall|q: int| 0 <= q < k ==> (#[trigger] copy@[q])@ == args@[q]@,
                decreases args.len() - k,
            {
                copy.push(args[k].clone());
                k = k + 1;
            }
            proof {
                assert(crate::schema::strings_view(copy@) =~= crate::schema::strings_view(
                    args@,
                ));
            }
            ClapSource::Args(copy)
        },
        ClapSource::Matches(m) => {
            let mut copy: Vec<(String, String)> = Vec::new();
            let mut k: usize = 0;
            while k < m.len()
                invariant
                    k <= m@.len(),
                    copy@.len() == k,
                    forall|q: int|
                        0 <= q < k ==> (#[trigger] copy@[q]).0@ == m@[q].0@ && copy@[q].1@
                            == m@[q].1@,
                decreases m.len() - k,
            {
                let pair = (m[k].0.clone(), m[k].1.clone());
                copy.push(pair);
                k = k + 1;
            }
            proof {
                assert(pairs_view(copy@) =~= pairs_view(m@));
            }
            ClapSource::Matches(copy)
        },
    }
}

/// A structural copy of a file-description list.
fn clone_files(fs: &Vec<FileOptions>) -> (r: Vec<FileOptions>)
    ensures
        file_opts_view(r@) == file_opts_view(fs@),
{
    let mut copy: Vec<FileOptions> = Vec::new();
    let mut k: usize = 0;
    while k < fs.len()
        invariant
            k <= fs@.len(),
            copy@.len() == k,
            forall|q: int|
                0 <= q < k ==> (#[trigger] copy@[q]).format == fs@[q].format
                    && copy@[q].path@ == fs@[q].path@,
        decreases fs.len() - k,
    {
        let f = FileOptions { format: fs[k].format, path: fs[k].path.clone() };
        copy.push(f);
        k = k + 1;
    }
    proof {
        assert(file_opts_view(copy@) =~= file_opts_view(fs@));
    }
    copy
}

} // verus!
