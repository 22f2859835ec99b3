//! Runtime options replacing the usual sources: explicit environments,
//! command-line replacements and configuration-file lists.

use config_manager::{ClapSource, ConfigOption, Context, EnvData, FieldSchema, FileFormat,
    FileOptions, Schema, Source, SourceSpec, Value, apply_options, resolve_field,
    resolve_schema};

fn s(x: &str) -> String {
    x.to_string()
}

fn pairs(v: Vec<(&str, &str)>) -> Vec<(String, String)> {
    v.into_iter().map(|(a, b)| (s(a), s(b))).collect()
}

fn tbl(entries: Vec<(&str, Value)>) -> Vec<(String, Value)> {
    entries.into_iter().map(|(k, v)| (s(k), v)).collect()
}

fn env_field(name: &str, key: Option<&str>) -> FieldSchema {
    FieldSchema {
        name: s(name),
        sources: vec![SourceSpec::Env { key: key.map(s) }],
        default: None,
    }
}

#[test]
fn test_env_prefix() {
    // An option prefix overrides the schema's own.
    let opts = vec![
        ConfigOption::EnvPrefix(s("your")),
        ConfigOption::ExplicitSource(Source::Env(pairs(vec![
            ("your_field", "0"),
            ("find_me", "1"),
            ("your_f", "2"),
        ]))),
        ConfigOption::ExplicitSource(Source::Clap(ClapSource::Empty)),
    ];
    let o = apply_options(opts);
    // The schema asked for "my"; the option wins.
    let prefix = o.env_prefix.unwrap_or(s("my"));
    assert_eq!(prefix, s("your"));
    let flat = Schema {
        table: None,
        fields: vec![env_field("f", None)],
        flattens: Vec::new(),
        subcommand: None,
    };
    let main = Schema {
        table: None,
        fields: vec![env_field("field", None), env_field("int", Some("find_me"))],
        flattens: vec![(s("flat"), flat)],
        subcommand: None,
    };
    let ctx = Context {
        clap: Vec::new(),
        env: o.env.unwrap(),
        file: Vec::new(),
        env_prefix: Some(prefix),
        exe_name: None,
        raw_args: Vec::new(),
        selected_command: None,
    };
    let r = resolve_schema(&main, &ctx, &None).unwrap();
    assert_eq!(r.values, tbl(vec![("field", Value::Int(0)), ("int", Value::Int(1))]));
    assert_eq!(r.nested[0].1.values, tbl(vec![("f", Value::Int(2))]));
}

#[test]
fn test_config_source() {
    // A file list given as an option replaces the declared one ("not
    // found" would otherwise have been loaded).
    let opts = vec![
        ConfigOption::ExplicitSource(Source::ConfigFiles(vec![FileOptions {
            format: FileFormat::Toml,
            path: s("tests/data/config.toml"),
        }])),
        ConfigOption::ExplicitSource(Source::Clap(ClapSource::Empty)),
    ];
    let o = apply_options(opts);
    let files = o.files.unwrap();
    assert_eq!(files.len(), 1);
    assert_eq!(files[0].format, FileFormat::Toml);
    assert_eq!(files[0].path, s("tests/data/config.toml"));

    // The tree that file holds, once the external loader has parsed it.
    let ctx = Context {
        clap: Vec::new(),
        env: EnvData::normalized(&Vec::new()),
        file: tbl(vec![
            ("int", Value::Int(1)),
            ("input", Value::Table(tbl(vec![("int", Value::Int(5))]))),
        ]),
        env_prefix: Some(s("")),
        exe_name: None,
        raw_args: Vec::new(),
        selected_command: None,
    };
    let int_f = FieldSchema {
        name: s("int"),
        sources: vec![SourceSpec::Config { key: None }],
        default: None,
    };
    assert_eq!(resolve_field(&int_f, &ctx, &None).unwrap(), Value::Int(1));
    let field_f = FieldSchema {
        name: s("field"),
        sources: vec![SourceSpec::Config { key: Some(s("input.int")) }],
        default: None,
    };
    assert_eq!(resolve_field(&field_f, &ctx, &None).unwrap(), Value::Int(5));
}

#[test]
fn test_clap_source() {
    let f = FieldSchema {
        name: s("field"),
        sources: vec![SourceSpec::Clap { key: None }],
        default: Some(Value::Int(0)),
    };
    let ctx_with_clap = |clap: Vec<(String, String)>| Context {
        clap,
        env: EnvData::normalized(&Vec::new()),
        file: Vec::new(),
        env_prefix: Some(s("")),
        exe_name: None,
        raw_args: Vec::new(),
        selected_command: None,
    };

    // Options have priority over whatever the process arguments held.
    let o = apply_options(vec![ConfigOption::ExplicitSource(Source::Clap(
        ClapSource::Empty,
    ))]);
    assert!(matches!(o.clap, Some(ClapSource::Empty)));
    let c = ctx_with_clap(Vec::new());
    assert_eq!(resolve_field(&f, &c, &None).unwrap(), Value::Int(0));

    // A replacement argument vector goes through the external matcher,
    // which hands back the matched pairs.
    let o = apply_options(vec![ConfigOption::ExplicitSource(Source::Clap(
        ClapSource::Args(vec![s("--field=1")]),
    ))]);
    assert!(matches!(o.clap, Some(ClapSource::Args(_))));
    let c = ctx_with_clap(pairs(vec![("field", "1")]));
    assert_eq!(resolve_field(&f, &c, &None).unwrap(), Value::Int(1));

    // Already-matched arguments are consumed as they stand.
    let o = apply_options(vec![ConfigOption::ExplicitSource(Source::Clap(
        ClapSource::Matches(pairs(vec![("field", "2")])),
    ))]);
    let matched = match o.clap {
        Some(ClapSource::Matches(m)) => m,
        other => panic!("matches expected, got {:?}", other),
    };
    let c = ctx_with_clap(matched);
    assert_eq!(resolve_field(&f, &c, &None).unwrap(), Value::Int(2));
}

#[test]
fn test_env_source() {
    let opts = vec![
        ConfigOption::ExplicitSource(Source::Env(pairs(vec![
            ("my_field", "0"),
            ("find_me", "1"),
        ]))),
        ConfigOption::ExplicitSource(Source::Clap(ClapSource::Empty)),
    ];
    let o = apply_options(opts);
    let ctx = Context {
        clap: Vec::new(),
        env: o.env.unwrap(),
        file: Vec::new(),
        env_prefix: Some(s("my")),
        exe_name: None,
        raw_args: Vec::new(),
        selected_command: None,
    };
    assert_eq!(
        resolve_field(&env_field("field", None), &ctx, &None).unwrap(),
        Value::Int(0)
    );
    assert_eq!(
        resolve_field(&env_field("int", Some("find_me")), &ctx, &None).unwrap(),
        Value::Int(1)
    );
}
