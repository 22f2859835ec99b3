//! Dotted-path lookup in nested tables, and table scopes on schemas.

use config_manager::{Context, EnvData, FieldSchema, Schema, SourceSpec, Value,
    find_field_in_table, resolve_schema};

fn s(x: &str) -> String {
    x.to_string()
}

fn tbl(entries: Vec<(&str, Value)>) -> Vec<(String, Value)> {
    entries.into_iter().map(|(k, v)| (s(k), v)).collect()
}

fn vt(entries: Vec<(&str, Value)>) -> Value {
    Value::Table(tbl(entries))
}

#[test]
fn test_private_method() {
    let cfg = tbl(vec![
        ("b", Value::Str(s("qwerty"))),
        ("bpm", Value::Int(165)),
        ("source", vt(vec![("env", Value::Str(s("no-env")))])),
        (
            "input",
            vt(vec![
                ("b", Value::Str(s("mama"))),
                (
                    "data",
                    vt(vec![
                        ("frame", Value::Int(5)),
                        ("img", vt(vec![("frame_rate", Value::Int(16000))])),
                    ]),
                ),
            ]),
        ),
    ]);

    assert_eq!(
        find_field_in_table(&cfg, None, s("b")).unwrap(),
        Some(s("\"qwerty\""))
    );
    assert_eq!(
        find_field_in_table(&cfg, Some(s("source")), s("env")).unwrap(),
        Some(s("\"no-env\""))
    );
    assert_eq!(
        find_field_in_table(&cfg, None, s("source.env")).unwrap(),
        Some(s("\"no-env\""))
    );
    assert_eq!(
        find_field_in_table(&cfg, Some(s("input")), s("b")).unwrap(),
        Some(s("\"mama\""))
    );
    assert_eq!(
        find_field_in_table(&cfg, None, s("input.b")).unwrap(),
        Some(s("\"mama\""))
    );
    assert_eq!(
        find_field_in_table(&cfg, Some(s("input.data")), s("frame")).unwrap(),
        Some(s("5"))
    );
    assert_eq!(
        find_field_in_table(&cfg, Some(s("input.data")), s("img.frame_rate")).unwrap(),
        Some(s("16000"))
    );

    assert_eq!(find_field_in_table(&cfg, None, s("a")).unwrap(), None);
    assert_eq!(find_field_in_table(&cfg, Some(s("source")), s("a")).unwrap(), None);
    assert_eq!(find_field_in_table(&cfg, None, s("source.a")).unwrap(), None);
    assert_eq!(find_field_in_table(&cfg, Some(s("input")), s("data.a")).unwrap(), None);
    assert_eq!(find_field_in_table(&cfg, Some(s("a")), s("a")).unwrap(), None);
    assert_eq!(find_field_in_table(&cfg, None, s("c.a")).unwrap(), None);
    assert_eq!(find_field_in_table(&cfg, Some(s("input")), s("c.a")).unwrap(), None);
}

#[test]
fn test_struct_tables() {
    // The parent schema reads under `input`; the nested one declares its
    // own deeper scope `input.data`.
    let images = Schema {
        table: Some(s("input.data")),
        fields: vec![
            FieldSchema {
                name: s("frame"),
                sources: vec![SourceSpec::Config { key: None }],
                default: None,
            },
            FieldSchema {
                name: s("rate"),
                sources: vec![SourceSpec::Config { key: Some(s("img.frame_rate")) }],
                default: None,
            },
            FieldSchema {
                name: s("not_found"),
                sources: vec![],
                default: Some(Value::Int(0)),
            },
        ],
        flattens: Vec::new(),
        subcommand: None,
    };
    let cfg = Schema {
        table: Some(s("input")),
        fields: vec![
            FieldSchema {
                name: s("int"),
                sources: vec![SourceSpec::Config { key: None }],
                default: None,
            },
            FieldSchema {
                name: s("frame_id"),
                sources: vec![SourceSpec::Config { key: Some(s("data.frame")) }],
                default: None,
            },
        ],
        flattens: vec![(s("img"), images)],
        subcommand: None,
    };
    let ctx = Context {
        clap: Vec::new(),
        env: EnvData::normalized(&Vec::new()),
        file: tbl(vec![(
            "input",
            vt(vec![
                ("int", Value::Int(5)),
                (
                    "data",
                    vt(vec![
                        ("frame", Value::Int(10)),
                        ("img", vt(vec![("frame_rate", Value::Int(16000))])),
                    ]),
                ),
            ]),
        )]),
        env_prefix: Some(s("")),
        exe_name: None,
        raw_args: Vec::new(),
        selected_command: None,
    };
    let r = resolve_schema(&cfg, &ctx, &None).unwrap();
    assert_eq!(
        r.values,
        tbl(vec![("int", Value::Int(5)), ("frame_id", Value::Int(10))])
    );
    assert_eq!(
        r.nested[0].1.values,
        tbl(vec![
            ("frame", Value::Int(10)),
            ("rate", Value::Int(16000)),
            ("not_found", Value::Int(0)),
        ])
    );
}
