//! Concrete checks of the engine's stated properties: precedence,
//! defaults last, case-insensitive environment keys, merge overrides,
//! scoped path traversal, and the serialize/deserialize round trip.

use config_manager::{ClapSource, ConfigOption, Context, EnvData, Error, FieldSchema, Schema,
    Source, SourceSpec, Value, apply_options, merge_tables_x, parse_payload, parse_subcommand,
    resolve_field, resolve_schema, to_text};

fn s(x: &str) -> String {
    x.to_string()
}

fn pairs(v: Vec<(&str, &str)>) -> Vec<(String, String)> {
    v.into_iter().map(|(a, b)| (s(a), s(b))).collect()
}

fn tbl(entries: Vec<(&str, Value)>) -> Vec<(String, Value)> {
    entries.into_iter().map(|(k, v)| (s(k), v)).collect()
}

fn bare_ctx() -> Context {
    Context {
        clap: Vec::new(),
        env: EnvData::normalized(&Vec::new()),
        file: Vec::new(),
        env_prefix: Some(s("")),
        exe_name: None,
        raw_args: Vec::new(),
        selected_command: None,
    }
}

#[test]
fn scenario_port_precedence() {
    // Field `port`, sources [Clap, Env, Config], default 8080; only the
    // configuration file defines port = 9090.
    let f = FieldSchema {
        name: s("port"),
        sources: vec![
            SourceSpec::Clap { key: None },
            SourceSpec::Env { key: None },
            SourceSpec::Config { key: None },
        ],
        default: Some(Value::Int(8080)),
    };
    let mut c = bare_ctx();
    c.file = tbl(vec![("port", Value::Int(9090))]);
    assert_eq!(resolve_field(&f, &c, &None).unwrap(), Value::Int(9090));

    // With the environment also set, the earlier source wins.
    c.env = EnvData::normalized(&pairs(vec![("port", "7070")]));
    assert_eq!(resolve_field(&f, &c, &None).unwrap(), Value::Int(7070));

    // With the command line matched too, it wins over everything.
    c.clap = pairs(vec![("port", "6060")]);
    assert_eq!(resolve_field(&f, &c, &None).unwrap(), Value::Int(6060));

    // With no source present at all, the default is used — last.
    let c2 = bare_ctx();
    assert_eq!(resolve_field(&f, &c2, &None).unwrap(), Value::Int(8080));
}

#[test]
fn scenario_missing_env() {
    // Field `name`, sources [Env], no default, environment unset.
    let f = FieldSchema {
        name: s("name"),
        sources: vec![SourceSpec::Env { key: None }],
        default: None,
    };
    let c = bare_ctx();
    match resolve_field(&f, &c, &None) {
        Err(Error::MissingArgument(msg)) => {
            assert_eq!(msg, s("field name not found nor in env nor as a default"));
        },
        other => panic!("missing-argument error expected, got {:?}", other),
    }
}

#[test]
fn env_case_insensitivity() {
    // Setting MY_KEY or my_key both satisfy a field whose derived env key
    // is my_key.
    let f = FieldSchema {
        name: s("my_key"),
        sources: vec![SourceSpec::Env { key: None }],
        default: None,
    };
    let mut c = bare_ctx();
    c.env = EnvData::normalized(&pairs(vec![("MY_KEY", "1")]));
    assert_eq!(resolve_field(&f, &c, &None).unwrap(), Value::Int(1));
    c.env = EnvData::normalized(&pairs(vec![("my_key", "1")]));
    assert_eq!(resolve_field(&f, &c, &None).unwrap(), Value::Int(1));
}

#[test]
fn merge_override() {
    // F1 defines a=1, b=2; F2, merged after it, defines b=3.
    let f1 = tbl(vec![("a", Value::Int(1)), ("b", Value::Int(2))]);
    let f2 = tbl(vec![("b", Value::Int(3))]);
    let merged = merge_tables_x(&f1, &f2);
    assert_eq!(merged, tbl(vec![("a", Value::Int(1)), ("b", Value::Int(3))]));

    // Partially overlapping tables compose key by key.
    let f1 = tbl(vec![("t", Value::Table(tbl(vec![("x", Value::Int(1)), ("y", Value::Int(2))])))]);
    let f2 = tbl(vec![("t", Value::Table(tbl(vec![("y", Value::Int(9)), ("z", Value::Int(3))])))]);
    let merged = merge_tables_x(&f1, &f2);
    assert_eq!(
        merged,
        tbl(vec![("t", Value::Table(tbl(vec![
            ("x", Value::Int(1)),
            ("y", Value::Int(9)),
            ("z", Value::Int(3)),
        ])))])
    );
}

#[test]
fn path_traversal() {
    // Config path x.y.z under table scope s queries s.x.y.z.
    let f = FieldSchema {
        name: s("field"),
        sources: vec![SourceSpec::Config { key: Some(s("x.y.z")) }],
        default: Some(Value::Int(0)),
    };
    let scope = Some(s("s"));
    let deep = tbl(vec![(
        "s",
        Value::Table(tbl(vec![(
            "x",
            Value::Table(tbl(vec![(
                "y",
                Value::Table(tbl(vec![("z", Value::Int(7))])),
            )])),
        )])),
    )]);
    let mut c = bare_ctx();
    c.file = deep;
    assert_eq!(resolve_field(&f, &c, &scope).unwrap(), Value::Int(7));

    // A missing scope table is plain absence: the default applies.
    let mut c = bare_ctx();
    c.file = tbl(vec![("other", Value::Int(1))]);
    assert_eq!(resolve_field(&f, &c, &scope).unwrap(), Value::Int(0));

    // A scope that exists as a non-table is a hard error, not a fallback.
    let mut c = bare_ctx();
    c.file = tbl(vec![("s", Value::Int(5))]);
    match resolve_field(&f, &c, &scope) {
        Err(Error::FailedParse(msg)) => {
            assert_eq!(
                msg,
                s("Field s is found in configuration files but it is not a table")
            );
        },
        other => panic!("hard error expected, got {:?}", other),
    }
}

#[test]
fn round_trip_kinds() {
    // Every supported structured kind survives serialize-then-parse.
    let samples = vec![
        Value::Null,
        Value::Bool(true),
        Value::Bool(false),
        Value::Int(0),
        Value::Int(-42),
        Value::Int(i64::MAX),
        Value::Int(i64::MIN),
        Value::Float(s("31.4159265")),
        Value::Float(s("-2.5e10")),
        Value::Str(s("")),
        Value::Str(s("Mike \"quoted\" \\ and\nnewline\ttab")),
        Value::Array(vec![]),
        Value::Array(vec![Value::Int(1), Value::Str(s("two")), Value::Null]),
        Value::Table(vec![]),
        Value::Table(tbl(vec![
            ("a", Value::Int(1)),
            ("nested", Value::Table(tbl(vec![("b", Value::Array(vec![Value::Bool(true)]))]))),
        ])),
    ];
    for v in samples {
        let text = to_text(&v);
        assert_eq!(parse_payload(&text), Some(v));
    }
}

#[test]
fn intermediate_text_form() {
    // The exact compact rendering.
    let v = Value::Table(tbl(vec![
        ("name", Value::Str(s("Mike"))),
        ("age", Value::Int(-3)),
        ("tags", Value::Array(vec![Value::Str(s("a b")), Value::Null])),
    ]));
    assert_eq!(to_text(&v), s("{\"name\":\"Mike\",\"age\":-3,\"tags\":[\"a b\",null]}"));
    assert_eq!(to_text(&Value::Str(s("say \"hi\""))), s("\"say \\\"hi\\\"\""));
}

#[test]
fn permissive_payloads() {
    // Unquoted scalars, signed 64-bit bounds, and oversize numbers.
    assert_eq!(parse_payload("foobar"), Some(Value::Str(s("foobar"))));
    assert_eq!(parse_payload("  true "), Some(Value::Bool(true)));
    assert_eq!(parse_payload("null"), Some(Value::Null));
    assert_eq!(
        parse_payload("-9223372036854775808"),
        Some(Value::Int(i64::MIN))
    );
    assert_eq!(
        parse_payload("9223372036854775807"),
        Some(Value::Int(i64::MAX))
    );
    assert_eq!(
        parse_payload("9223372036854775808"),
        Some(Value::Float(s("9223372036854775808")))
    );
    assert_eq!(parse_payload("3.5"), Some(Value::Float(s("3.5"))));
    assert_eq!(parse_payload("[1, 2,]"), Some(Value::Array(vec![Value::Int(1), Value::Int(2)])));
    assert_eq!(
        parse_payload("{a: 1}"),
        Some(Value::Table(tbl(vec![("a", Value::Int(1))])))
    );
    // Malformed payloads are rejected, not guessed at.
    assert_eq!(parse_payload("{\"unclosed\": 1"), None);
    assert_eq!(parse_payload("\"unclosed"), None);
    assert_eq!(parse_payload(""), None);
}

#[test]
fn deserialization_failure_is_hard() {
    let f = FieldSchema {
        name: s("field"),
        sources: vec![SourceSpec::Clap { key: None }],
        default: Some(Value::Int(1)),
    };
    let mut c = bare_ctx();
    c.clap = pairs(vec![("field", "{\"unclosed\": 1")]);
    // The payload is present, so the default must not rescue it.
    assert!(matches!(resolve_field(&f, &c, &None), Err(Error::FailedParse(_))));
}

#[test]
fn external_errors() {
    // A selected subcommand that is absent from the raw arguments.
    let args = vec![s("--flag=1")];
    assert!(matches!(
        parse_subcommand(&args, &Some(s("run"))),
        Err(Error::ExternalError(_))
    ));
    // A binary-name prefix that was never injected.
    let f = FieldSchema {
        name: s("field"),
        sources: vec![SourceSpec::Env { key: None }],
        default: None,
    };
    let mut c = bare_ctx();
    c.env_prefix = None;
    c.exe_name = None;
    assert!(matches!(resolve_field(&f, &c, &None), Err(Error::ExternalError(_))));
}

#[test]
fn scenario_subcommand_slices() {
    // Raw args ["run", "--fast"], top-level match selects run.
    let args = vec![s("run"), s("--fast")];
    let slice = parse_subcommand(&args, &Some(s("run"))).unwrap().unwrap();
    assert_eq!(slice, vec![s(""), s("run"), s("--fast")]);
    // The match is case-insensitive on the argument tokens.
    let args = vec![s("RUN"), s("--fast")];
    let slice = parse_subcommand(&args, &Some(s("run"))).unwrap().unwrap();
    assert_eq!(slice, vec![s(""), s("RUN"), s("--fast")]);
    // No selection resolves to absence.
    let none: Option<String> = None;
    assert_eq!(parse_subcommand(&Vec::new(), &none).unwrap(), None);
}

#[test]
fn options_last_wins() {
    let opts = vec![
        ConfigOption::EnvPrefix(s("first")),
        ConfigOption::ExplicitSource(Source::Env(pairs(vec![("KEY", "1")]))),
        ConfigOption::EnvPrefix(s("second")),
        ConfigOption::ExplicitSource(Source::Clap(ClapSource::Empty)),
    ];
    let o = apply_options(opts);
    assert_eq!(o.env_prefix, Some(s("second")));
    assert!(matches!(o.clap, Some(ClapSource::Empty)));
    assert!(o.files.is_none());
    // The replacement environment was case-folded on its keys.
    let env = o.env.unwrap();
    assert_eq!(env.get("key"), Some(&s("1")));
    assert_eq!(env.get("KEY"), Some(&s("1")));
}

#[test]
fn table_scope_inheritance() {
    // A nested schema's own table scope overrides the parent's; one
    // without a declaration inherits it.
    let child_scoped = Schema {
        table: Some(s("img")),
        fields: vec![FieldSchema {
            name: s("frame_rate"),
            sources: vec![SourceSpec::Config { key: None }],
            default: None,
        }],
        flattens: Vec::new(),
        subcommand: None,
    };
    let child_plain = Schema {
        table: None,
        fields: vec![FieldSchema {
            name: s("b"),
            sources: vec![SourceSpec::Config { key: None }],
            default: None,
        }],
        flattens: Vec::new(),
        subcommand: None,
    };
    let main = Schema {
        table: Some(s("input")),
        fields: Vec::new(),
        flattens: vec![(s("img"), child_scoped), (s("plain"), child_plain)],
        subcommand: None,
    };
    let mut c = bare_ctx();
    c.file = tbl(vec![
        ("img", Value::Table(tbl(vec![("frame_rate", Value::Int(16000))]))),
        ("input", Value::Table(tbl(vec![("b", Value::Str(s("mama")))]))),
    ]);
    let r = resolve_schema(&main, &c, &None).unwrap();
    assert_eq!(r.nested[0].1.values, tbl(vec![("frame_rate", Value::Int(16000))]));
    assert_eq!(r.nested[1].1.values, tbl(vec![("b", Value::Str(s("mama")))]));
}
