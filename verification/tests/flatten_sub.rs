//! Flattened sub-schemas, subcommand resolution, and the whole engine in
//! one pass.

use config_manager::{Context, EnvData, Error, FieldSchema, Schema, SourceSpec,
    SubcommandSchema, Value, parse_subcommand, resolve_schema};

fn s(x: &str) -> String {
    x.to_string()
}

fn pairs(v: Vec<(&str, &str)>) -> Vec<(String, String)> {
    v.into_iter().map(|(a, b)| (s(a), s(b))).collect()
}

fn strs(v: Vec<&str>) -> Vec<String> {
    v.into_iter().map(s).collect()
}

fn tbl(entries: Vec<(&str, Value)>) -> Vec<(String, Value)> {
    entries.into_iter().map(|(k, v)| (s(k), v)).collect()
}

fn all_sources(name: &str) -> FieldSchema {
    FieldSchema {
        name: s(name),
        sources: vec![
            SourceSpec::Clap { key: None },
            SourceSpec::Env { key: None },
            SourceSpec::Config { key: None },
        ],
        default: None,
    }
}

fn leaf_schema(fields: Vec<FieldSchema>) -> Schema {
    Schema { table: None, fields, flattens: Vec::new(), subcommand: None }
}

#[test]
fn flatten() {
    // simple_flatten
    let nested = leaf_schema(vec![
        all_sources("i32"),
        all_sources("string"),
        FieldSchema {
            name: s("map_even"),
            sources: vec![SourceSpec::Config { key: None }],
            default: None,
        },
    ]);
    let main = Schema {
        table: None,
        fields: vec![all_sources("u8")],
        flattens: vec![(s("nested"), nested)],
        subcommand: None,
    };
    let map_even = Value::Table(tbl(vec![
        ("1", Value::Bool(false)),
        ("2", Value::Bool(true)),
        ("42", Value::Bool(true)),
    ]));
    let ctx = Context {
        clap: pairs(vec![("u8", "255"), ("i32", "22")]),
        env: EnvData::normalized(&pairs(vec![("string", "bazqux")])),
        file: tbl(vec![("map_even", map_even.clone())]),
        env_prefix: Some(s("")),
        exe_name: None,
        raw_args: Vec::new(),
        selected_command: None,
    };
    let r = resolve_schema(&main, &ctx, &None).unwrap();
    assert_eq!(r.values, tbl(vec![("u8", Value::Int(255))]));
    assert_eq!(r.nested.len(), 1);
    assert_eq!(r.nested[0].0, s("nested"));
    assert_eq!(
        r.nested[0].1.values,
        tbl(vec![
            ("i32", Value::Int(22)),
            ("string", Value::Str(s("bazqux"))),
            ("map_even", map_even),
        ])
    );

    // complex_flatten: two levels of nesting, all from the command line.
    let twice = leaf_schema(vec![FieldSchema {
        name: s("field"),
        sources: vec![SourceSpec::Clap { key: None }],
        default: None,
    }]);
    let nested = Schema {
        table: None,
        fields: vec![
            FieldSchema {
                name: s("int"),
                sources: vec![SourceSpec::Clap { key: None }],
                default: None,
            },
            FieldSchema {
                name: s("name"),
                sources: vec![SourceSpec::Clap { key: None }],
                default: None,
            },
        ],
        flattens: vec![(s("twice"), twice)],
        subcommand: None,
    };
    let main = Schema {
        table: None,
        fields: Vec::new(),
        flattens: vec![(s("nested"), nested)],
        subcommand: None,
    };
    let ctx = Context {
        clap: pairs(vec![("int", "1"), ("name", "Mike"), ("field", "2")]),
        env: EnvData::normalized(&Vec::new()),
        file: Vec::new(),
        env_prefix: Some(s("")),
        exe_name: None,
        raw_args: Vec::new(),
        selected_command: None,
    };
    let r = resolve_schema(&main, &ctx, &None).unwrap();
    let n = &r.nested[0].1;
    assert_eq!(
        n.values,
        tbl(vec![("int", Value::Int(1)), ("name", Value::Str(s("Mike")))])
    );
    assert_eq!(n.nested[0].1.values, tbl(vec![("field", Value::Int(2))]));

    // env_initialized_flatten: the prefix is inherited verbatim by the
    // nested schemas, and an explicit env key escapes it.
    let twice = leaf_schema(vec![all_sources("i32_field"), all_sources("string_field")]);
    let nested = Schema {
        table: None,
        fields: vec![
            FieldSchema {
                name: s("int"),
                sources: vec![SourceSpec::Env { key: Some(s("override_int")) }],
                default: None,
            },
            all_sources("name"),
        ],
        flattens: vec![(s("twice"), twice)],
        subcommand: None,
    };
    let main = Schema {
        table: None,
        fields: Vec::new(),
        flattens: vec![(s("nested"), nested)],
        subcommand: None,
    };
    let ctx = Context {
        clap: pairs(vec![("i32_field", "2")]),
        env: EnvData::normalized(&pairs(vec![
            ("flatten_INT", "will not be used"),
            ("OVERRIDE_INT", "1"),
            ("flatten_name", "Mike"),
            ("flatten_i32_field", "will not be used"),
            ("FLATTEN_STRING_FIELD", "foobar"),
        ])),
        file: Vec::new(),
        env_prefix: Some(s("FLATTEN")),
        exe_name: None,
        raw_args: Vec::new(),
        selected_command: None,
    };
    let r = resolve_schema(&main, &ctx, &None).unwrap();
    let n = &r.nested[0].1;
    assert_eq!(
        n.values,
        tbl(vec![("int", Value::Int(1)), ("name", Value::Str(s("Mike")))])
    );
    assert_eq!(
        n.nested[0].1.values,
        tbl(vec![
            ("i32_field", Value::Int(2)),
            ("string_field", Value::Str(s("foobar"))),
        ])
    );
}

#[test]
fn subcommand() {
    // simple_subcommand
    let args = strs(vec![
        "--common=true",
        "first-and-only",
        "--i32=101",
        "--string=foobar",
        "--opt-i32=-1",
    ]);
    let slice = parse_subcommand(&args, &Some(s("first-and-only"))).unwrap().unwrap();
    assert_eq!(
        slice,
        strs(vec!["", "first-and-only", "--i32=101", "--string=foobar", "--opt-i32=-1"])
    );
    let main = Schema {
        table: None,
        fields: vec![FieldSchema {
            name: s("common"),
            sources: vec![
                SourceSpec::Clap { key: None },
                SourceSpec::Env { key: None },
                SourceSpec::Config { key: None },
            ],
            default: None,
        }],
        flattens: Vec::new(),
        subcommand: Some(SubcommandSchema { name: s("subcommand"), optional: false }),
    };
    let ctx = Context {
        clap: pairs(vec![("common", "true")]),
        env: EnvData::normalized(&Vec::new()),
        file: Vec::new(),
        env_prefix: Some(s("")),
        exe_name: None,
        raw_args: args,
        selected_command: Some(s("first-and-only")),
    };
    let r = resolve_schema(&main, &ctx, &None).unwrap();
    assert_eq!(r.values, tbl(vec![("common", Value::Bool(true))]));
    assert_eq!(
        r.subcommand,
        Some(Some(strs(vec![
            "",
            "first-and-only",
            "--i32=101",
            "--string=foobar",
            "--opt-i32=-1",
        ])))
    );

    // multiple_subcommands
    let args = strs(vec!["foo-subcommand"]);
    let slice = parse_subcommand(&args, &Some(s("foo-subcommand"))).unwrap().unwrap();
    assert_eq!(slice, strs(vec!["", "foo-subcommand"]));
    let args = strs(vec!["bar-subcommand", "--point=(1,2)"]);
    let slice = parse_subcommand(&args, &Some(s("bar-subcommand"))).unwrap().unwrap();
    assert_eq!(slice, strs(vec!["", "bar-subcommand", "--point=(1,2)"]));

    // optional_subcommand
    let args = strs(vec!["add", "--name=Mike"]);
    let slice = parse_subcommand(&args, &Some(s("add"))).unwrap().unwrap();
    assert_eq!(slice, strs(vec!["", "add", "--name=Mike"]));
    let args = strs(vec!["add"]);
    let slice = parse_subcommand(&args, &Some(s("add"))).unwrap().unwrap();
    assert_eq!(slice, strs(vec!["", "add"]));
    let args = strs(vec!["sub", "--field=2"]);
    let slice = parse_subcommand(&args, &Some(s("sub"))).unwrap().unwrap();
    assert_eq!(slice, strs(vec!["", "sub", "--field=2"]));

    // an absent subcommand is legal exactly when the field is optional
    let optional_main = Schema {
        table: None,
        fields: Vec::new(),
        flattens: Vec::new(),
        subcommand: Some(SubcommandSchema { name: s("command"), optional: true }),
    };
    let ctx = Context {
        clap: Vec::new(),
        env: EnvData::normalized(&Vec::new()),
        file: Vec::new(),
        env_prefix: Some(s("")),
        exe_name: None,
        raw_args: Vec::new(),
        selected_command: None,
    };
    let r = resolve_schema(&optional_main, &ctx, &None).unwrap();
    assert_eq!(r.subcommand, Some(None));
    let required_main = Schema {
        table: None,
        fields: Vec::new(),
        flattens: Vec::new(),
        subcommand: Some(SubcommandSchema { name: s("command"), optional: false }),
    };
    assert!(matches!(
        resolve_schema(&required_main, &ctx, &None),
        Err(Error::MissingArgument(_))
    ));
}

#[test]
fn big_test() {
    let schema = Schema {
        table: None,
        fields: vec![
            FieldSchema {
                name: s("a"),
                sources: vec![
                    SourceSpec::Clap { key: None },
                    SourceSpec::Env { key: None },
                    SourceSpec::Config { key: None },
                ],
                default: None,
            },
            FieldSchema {
                name: s("b"),
                sources: vec![
                    SourceSpec::Env { key: Some(s("env_b")) },
                    SourceSpec::Config { key: Some(s("name")) },
                ],
                default: Some(Value::Str(s("abc"))),
            },
            FieldSchema {
                name: s("c"),
                sources: vec![
                    SourceSpec::Config { key: Some(s("bpm")) },
                    SourceSpec::Clap { key: None },
                ],
                default: None,
            },
            FieldSchema {
                name: s("d"),
                sources: Vec::new(),
                default: Some(Value::Table(Vec::new())),
            },
            FieldSchema {
                name: s("e"),
                sources: vec![SourceSpec::Clap { key: Some(s("struct")) }],
                default: Some(Value::Table(tbl(vec![("data", Value::Str(s("Second")))]))),
            },
        ],
        flattens: Vec::new(),
        subcommand: None,
    };
    let ctx = Context {
        clap: pairs(vec![("c", "165"), ("struct", "{\"data\": {\"First\": 7}}")]),
        env: EnvData::normalized(&pairs(vec![
            ("config", "./tests/data/config.json"),
            ("a_a", "5"),
        ])),
        file: tbl(vec![("int", Value::Int(1)), ("name", Value::Str(s("Mike")))]),
        env_prefix: Some(s("a")),
        exe_name: None,
        raw_args: Vec::new(),
        selected_command: None,
    };
    let r = resolve_schema(&schema, &ctx, &None).unwrap();
    assert_eq!(
        r.values,
        tbl(vec![
            ("a", Value::Int(5)),
            ("b", Value::Str(s("Mike"))),
            ("c", Value::Int(165)),
            ("d", Value::Table(Vec::new())),
            ("e", Value::Table(tbl(vec![(
                "data",
                Value::Table(tbl(vec![("First", Value::Int(7))])),
            )]))),
        ])
    );
}
