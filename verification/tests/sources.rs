//! Resolution from single sources: matched command-line arguments, the
//! environment snapshot, prefixes, and empty payloads.

use config_manager::{Context, EnvData, Error, FieldSchema, SourceSpec, Value, resolve_field,
    resolve_field_raw, Resolved};

fn s(x: &str) -> String {
    x.to_string()
}

fn pairs(v: Vec<(&str, &str)>) -> Vec<(String, String)> {
    v.into_iter().map(|(a, b)| (s(a), s(b))).collect()
}

fn ctx(clap: Vec<(&str, &str)>, env: Vec<(&str, &str)>, prefix: Option<&str>) -> Context {
    Context {
        clap: pairs(clap),
        env: EnvData::normalized(&pairs(env)),
        file: Vec::new(),
        env_prefix: prefix.map(s),
        exe_name: None,
        raw_args: Vec::new(),
        selected_command: None,
    }
}

fn plain_field(name: &str, sources: Vec<SourceSpec>) -> FieldSchema {
    FieldSchema { name: s(name), sources, default: None }
}

fn clap_src(key: Option<&str>) -> SourceSpec {
    SourceSpec::Clap { key: key.map(s) }
}

fn env_src(key: Option<&str>) -> SourceSpec {
    SourceSpec::Env { key: key.map(s) }
}

#[test]
fn clap() {
    // Five plainly matched arguments, under derived and explicit keys.
    let c = ctx(
        vec![
            ("plain", "1"),
            ("long", "2"),
            ("specified-long", "3"),
            ("unspecified_short", "4"),
            ("short2", "5"),
        ],
        vec![],
        Some(""),
    );
    let none: Option<String> = None;
    let cases = vec![
        ("plain", None, 1i64),
        ("long", None, 2),
        ("long2", Some("specified-long"), 3),
        ("unspecified_short", None, 4),
        ("short2", None, 5),
    ];
    for (name, key, expect) in cases {
        let f = plain_field(name, vec![clap_src(key)]);
        assert_eq!(resolve_field(&f, &c, &none).unwrap(), Value::Int(expect));
    }

    // A structured payload: an array holding a bare token, nested tables
    // with a null, and unquoted numeric keys.
    let payload = "[\n  \"Simple\",\n  {\"Struct\": {\n    \"name\": \"Mike\",\n    \
                   \"last_name\": null,\n    \"age\": 22\n  }},\n  {\"Map\": {\n    1: false,\n    \
                   2: false,\n    42: true\n  }}\n]";
    let c2 = ctx(vec![("field", payload)], vec![], Some(""));
    let f = plain_field("field", vec![clap_src(None)]);
    let expected = Value::Array(vec![
        Value::Str(s("Simple")),
        Value::Table(vec![(
            s("Struct"),
            Value::Table(vec![
                (s("name"), Value::Str(s("Mike"))),
                (s("last_name"), Value::Null),
                (s("age"), Value::Int(22)),
            ]),
        )]),
        Value::Table(vec![(
            s("Map"),
            Value::Table(vec![
                (s("1"), Value::Bool(false)),
                (s("2"), Value::Bool(false)),
                (s("42"), Value::Bool(true)),
            ]),
        )]),
    ]);
    assert_eq!(resolve_field(&f, &c2, &None).unwrap(), expected);
}

#[test]
fn env() {
    // single_var
    let c = ctx(vec![], vec![("a", "100")], Some(""));
    let f = plain_field("a", vec![env_src(Some("a"))]);
    assert_eq!(resolve_field(&f, &c, &None).unwrap(), Value::Int(100));

    // two_vars_one_is_default
    let c = ctx(vec![], vec![("a", "foobar")], Some(""));
    let fa = plain_field("a", vec![env_src(Some("a"))]);
    assert_eq!(resolve_field(&fa, &c, &None).unwrap(), Value::Str(s("foobar")));
    let fb = FieldSchema {
        name: s("b"),
        sources: vec![env_src(Some("b"))],
        default: Some(Value::Str(s("default b"))),
    };
    assert_eq!(resolve_field(&fb, &c, &None).unwrap(), Value::Str(s("default b")));

    // optional_var
    let c = ctx(vec![], vec![("a", "foobar")], Some(""));
    let f = plain_field("a", vec![env_src(Some("a"))]);
    assert_eq!(resolve_field(&f, &c, &None).unwrap(), Value::Str(s("foobar")));

    // optional_var_not_found: absence still is a missing argument
    let c = ctx(vec![], vec![], Some(""));
    let f = plain_field("a", vec![env_src(Some("a"))]);
    assert!(matches!(resolve_field(&f, &c, &None), Err(Error::MissingArgument(_))));
}

#[test]
fn env_prefix() {
    // empty_prefix
    let c = ctx(vec![], vec![("fir", "1"), ("second", "2")], Some(""));
    let first = plain_field("first", vec![env_src(Some("fir"))]);
    let second = plain_field("second", vec![env_src(None)]);
    assert_eq!(resolve_field(&first, &c, &None).unwrap(), Value::Int(1));
    assert_eq!(resolve_field(&second, &c, &None).unwrap(), Value::Int(2));

    // no_prefix: the schema-level default prefix is the empty one
    let c = ctx(vec![], vec![("fir", "1"), ("second", "2")], Some(""));
    assert_eq!(resolve_field(&first, &c, &None).unwrap(), Value::Int(1));
    assert_eq!(resolve_field(&second, &c, &None).unwrap(), Value::Int(2));

    // some_prefix: the derived key gets the prefix, the explicit one not
    let c = ctx(vec![], vec![("fir", "1"), ("some_second", "2")], Some("some"));
    assert_eq!(resolve_field(&first, &c, &None).unwrap(), Value::Int(1));
    assert_eq!(resolve_field(&second, &c, &None).unwrap(), Value::Int(2));

    // binary_prefix: the executable-name prefix hides a bare variable
    let mut c = ctx(vec![], vec![("first", "1")], None);
    c.exe_name = Some(s("parse_method"));
    let f = plain_field("first", vec![env_src(None)]);
    assert!(matches!(resolve_field(&f, &c, &None), Err(Error::MissingArgument(_))));
}

fn empty_set(x: &str) -> Result<i64, String> {
    if x.is_empty() {
        Ok(1)
    } else if x == "\"\"" {
        Ok(2)
    } else {
        Err(format!("not empty argument: {x}"))
    }
}

#[test]
fn test_empty_string() {
    // command line: --cli="" hands the two-quote payload through
    let file = vec![(s("empty"), Value::Str(s("")))];
    let mut c = ctx(vec![("cli", "\"\""), ("cli_deser", "\"\"")], vec![
        ("env", ""),
        ("env_deser", ""),
    ], Some(""));
    c.file = file;
    let none: Option<String> = None;

    let cli = plain_field("cli", vec![clap_src(None)]);
    assert_eq!(resolve_field(&cli, &c, &none).unwrap(), Value::Str(s("")));

    let cli_deser = plain_field("cli_deser", vec![clap_src(None)]);
    match resolve_field_raw(&cli_deser, &c, &none).unwrap() {
        Resolved::FromSource(_, payload) => assert_eq!(empty_set(&payload).unwrap(), 2),
        Resolved::FromDefault => panic!("payload expected"),
    }

    let env_f = plain_field("env", vec![env_src(None)]);
    assert_eq!(resolve_field(&env_f, &c, &none).unwrap(), Value::Str(s("")));

    let env_deser = plain_field("env_deser", vec![env_src(None)]);
    match resolve_field_raw(&env_deser, &c, &none).unwrap() {
        Resolved::FromSource(_, payload) => assert_eq!(empty_set(&payload).unwrap(), 1),
        Resolved::FromDefault => panic!("payload expected"),
    }

    let file_f = plain_field("file", vec![SourceSpec::Config { key: Some(s("empty")) }]);
    assert_eq!(resolve_field(&file_f, &c, &none).unwrap(), Value::Str(s("")));

    let file_deser = plain_field(
        "file_deser",
        vec![SourceSpec::Config { key: Some(s("empty")) }],
    );
    match resolve_field_raw(&file_deser, &c, &none).unwrap() {
        Resolved::FromSource(_, payload) => assert_eq!(empty_set(&payload).unwrap(), 2),
        Resolved::FromDefault => panic!("payload expected"),
    }
}
