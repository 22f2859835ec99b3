//! Defaults, custom deserializers and explicit key indirection.

use config_manager::{Context, EnvData, FieldSchema, FileDecl, FileFormat, SourceSpec, Value,
    resolve_field, resolve_field_raw, resolve_file_paths, Resolved};

fn s(x: &str) -> String {
    x.to_string()
}

fn pairs(v: Vec<(&str, &str)>) -> Vec<(String, String)> {
    v.into_iter().map(|(a, b)| (s(a), s(b))).collect()
}

fn ctx(clap: Vec<(&str, &str)>, env: Vec<(&str, &str)>) -> Context {
    Context {
        clap: pairs(clap),
        env: EnvData::normalized(&pairs(env)),
        file: Vec::new(),
        env_prefix: Some(s("")),
        exe_name: None,
        raw_args: Vec::new(),
        selected_command: None,
    }
}

#[test]
fn default_tests() {
    // The configuration file's path comes from the command line.
    let c = ctx(vec![("config", "./tests/data/config.json")], vec![]);
    let decls = vec![FileDecl {
        format: FileFormat::Json,
        clap_key: Some(s("config")),
        env_key: None,
        default_path: None,
        optional: false,
    }];
    let files = resolve_file_paths(&decls, &c.clap, &c.env).unwrap();
    assert_eq!(files.len(), 1);
    assert_eq!(files[0].path, s("./tests/data/config.json"));

    // `point` has only a default: the zero-valued record.
    let point = FieldSchema {
        name: s("point"),
        sources: vec![],
        default: Some(Value::Table(vec![(s("inner"), Value::Int(0))])),
    };
    assert_eq!(
        resolve_field(&point, &c, &None).unwrap(),
        Value::Table(vec![(s("inner"), Value::Int(0))])
    );

    // custom_default: a default carrying its own value.
    let point = FieldSchema {
        name: s("point"),
        sources: vec![],
        default: Some(Value::Table(vec![(s("inner"), Value::Int(101))])),
    };
    assert_eq!(
        resolve_field(&point, &c, &None).unwrap(),
        Value::Table(vec![(s("inner"), Value::Int(101))])
    );
}

fn deserialize_i32_and_add_1(x: &str) -> Result<i32, String> {
    match x.parse::<i32>() {
        Ok(x) => Ok(x + 1),
        Err(err) => Err(err.to_string()),
    }
}

#[test]
fn deserialize_with_tests() {
    let c = ctx(
        vec![("i32", "24"), ("string", "foobar")],
        vec![("i32", "24"), ("string", "foobar")],
    );
    let f_i32 = FieldSchema {
        name: s("i32"),
        sources: vec![
            SourceSpec::Clap { key: Some(s("i32")) },
            SourceSpec::Env { key: Some(s("i32")) },
        ],
        default: None,
    };
    match resolve_field_raw(&f_i32, &c, &None).unwrap() {
        Resolved::FromSource(_, payload) => {
            assert_eq!(deserialize_i32_and_add_1(&payload).unwrap(), 25);
        },
        Resolved::FromDefault => panic!("payload expected"),
    }
    let f_string = FieldSchema {
        name: s("string"),
        sources: vec![
            SourceSpec::Clap { key: Some(s("string")) },
            SourceSpec::Env { key: Some(s("string")) },
        ],
        default: None,
    };
    assert_eq!(resolve_field(&f_string, &c, &None).unwrap(), Value::Str(s("foobar")));
}

#[test]
fn init_from_tests() {
    // env_and_config_init_from: keys named through constants resolve the
    // same as explicit ones.
    let mut c = ctx(vec![], vec![("myenv", "1")]);
    c.file = vec![(s("int"), Value::Int(1))];
    let env_f = FieldSchema {
        name: s("env"),
        sources: vec![SourceSpec::Env { key: Some(s("myenv")) }],
        default: None,
    };
    assert_eq!(resolve_field(&env_f, &c, &None).unwrap(), Value::Int(1));
    let config_f = FieldSchema {
        name: s("config"),
        sources: vec![SourceSpec::Config { key: Some(s("int")) }],
        default: None,
    };
    assert_eq!(resolve_field(&config_f, &c, &None).unwrap(), Value::Int(1));

    // clap_init_from
    let c = ctx(vec![("i32", "24"), ("string", "foobar")], vec![]);
    let f_i32 = FieldSchema {
        name: s("i32"),
        sources: vec![SourceSpec::Clap { key: Some(s("i32")) }],
        default: None,
    };
    assert_eq!(resolve_field(&f_i32, &c, &None).unwrap(), Value::Int(24));
    let f_string = FieldSchema {
        name: s("string"),
        sources: vec![SourceSpec::Clap { key: Some(s("string")) }],
        default: None,
    };
    assert_eq!(resolve_field(&f_string, &c, &None).unwrap(), Value::Str(s("foobar")));
}
