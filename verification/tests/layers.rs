//! Layered sources: the declared order decides, and the default always
//! comes last, wherever it was written.

use config_manager::{Context, EnvData, FieldSchema, SourceSpec, Value, resolve_field};

fn s(x: &str) -> String {
    x.to_string()
}

fn pairs(v: Vec<(&str, &str)>) -> Vec<(String, String)> {
    v.into_iter().map(|(a, b)| (s(a), s(b))).collect()
}

fn toml_tree() -> Vec<(String, Value)> {
    vec![
        (s("int"), Value::Int(1)),
        (s("config"), Value::Int(3)),
        (s("toml"), Value::Int(2)),
    ]
}

fn layered_ctx(clap: Vec<(&str, &str)>, env: Vec<(&str, &str)>, prefix: &str) -> Context {
    Context {
        clap: pairs(clap),
        env: EnvData::normalized(&pairs(env)),
        file: toml_tree(),
        env_prefix: Some(s(prefix)),
        exe_name: None,
        raw_args: Vec::new(),
        selected_command: None,
    }
}

fn field(name: &str, sources: Vec<SourceSpec>, default: Option<Value>) -> FieldSchema {
    FieldSchema { name: s(name), sources, default }
}

fn clap_src() -> SourceSpec {
    SourceSpec::Clap { key: None }
}

fn env_src(key: Option<&str>) -> SourceSpec {
    SourceSpec::Env { key: key.map(s) }
}

fn config_src(key: Option<&str>) -> SourceSpec {
    SourceSpec::Config { key: key.map(s) }
}

#[test]
fn sources_absense() {
    // A field whose only source is its default ignores a matching
    // environment variable.
    let c = layered_ctx(vec![], vec![("my_int", "1")], "my");
    let f = field("int", vec![], Some(Value::Int(0)));
    assert_eq!(resolve_field(&f, &c, &None).unwrap(), Value::Int(0));
}

#[test]
fn sources_priority() {
    let c = layered_ctx(
        vec![("clap", "2"), ("config", "10")],
        vec![("my_env", "1")],
        "my",
    );
    let env_f = field("env", vec![clap_src(), env_src(None), config_src(None)], None);
    assert_eq!(resolve_field(&env_f, &c, &None).unwrap(), Value::Int(1));
    let clap_f = field("clap", vec![env_src(None), config_src(None), clap_src()], None);
    assert_eq!(resolve_field(&clap_f, &c, &None).unwrap(), Value::Int(2));
    let config_f = field("config", vec![config_src(None), clap_src()], None);
    assert_eq!(resolve_field(&config_f, &c, &None).unwrap(), Value::Int(3));
}

#[test]
fn fallback_sources() {
    let c = layered_ctx(vec![], vec![("env2", "2")], "my");
    let env_f = field("env", vec![env_src(None), env_src(Some("env2"))], Some(Value::Int(0)));
    assert_eq!(resolve_field(&env_f, &c, &None).unwrap(), Value::Int(2));
    // The default was written between two config sources, yet the second
    // source still beats it.
    let config_f = field(
        "config",
        vec![config_src(Some("lan")), config_src(None)],
        Some(Value::Int(0)),
    );
    assert_eq!(resolve_field(&config_f, &c, &None).unwrap(), Value::Int(3));
}

#[test]
fn short_sources() {
    let c = layered_ctx(vec![("clap", "2")], vec![("my_env", "1")], "my");
    let default_f = field("default", vec![], Some(Value::Int(0)));
    assert_eq!(resolve_field(&default_f, &c, &None).unwrap(), Value::Int(0));
    let env_f = field("env", vec![env_src(None)], None);
    assert_eq!(resolve_field(&env_f, &c, &None).unwrap(), Value::Int(1));
    let clap_f = field("clap", vec![clap_src()], None);
    assert_eq!(resolve_field(&clap_f, &c, &None).unwrap(), Value::Int(2));
    let config_f = field("config", vec![config_src(None)], None);
    assert_eq!(resolve_field(&config_f, &c, &None).unwrap(), Value::Int(3));
}

#[test]
fn default_priority() {
    // The implicit order is command line, environment, configuration.
    let mut c = layered_ctx(
        vec![("int", "0")],
        vec![("int_env", "1"), ("int", "1000")],
        "",
    );
    c.file.push((s("toml"), Value::Int(2)));
    let implicit = |name: &str| field(
        name,
        vec![clap_src(), env_src(None), config_src(None)],
        None,
    );
    assert_eq!(resolve_field(&implicit("int"), &c, &None).unwrap(), Value::Int(0));
    assert_eq!(resolve_field(&implicit("int_env"), &c, &None).unwrap(), Value::Int(1));
    assert_eq!(resolve_field(&implicit("toml"), &c, &None).unwrap(), Value::Int(2));
}

#[test]
fn custom_priority() {
    // A declared order env, config, clap — with the default still last.
    let c = layered_ctx(
        vec![("int_env", "0"), ("toml", "0"), ("clap", "1")],
        vec![("int_env", "3")],
        "",
    );
    let ordered = |name: &str, default: Value| field(
        name,
        vec![env_src(None), config_src(None), clap_src()],
        Some(default),
    );
    assert_eq!(
        resolve_field(&ordered("int_env", Value::Int(0)), &c, &None).unwrap(),
        Value::Int(3)
    );
    assert_eq!(
        resolve_field(&ordered("toml", Value::Int(0)), &c, &None).unwrap(),
        Value::Int(2)
    );
    assert_eq!(
        resolve_field(&ordered("clap", Value::Int(0)), &c, &None).unwrap(),
        Value::Int(1)
    );
    assert_eq!(
        resolve_field(&ordered("default", Value::Array(Vec::new())), &c, &None).unwrap(),
        Value::Array(Vec::new())
    );
}
