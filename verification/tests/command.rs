//! The command-line grammar a schema implies: the keys the external
//! matcher must define, in declaration order.

use config_manager::{FieldSchema, Schema, SourceSpec, Value, clap_keys, check_well_sourced};

fn s(x: &str) -> String {
    x.to_string()
}

#[test]
fn get_command() {
    // Fields a, c and e reach the command line — e under its explicit key
    // — while b and d do not.
    let schema = Schema {
        table: None,
        fields: vec![
            FieldSchema {
                name: s("a"),
                sources: vec![SourceSpec::Clap { key: None }],
                default: None,
            },
            FieldSchema {
                name: s("b"),
                sources: vec![SourceSpec::Env { key: None }],
                default: Some(Value::Str(s("abc"))),
            },
            FieldSchema {
                name: s("c"),
                sources: vec![
                    SourceSpec::Clap { key: None },
                    SourceSpec::Config { key: Some(s("bpm")) },
                ],
                default: None,
            },
            FieldSchema {
                name: s("d"),
                sources: vec![],
                default: Some(Value::Table(Vec::new())),
            },
            FieldSchema {
                name: s("e"),
                sources: vec![SourceSpec::Clap { key: Some(s("field")) }],
                default: None,
            },
        ],
        flattens: Vec::new(),
        subcommand: None,
    };
    assert_eq!(clap_keys(&schema), vec![s("a"), s("c"), s("field")]);

    // Flattened schemas contribute their keys after the parent's.
    let nested = Schema {
        table: None,
        fields: vec![FieldSchema {
            name: s("inner"),
            sources: vec![SourceSpec::Clap { key: None }],
            default: None,
        }],
        flattens: Vec::new(),
        subcommand: None,
    };
    let main = Schema {
        table: None,
        fields: vec![FieldSchema {
            name: s("outer"),
            sources: vec![SourceSpec::Clap { key: None }],
            default: None,
        }],
        flattens: vec![(s("nested"), nested)],
        subcommand: None,
    };
    assert_eq!(clap_keys(&main), vec![s("outer"), s("inner")]);
}

#[test]
fn well_sourced_schema() {
    // A field with neither a source nor a default is a definition-time
    // error; everything else passes.
    let good = Schema {
        table: None,
        fields: vec![FieldSchema {
            name: s("a"),
            sources: vec![SourceSpec::Env { key: None }],
            default: None,
        }],
        flattens: Vec::new(),
        subcommand: None,
    };
    assert!(check_well_sourced(&good));
    let bad_field = FieldSchema { name: s("b"), sources: vec![], default: None };
    let bad = Schema {
        table: None,
        fields: vec![bad_field],
        flattens: Vec::new(),
        subcommand: None,
    };
    assert!(!check_well_sourced(&bad));
    let nested_bad = Schema {
        table: None,
        fields: Vec::new(),
        flattens: vec![(s("inner"), bad)],
        subcommand: None,
    };
    assert!(!check_well_sourced(&nested_bad));
    let default_only = Schema {
        table: None,
        fields: vec![FieldSchema {
            name: s("c"),
            sources: vec![],
            default: Some(Value::Int(1)),
        }],
        flattens: Vec::new(),
        subcommand: None,
    };
    assert!(check_well_sourced(&default_only));
}
