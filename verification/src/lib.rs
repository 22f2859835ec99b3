//! Configuration resolution engine.
//!
//! The value of each configuration field is searched in an ordered list of
//! sources — matched command-line arguments, an environment snapshot and
//! merged configuration-file trees — with an optional default consulted last.
//! The winning raw payload is deserialized from a permissive, JSON-like text
//! form into a structured [`value::Value`].
//!
//! The engine itself performs no I/O: command-line matching, environment
//! capture and file parsing are collaborator responsibilities, and their
//! results are handed in as plain data.

use vstd::prelude::*;

pub mod chars;
pub mod composite;
pub mod env;
pub mod lookup;
pub mod merge;
pub mod num;
pub mod options;
pub mod parse;
pub mod reader;
pub mod resolve;
pub mod roundtrip;
pub mod schema;
pub mod text;
pub mod value;

pub use crate::composite::{Resolution, parse_subcommand, resolve_schema,
    check_no_nested_subcommand};
pub use crate::env::EnvData;
pub use crate::lookup::find_field_in_table;
pub use crate::merge::{merge_tables_x, merge_trees};
pub use crate::options::{ClapSource, ConfigOption, FileDecl, FileFormat, FileOptions,
    OptionOverrides, Source, apply_options, resolve_file_paths};
pub use crate::reader::parse_payload;
pub use crate::resolve::{Resolved, SourceKind, resolve_field, resolve_field_raw};
pub use crate::schema::{Context, FieldSchema, Schema, SourceSpec, SubcommandSchema, clap_keys,
    check_well_sourced};
pub use crate::text::to_text;
pub use crate::value::Value;

verus! {

/// Runtime resolution error.
#[derive(Debug, PartialEq, Eq)]
pub enum Error {
    /// No source yielded a payload and no default exists.
    MissingArgument(String),
    /// A payload was found but could not be deserialized, or a
    /// configuration-file path ran through a non-table value.
    FailedParse(String),
    /// A failure originating in a collaborator.
    ExternalError(String),
}

/// The model of a resolution error.
pub enum ErrV {
    Missing(Seq<char>),
    Parse(Seq<char>),
    External(Seq<char>),
}

impl View for Error {
    type V = ErrV;

    open spec fn view(&self) -> ErrV {
        match self {
            Error::MissingArgument(m) => ErrV::Missing(m@),
            Error::FailedParse(m) => ErrV::Parse(m@),
            Error::ExternalError(m) => ErrV::External(m@),
        }
    }
}

impl Error {
    /// The diagnostic message carried by any variant.
    pub open spec fn msg(&self) -> Seq<char> {
        match self {
            Error::MissingArgument(m) => m@,
            Error::FailedParse(m) => m@,
            Error::ExternalError(m) => m@,
        }
    }

    /// Read access to the diagnostic message.
    pub fn message(&self) -> (r: &String)
        ensures
            r@ == self.msg(),
    {
        match self {
            Error::MissingArgument(m) => m,
            Error::FailedParse(m) => m,
            Error::ExternalError(m) => m,
        }
    }
}

} // verus!
