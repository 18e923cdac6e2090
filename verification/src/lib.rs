//! Source-preserving vertical-spacing policies for Rust statements and items.
//!
//! All ranges refer to normalized UTF-8 source (LF newlines, no BOM). The compiler
//! adapter translates suggestions back to the original file's newline convention.
use vstd::prelude::*;

pub mod analysis;
pub mod baseline;
pub mod config;
pub mod diagnostics;
pub mod edits;
pub mod json;
pub mod manifest;
pub mod model;
pub mod patch;
mod planner;
pub mod relations;
pub mod runs;
pub mod slices;
pub mod snapshot;
pub mod spans;
pub mod suggestions;
pub mod syntax;
pub mod text;
pub mod transactions;
pub mod workflow;
pub mod workspace;

pub use config::Config;
pub use edits::{apply_edits, Edit};
pub use model::{
    ByteRange, Facts, Gap, ItemKind, Place, Rule, RuleMask, SourceModel, Unit, UnitKind, UnitList,
};
pub use planner::{plan, Finding, Plan};

verus! {

/// Returns this package's Cargo name.
pub fn package_name() -> (name: &'static str)
    ensures
        name@ == "rust-statement-spacing"@,
{
    "rust-statement-spacing"
}

} // verus!
