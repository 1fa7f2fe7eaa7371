//! The verified core of a language server for delimited data files.

use vstd::prelude::*;

pub mod description;
pub mod diagnostics;
pub mod document;
pub mod loader;
pub mod messages;
pub mod navigation;
pub mod number;
pub mod paths;
pub mod report;
pub mod schema;
pub mod settings;
pub mod symbols;
pub mod text;
pub mod workspace;

verus! {

} // verus!
