//! Settings and command-line arguments.

use vstd::prelude::*;
use vstd::string::*;

verus! {

/// The command-line arguments.
#[derive(Debug)]
pub struct CliArgs {
    pub config_file: String,
    /// The schema directory (overrides the one in the settings).
    pub schema_path: Option<String>,
    /// Validate the workspace and exit (overrides the `single_shot` setting).
    pub single_shot: bool,
}

/// The settings that decide how the server runs.
#[derive(Debug)]
pub struct Settings {
    /// The directory with the schema scripts.
    pub schema_path: Option<String>,
    /// The variant of the schema to load.
    pub schema_variant: String,
    /// The directory to validate in single-shot mode.
    pub workspace_path: Option<String>,
    pub single_shot: bool,
    /// The extension of data files, without the dot.
    pub extension: String,
    /// The text whose first character separates cells.
    pub delimiter: String,
}

impl Settings {
    /// Lets the command line override the settings.
    pub fn apply(&mut self, args: CliArgs)
        ensures
            *final(self) == (Settings {
                schema_path: if args.schema_path is Some {
                    args.schema_path
                } else {
                    old(self).schema_path
                },
                single_shot: old(self).single_shot || args.single_shot,
                ..*old(self)
            }),
    {
        if args.schema_path.is_some() {
            self.schema_path = args.schema_path;
        }
        self.single_shot = self.single_shot || args.single_shot;
    }

    /// True when a schema is to be loaded.
    pub fn has_schema(&self) -> (result: bool)
        ensures
            result == (self.schema_path is Some || self.schema_variant@.len() > 0),
    {
        self.schema_path.is_some() || !self.schema_variant.as_str().is_empty()
    }

    /// The character that separates cells: a tab, unless one is set.
    pub fn delimiter_char(&self) -> (result: char)
        ensures
            result == (if self.delimiter@.len() > 0 {
                self.delimiter@[0]
            } else {
                '\t'
            }),
    {
        let text = self.delimiter.as_str();
        if text.is_empty() {
            '\t'
        } else {
            text.get_char(0)
        }
    }
}

} // verus!
