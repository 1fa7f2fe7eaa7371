//! What the server tells the client about its own work.

use vstd::prelude::*;
use vstd::string::*;

use crate::number::{decimal, decimal_of};

verus! {

/// The kind of a message to the client.
#[derive(Debug, Clone, Copy, PartialEq, Eq, Structural)]
pub enum MessageKind {
    Error,
    Warning,
    Info,
}

/// A message to the client.
#[derive(Debug)]
pub struct Notice {
    pub kind: MessageKind,
    pub text: String,
}

/// What has happened to the server.
#[derive(Debug)]
pub enum Event {
    SchemaLoaded,
    SchemaFailed { error: String },
    SchemaPanicked { error: String },
    ScanFailed { error: String },
    FileSkipped { path: String, error: String },
    FilesIndexed { count: usize },
}

impl Event {
    /// The kind of the message about the event.
    pub open spec fn kind(self) -> MessageKind {
        match self {
            Event::SchemaLoaded => MessageKind::Info,
            Event::SchemaFailed { .. } => MessageKind::Error,
            Event::SchemaPanicked { .. } => MessageKind::Error,
            Event::ScanFailed { .. } => MessageKind::Warning,
            Event::FileSkipped { .. } => MessageKind::Warning,
            Event::FilesIndexed { .. } => MessageKind::Info,
        }
    }

    /// The text of the message about the event.
    pub open spec fn text(self) -> Seq<char> {
        match self {
            Event::SchemaLoaded => "Schema loaded successfully."@,
            Event::SchemaFailed { error } => "Schema load failed: "@ + error@,
            Event::SchemaPanicked { error } => "Schema task panicked: "@ + error@,
            Event::ScanFailed { error } => "Workspace scan failed: "@ + error@,
            Event::FileSkipped { path, error } => "Skipping "@ + path@ + ": "@ + error@,
            Event::FilesIndexed { count } => "Indexed "@ + decimal_of(count as nat)
                + " workspace files."@,
        }
    }

    /// The message about the event.
    pub fn notice(&self) -> (result: Notice)
        ensures
            result.kind == self.kind(),
            result.text@ == self.text(),
    {
        let mut text = String::new();
        let kind = match self {
            Event::SchemaLoaded => {
                text.append("Schema loaded successfully.");
                MessageKind::Info
            },
            Event::SchemaFailed { error } => {
                text.append("Schema load failed: ");
                text.append(error.as_str());
                MessageKind::Error
            },
            Event::SchemaPanicked { error } => {
                text.append("Schema task panicked: ");
                text.append(error.as_str());
                MessageKind::Error
            },
            Event::ScanFailed { error } => {
                text.append("Workspace scan failed: ");
                text.append(error.as_str());
                MessageKind::Warning
            },
            Event::FileSkipped { path, error } => {
                text.append("Skipping ");
                text.append(path.as_str());
                text.append(": ");
                text.append(error.as_str());
                MessageKind::Warning
            },
            Event::FilesIndexed { count } => {
                text.append("Indexed ");
                text.append(decimal(*count as u64).as_str());
                text.append(" workspace files.");
                MessageKind::Info
            },
        };
        assert(text@ =~= self.text());
        Notice { kind, text }
    }

    /// True when the workspace is scanned next: a schema was loaded.
    pub fn leads_to_scan(&self) -> (result: bool)
        ensures
            result == (self is SchemaLoaded),
    {
        matches!(self, Event::SchemaLoaded)
    }
}

// ---------------------------------------------------------------------------
// Laws
// ---------------------------------------------------------------------------

/// What the client is told of an event, and as what kind of message; the cause is part of
/// it.
pub proof fn law_messages(error: String, path: String, count: usize)
    ensures
        Event::SchemaLoaded.text() == "Schema loaded successfully."@,
        Event::SchemaLoaded.kind() == MessageKind::Info,
        (Event::SchemaFailed { error }).text() == "Schema load failed: "@ + error@,
        (Event::SchemaFailed { error }).kind() == MessageKind::Error,
        (Event::SchemaPanicked { error }).text() == "Schema task panicked: "@ + error@,
        (Event::SchemaPanicked { error }).kind() == MessageKind::Error,
        (Event::ScanFailed { error }).text() == "Workspace scan failed: "@ + error@,
        (Event::ScanFailed { error }).kind() == MessageKind::Warning,
        (Event::FileSkipped { path, error }).text() == "Skipping "@ + path@ + ": "@ + error@,
        (Event::FileSkipped { path, error }).kind() == MessageKind::Warning,
        (Event::FilesIndexed { count }).text() == "Indexed "@ + decimal_of(count as nat)
            + " workspace files."@,
        (Event::FilesIndexed { count }).kind() == MessageKind::Info,
{
}

} // verus!
