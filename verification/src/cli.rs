//! The `library` subcommand: how it is registered, and the entries it
//! hands to the library window.

use vstd::prelude::*;
use crate::modulo::LibraryEntry;
use crate::store::Snippet;
use crate::text::owned;

verus! {

/// How a subcommand's log is written.
#[derive(Debug, Clone, Copy, PartialEq, Eq)]
pub enum LogMode {
    Read,
    AppendOnly,
    CleanAndAppend,
}

/// The entry point that runs a subcommand.
#[derive(Debug, Clone, Copy, PartialEq, Eq)]
pub enum CliEntry {
    Library,
}

/// How a subcommand is run.
pub struct CliModule {
    pub requires_paths: bool,
    pub enable_logs: bool,
    pub disable_logs_terminal_output: bool,
    pub log_mode: LogMode,
    pub subcommand: String,
    pub show_in_dock: bool,
    pub entry: CliEntry,
}

/// The `library` subcommand: it needs the configuration paths, appends to
/// the log without echoing it, and shows in the dock.
pub fn new() -> (res: CliModule)
    ensures
        res.requires_paths,
        res.enable_logs,
        res.disable_logs_terminal_output,
        res.log_mode == LogMode::AppendOnly,
        res.subcommand@ == "library"@,
        res.show_in_dock,
        res.entry == CliEntry::Library,
{
    CliModule {
        requires_paths: true,
        enable_logs: true,
        disable_logs_terminal_output: true,
        log_mode: LogMode::AppendOnly,
        subcommand: owned("library"),
        show_in_dock: true,
        entry: CliEntry::Library,
    }
}

/// The entries shown by the library window, one for each snippet, in order.
pub fn library_entries(snippets: Vec<Snippet>) -> (res: Vec<LibraryEntry>)
    ensures
        res@.len() == snippets@.len(),
        forall|i: int|
            0 <= i < res@.len() ==> {
                let e = #[trigger] res@[i];
                let s = snippets@[i];
                &&& e.id@ == s.id@
                &&& e.collection@ == s.collection@
                &&& e.trigger@ == s.trigger@
                &&& e.replacement@ == s.replacement@
                &&& e.label@ == s.label@
                &&& e.editable == s.editable
            },
{
    let mut res: Vec<LibraryEntry> = Vec::new();
    let mut i: usize = 0;
    while i < snippets.len()
        invariant
            i <= snippets.len(),
            res@.len() == i,
            forall|j: int|
                0 <= j < i ==> {
                    let e = #[trigger] res@[j];
                    let s = snippets@[j];
                    &&& e.id@ == s.id@
                    &&& e.collection@ == s.collection@
                    &&& e.trigger@ == s.trigger@
                    &&& e.replacement@ == s.replacement@
                    &&& e.label@ == s.label@
                    &&& e.editable == s.editable
                },
        decreases snippets.len() - i,
    {
        let s = &snippets[i];
        res.push(
            LibraryEntry {
                id: s.id.clone(),
                collection: s.collection.clone(),
                trigger: s.trigger.clone(),
                replacement: s.replacement.clone(),
                label: s.label.clone(),
                editable: s.editable,
            },
        );
        i = i + 1;
    }
    res
}

/// Whether the library starts at login; never on platforms without a
/// startup control.
pub fn is_enabled() -> (res: bool)
    ensures
        !res,
{
    false
}

/// The handler of the "start at login" control; there is none on platforms
/// without a startup control.
pub fn handler<H>() -> (res: Option<H>)
    ensures
        res is None,
{
    None
}

} // verus!
