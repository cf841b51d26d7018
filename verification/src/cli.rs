//! The command line: the options and subcommands, and what each asks the
//! program to do.
use vstd::prelude::*;
use crate::notes::{opt_string_view, split_title_body, title_body_spec};
use crate::numbering::string_views;

verus! {

/// A subcommand.
pub enum Command {
    /// Create a new note (title words; target directory, empty for a picker).
    Add { title: Vec<String>, target: Option<String> },
    /// Append a timestamped entry to today's daily log.
    Log { message: Vec<String> },
    /// Open the daily logs directory.
    Logz,
    /// Open the daily logs directory (alias for logz).
    Logs,
    /// Create a new numbered subdirectory.
    Mkdir { name: Vec<String> },
    /// Search notes content.
    Search { term: String },
    /// Show the directory tree.
    Tree,
    /// Run the setup wizard.
    Setup,
    /// Create a demo project for screenshots.
    Demo,
    /// Quick log entry (alias for log).
    Zlog { message: Vec<String> },
    /// Open the daily logs directory (alias for logz).
    Zlogs,
    /// Generate shell completions.
    Completions { shell: String },
    /// Manage project todos, or quick-add one.
    Todo { item: Option<String> },
    /// Open an existing note.
    Edit { term: Option<String> },
    /// Interactive todo manager (alias for todo).
    Todoz,
    /// Quick new note (alias for add).
    Znote { title: Vec<String>, target: Option<String> },
}

/// The parsed command line.
pub struct Cli {
    /// Show help.
    pub help: bool,
    /// Use the global notes root instead of the project's.
    pub global: bool,
    pub command: Option<Command>,
}

/// What the program does for a command line.
pub enum Route {
    Help,
    Browse,
    Add { title: Option<String>, target: Option<String>, body: Option<String> },
    Log { message: Vec<String> },
    Logz,
    Mkdir { name: Vec<String> },
    Search { term: String },
    Tree,
    Setup,
    Demo,
    Completions { shell: String },
    Todo { item: Option<String> },
    Edit { term: Option<String> },
}

/// A route for adding a note from title words: the words without spaces
/// make the title, an argument with spaces is the body.
pub open spec fn add_route_ok(r: Route, words: Seq<String>, target: Option<String>) -> bool {
    r matches Route::Add { title, target: t, body } && (opt_string_view(title), opt_string_view(body)) == title_body_spec(string_views(words)) && t == target
}

/// What the program does: help when asked; with no subcommand it browses
/// the notes; aliases go where their command goes; adding a note splits its
/// words into a title and a body.
pub open spec fn route_spec(cli: Cli, r: Route) -> bool {
    if cli.help {
        r is Help
    } else {
        match cli.command {
            None => r is Browse,
            Some(Command::Add { title, target }) => add_route_ok(r, title@, target),
            Some(Command::Znote { title, target }) => add_route_ok(r, title@, target),
            Some(Command::Log { message }) => r == Route::Log { message },
            Some(Command::Zlog { message }) => r == Route::Log { message },
            Some(Command::Logz) | Some(Command::Logs) | Some(Command::Zlogs) => r is Logz,
            Some(Command::Mkdir { name }) => r == Route::Mkdir { name },
            Some(Command::Search { term }) => r == Route::Search { term },
            Some(Command::Tree) => r is Tree,
            Some(Command::Setup) => r is Setup,
            Some(Command::Demo) => r is Demo,
            Some(Command::Completions { shell }) => r == Route::Completions { shell },
            Some(Command::Todo { item }) => r == Route::Todo { item },
            Some(Command::Todoz) => r == Route::Todo { item: None },
            Some(Command::Edit { term }) => r == Route::Edit { term },
        }
    }
}

/// Decide what to do for a parsed command line.
pub fn route(cli: Cli) -> (r: Route)
    ensures
        route_spec(cli, r),
{
    if cli.help {
        return Route::Help;
    }
    match cli.command {
        None => Route::Browse,
        Some(Command::Add { title, target }) => {
            let (t, body) = split_title_body(title);
            Route::Add { title: t, target, body }
        },
        Some(Command::Znote { title, target }) => {
            let (t, body) = split_title_body(title);
            Route::Add { title: t, target, body }
        },
        Some(Command::Log { message }) => Route::Log { message },
        Some(Command::Zlog { message }) => Route::Log { message },
        Some(Command::Logz) => Route::Logz,
        Some(Command::Logs) => Route::Logz,
        Some(Command::Zlogs) => Route::Logz,
        Some(Command::Mkdir { name }) => Route::Mkdir { name },
        Some(Command::Search { term }) => Route::Search { term },
        Some(Command::Tree) => Route::Tree,
        Some(Command::Setup) => Route::Setup,
        Some(Command::Demo) => Route::Demo,
        Some(Command::Completions { shell }) => Route::Completions { shell },
        Some(Command::Todo { item }) => Route::Todo { item },
        Some(Command::Todoz) => Route::Todo { item: None },
        Some(Command::Edit { term }) => Route::Edit { term },
    }
}

} // verus!
