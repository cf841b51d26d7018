//! A local-first note-taking library: numbered note directories, the
//! markdown todo format with tags and subtasks, filters, tree views and the
//! configuration files that tie projects to the home notes root.
use vstd::prelude::*;

pub mod cli;
pub mod text;
pub mod order;
pub mod input;
pub mod paths;
pub mod config;
pub mod project;
pub mod notes;
pub mod sync;
pub mod tree;
pub mod tree_ui;
pub mod numbering;
pub mod tags;
pub mod todo;
pub mod todo_list;
pub mod todo_edit;
pub mod todo_ui;
pub mod todo_load;
pub mod setup;

verus! {

} // verus!
