# notez

A local-first note-taking tool: notes live with each project (a private
`.notez/` store and a public `notez/` one), mirrored into a numbered
directory of a home notes root; daily logs; a markdown todo list with
subtasks, tags and filters; and interactive tree and todo views.

## Layout

- `src/` — the library, verified with Verus. Every public function carries a
  contract; the laws (read-back of every file format written, settled derived
  states, typing then erasing in a field, drag keeping the items, sorting by
  number) are proof functions named `law_*`.
  - `text`, `order`, `paths`: character sequences, ordering, path helpers.
  - `config`, `project`, `sync`: the configuration file, projects and their
    mapping file, the mirroring plan.
  - `numbering`, `notes`, `cli`, `setup`: numbered directories, note and log
    files, command routing, the setup wizard's steps.
  - `tags`, `todo`, `todo_list`, `todo_edit`, `todo_load`: tags and filters, the
    `TODO.md` format, list operations, the local and global views' rows.
  - `input`, `tree`, `tree_ui`, `todo_ui`: keys and UTF-8 cursors, the note tree,
    and the two interactive views as state machines.
- `app/` — the program around it: argument parsing, files, processes and the
  terminal user interface.
- `tests/` — tests of the library on concrete values.
