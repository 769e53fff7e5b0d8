# Skiller

Declarative catalogs of agent skills, and their installation into projects and for a user.

A catalog is a directory of skills with a `skiller.json` that names their scopes, which of them
are global, and what was renamed. A configuration selects skills of registered catalogs. Skiller
resolves the selections with all that they require, plans what is new, changed and removed,
installs it, verifies it, and records what it owns. It replaces nothing that it does not own.

## Layout

- `src/` is the library. Every function states what it returns, and Verus proves it. Files,
  processes and the terminal are not touched there: the library takes what was observed as
  plain values, and returns what is to be done.
- `src/outside.rs` holds the calls into other crates. Their contracts are taken on trust.
- `tests/` runs the library on concrete values.
- `app/` is the program: the command line, the files, Git, the terminal, and the stored forms.

## Where to start reading

- `catalog.rs`, `graph.rs`, `frontmatter.rs`, `reach.rs`: reading and checking catalogs.
- `resolve.rs`, `closure_laws.rs`: what a configuration installs.
- `plan.rs`, `reconcile.rs`, `transaction.rs`, `convergence.rs`: installing it.
- `doctor.rs`, `diagnosis.rs`, `ownership.rs`: finding and repairing damage.
- `config_ui.rs`, `config_tui.rs`, `config_view.rs`, `config_frame.rs`, `screen_laws.rs`: the
  configuration screen.
- `project_store.rs`: where a project keeps its configuration and state.
- `lock.rs`, `gitignore.rs`, `manual.rs`, `field_laws.rs`: the files that are edited.

The host agent, the one that Skiller is used from, stands among the built-in installation
targets. `~/.config/skiller/host-agent.json` describes it by its `kind`, `name` and `label`;
without that file the program stops and asks for it.
