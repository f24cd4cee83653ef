# codex_thread_tree

The conversation tree of a Codex rollout, verified with Verus, and the small
pieces of terminal-interface logic that sit on it.

- `src/` is the verified library.
  - `rollout.rs`: the rollout items the tree is read from.
  - `tree_spec.rs`, `tree_lemmas.rs`: the model of reading a rollout, item by item.
  - `thread_tree.rs`: `build_thread_tree` and its steps, proved to give the tree of the model.
  - `tree_laws.rs`, `listing_laws.rs`, `order_laws.rs`, `acyclic_laws.rs`: what holds of
    every tree read from a rollout.
  - `walk_checks.rs`, `listing_check.rs`, `thread_tree::tree_is_defined`: deciding the
    preconditions of building and listing a tree (that every walk up the parent links,
    and every walk down the children, ends).
  - `active_branch.rs`: the items of the active branch, and turn lookup.
  - `tree_view.rs`: the tree as the rows of a selection view.
  - `btw_panel.rs`: the `/btw` side panel: content, scrolling, dismissal.
  - `away_summary.rs`: the away-summary requests and what each one shows.
  - `usage.rs`: tool usage line counts.
  - `text.rs`: string helpers over the character view.
- `tests/` runs the library on concrete values.
- `app/` draws with ratatui, reads crossterm keys and drives the away-summary
  session on the library's decisions. Its one rule of its own is an estimate:
  the rows a body line takes once word-wrapped, counted from its width.
