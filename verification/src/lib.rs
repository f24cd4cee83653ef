//! The conversation tree of a Codex rollout, and the small pieces of
//! terminal-interface logic that sit on it.
pub mod acyclic_laws;
pub mod active_branch;
pub mod away_summary;
pub mod btw_panel;
pub mod rollout;
pub mod text;
pub mod thread_tree;
pub mod listing_check;
pub mod listing_laws;
pub mod order_laws;
pub mod tree_laws;
pub mod tree_lemmas;
pub mod tree_spec;
pub mod tree_view;
pub mod usage;
pub mod walk_checks;
