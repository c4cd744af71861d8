//! A directory-bookmark manager: a store of named paths, a multi-word filter
//! over it, and the state machine of an interactive session that filters,
//! picks an entry or marks entries for deletion.
pub mod cli;
pub mod keys;
pub mod paths;
pub mod text;
pub mod tmux;
pub mod tui_state;
