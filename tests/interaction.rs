use path_manager::keys::{Key, KeyPress};
use path_manager::paths::{PathItem, PathItems};
use path_manager::tui_state::{InputMode, PathEditCommand, TuiState};

fn store() -> PathItems {
    PathItems {
        paths: vec![
            PathItem::new("Home".into(), "/home/u".into(), "".into()),
            PathItem::new("Root Secret".into(), "/root/x".into(), "".into()),
            PathItem::new("Temp".into(), "/tmp".into(), "".into()),
        ],
    }
}

fn press(state: &mut TuiState, code: Key) {
    state.handle_key(KeyPress::plain(code));
}

fn ctrl(state: &mut TuiState, c: char) {
    state.handle_key(KeyPress::with_ctrl(Key::Char(c)));
}

fn type_text(state: &mut TuiState, text: &str) {
    for c in text.chars() {
        press(state, Key::Char(c));
    }
}

#[test]
fn new_state_shows_everything_in_search_mode() {
    let items = store();
    let state = TuiState::new(&items, false);
    assert_eq!(state.input, "");
    assert_eq!(state.cursor, 0);
    assert_eq!(state.input_mode, InputMode::Search);
    assert_eq!(state.filtered, vec![0, 1, 2]);
    assert_eq!(state.selected, 0);
    assert_eq!(state.highlighted.unwrap().full_path, "/home/u");
    assert!(!state.quit);
    assert!(state.selected_path.is_none());
    assert!(state.edits.is_empty());
}

#[test]
fn new_state_on_empty_store_highlights_nothing() {
    let items = PathItems::default();
    let state = TuiState::new(&items, true);
    assert!(state.filtered.is_empty());
    assert!(state.highlighted.is_none());
    assert_eq!(state.selected, 0);
}

#[test]
fn move_up_stops_at_the_last_entry() {
    let items = store();
    let mut state = TuiState::new(&items, false);
    press(&mut state, Key::Esc);
    assert_eq!(state.input_mode, InputMode::Select);
    assert_eq!(state.selected, 0);
    press(&mut state, Key::Up);
    press(&mut state, Key::Char('k'));
    assert_eq!(state.selected, 2);
    assert_eq!(state.highlighted.unwrap().full_path, "/tmp");
    press(&mut state, Key::Up);
    assert_eq!(state.selected, 2);
}

#[test]
fn move_down_stops_at_the_first_entry() {
    let items = store();
    let mut state = TuiState::new(&items, false);
    press(&mut state, Key::Enter);
    press(&mut state, Key::Down);
    assert_eq!(state.selected, 0);
    press(&mut state, Key::Up);
    press(&mut state, Key::Char('j'));
    assert_eq!(state.selected, 0);
    assert_eq!(state.highlighted.unwrap().full_path, "/home/u");
}

#[test]
fn typing_filters_and_reclamps_the_selection() {
    let items = store();
    let mut state = TuiState::new(&items, false);
    press(&mut state, Key::Up);
    press(&mut state, Key::Up);
    assert_eq!(state.selected, 2);
    type_text(&mut state, "secret");
    assert_eq!(state.input, "secret");
    assert_eq!(state.cursor, 6);
    assert_eq!(state.filtered, vec![1]);
    assert_eq!(state.selected, 0);
    assert_eq!(state.highlighted.unwrap().full_path, "/root/x");
    type_text(&mut state, "zz");
    assert!(state.filtered.is_empty());
    assert_eq!(state.selected, 0);
    assert!(state.highlighted.is_none());
}

#[test]
fn backspace_removes_the_char_before_the_cursor() {
    let items = store();
    let mut state = TuiState::new(&items, false);
    type_text(&mut state, "tmpx");
    assert!(state.filtered.is_empty());
    press(&mut state, Key::Backspace);
    assert_eq!(state.input, "tmp");
    assert_eq!(state.cursor, 3);
    assert_eq!(state.filtered, vec![2]);
    press(&mut state, Key::Home);
    press(&mut state, Key::Backspace);
    assert_eq!(state.input, "tmp");
    assert_eq!(state.cursor, 0);
}

#[test]
fn cursor_moves_within_the_text() {
    let items = store();
    let mut state = TuiState::new(&items, false);
    type_text(&mut state, "ac");
    press(&mut state, Key::Left);
    assert_eq!(state.cursor, 1);
    press(&mut state, Key::Char('b'));
    assert_eq!(state.input, "abc");
    assert_eq!(state.cursor, 2);
    press(&mut state, Key::Right);
    press(&mut state, Key::Right);
    assert_eq!(state.cursor, 3);
    press(&mut state, Key::Home);
    press(&mut state, Key::Left);
    assert_eq!(state.cursor, 0);
    press(&mut state, Key::End);
    assert_eq!(state.cursor, 3);
    ctrl(&mut state, 'a');
    assert_eq!(state.cursor, 0);
    ctrl(&mut state, 'e');
    assert_eq!(state.cursor, 3);
}

#[test]
fn cursor_counts_characters_not_bytes() {
    let items = store();
    let mut state = TuiState::new(&items, false);
    type_text(&mut state, "é");
    press(&mut state, Key::Char('ü'));
    press(&mut state, Key::Left);
    press(&mut state, Key::Char('x'));
    assert_eq!(state.input, "éxü");
    assert_eq!(state.cursor, 2);
}

#[test]
fn ctrl_d_clears_the_search() {
    let items = store();
    let mut state = TuiState::new(&items, false);
    type_text(&mut state, "home");
    assert_eq!(state.filtered, vec![0]);
    ctrl(&mut state, 'd');
    assert_eq!(state.input, "");
    assert_eq!(state.cursor, 0);
    assert_eq!(state.filtered, vec![0, 1, 2]);
}

#[test]
fn search_text_survives_leaving_search_mode() {
    let items = store();
    let mut state = TuiState::new(&items, false);
    type_text(&mut state, "tmp");
    press(&mut state, Key::Enter);
    assert_eq!(state.input_mode, InputMode::Select);
    assert_eq!(state.input, "tmp");
    press(&mut state, Key::Char('s'));
    assert_eq!(state.input_mode, InputMode::Search);
    assert_eq!(state.input, "tmp");
}

#[test]
fn enter_in_select_mode_picks_the_highlighted_entry() {
    let items = store();
    let mut state = TuiState::new(&items, false);
    press(&mut state, Key::Esc);
    press(&mut state, Key::Up);
    assert!(!state.finished());
    press(&mut state, Key::Enter);
    assert_eq!(state.selected_path.unwrap().full_path, "/root/x");
    assert!(state.finished());
    assert!(state.edit_result().is_none());
}

#[test]
fn enter_on_an_empty_view_picks_nothing() {
    let items = store();
    let mut state = TuiState::new(&items, false);
    type_text(&mut state, "nothing");
    press(&mut state, Key::Esc);
    press(&mut state, Key::Enter);
    assert!(state.selected_path.is_none());
}

#[test]
fn q_quits_in_select_mode_but_types_in_search_mode() {
    let items = store();
    let mut state = TuiState::new(&items, false);
    press(&mut state, Key::Char('q'));
    assert!(!state.quit);
    assert_eq!(state.input, "q");
    press(&mut state, Key::Esc);
    press(&mut state, Key::Char('q'));
    assert!(state.quit);
    assert!(state.finished());
}

#[test]
fn ctrl_c_quits_in_any_mode() {
    let items = store();
    let mut state = TuiState::new(&items, false);
    ctrl(&mut state, 'c');
    assert!(state.quit);
    assert_eq!(state.input, "");
}

#[test]
fn delete_key_marks_and_unmarks() {
    let items = store();
    let mut state = TuiState::new(&items, true);
    press(&mut state, Key::Esc);
    press(&mut state, Key::Up);
    press(&mut state, Key::Char('d'));
    assert_eq!(state.edits.len(), 1);
    assert_eq!(state.edits[0].path, "/root/x");
    assert!(matches!(state.path_command(&items.paths[1]), Some(PathEditCommand::Delete)));
    assert!(state.path_command(&items.paths[0]).is_none());
    press(&mut state, Key::Char('d'));
    assert!(state.edits.is_empty());
    assert!(state.path_command(&items.paths[1]).is_none());
    assert!(state.edited_items().is_none());
}

#[test]
fn delete_key_needs_edit_mode() {
    let items = store();
    let mut state = TuiState::new(&items, false);
    press(&mut state, Key::Esc);
    press(&mut state, Key::Char('d'));
    assert!(state.edits.is_empty());
}

#[test]
fn set_path_command_without_highlight_does_nothing() {
    let items = PathItems::default();
    let mut state = TuiState::new(&items, true);
    state.set_path_command(PathEditCommand::Delete);
    assert!(state.edits.is_empty());
}

#[test]
fn quitting_an_edit_session_applies_the_marks() {
    let items = store();
    let mut state = TuiState::new(&items, true);
    type_text(&mut state, "secret");
    press(&mut state, Key::Esc);
    press(&mut state, Key::Char('d'));
    press(&mut state, Key::Char('s'));
    ctrl(&mut state, 'd');
    press(&mut state, Key::Esc);
    press(&mut state, Key::Up);
    press(&mut state, Key::Up);
    press(&mut state, Key::Char('d'));
    press(&mut state, Key::Char('q'));
    assert!(state.quit);
    let saved = state.edit_result().unwrap();
    let paths: Vec<&str> = saved.paths.iter().map(|p| p.full_path.as_str()).collect();
    assert_eq!(paths, vec!["/home/u"]);
    let applied = state.edited_items().unwrap();
    assert_eq!(applied.paths.len(), 1);
    assert_eq!(applied.paths[0].name, "Home");
}

#[test]
fn quitting_an_edit_session_without_marks_saves_nothing() {
    let items = store();
    let mut state = TuiState::new(&items, true);
    press(&mut state, Key::Esc);
    press(&mut state, Key::Char('q'));
    assert!(state.edit_result().is_none());
}

#[test]
fn picking_in_an_edit_session_saves_nothing() {
    let items = store();
    let mut state = TuiState::new(&items, true);
    press(&mut state, Key::Esc);
    press(&mut state, Key::Char('d'));
    press(&mut state, Key::Enter);
    assert!(state.selected_path.is_some());
    assert!(state.edit_result().is_none());
}

#[test]
fn set_highlighted_clamps_the_selection() {
    let items = store();
    let mut state = TuiState::new(&items, false);
    state.selected = 7;
    state.set_highlighted();
    assert_eq!(state.selected, 2);
    assert_eq!(state.highlighted.unwrap().full_path, "/tmp");
}
