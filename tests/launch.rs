use path_manager::cli::{declines_override, Args, Mode};
use path_manager::tmux::{parse_pane_position, saved_pwd_of, Tmux};

#[test]
fn args_hand_back_their_mode() {
    let args = Args::new(Mode::AddPath { path: "/tmp".into() });
    match args.mode() {
        Mode::AddPath { path } => assert_eq!(path, "/tmp"),
        _ => panic!("wrong mode"),
    }
}

#[test]
fn new_pane_is_at_the_origin_until_located() {
    let tmux = Tmux::new();
    assert_eq!(tmux.pane_index(), 0);
    assert_eq!(tmux.window_index(), 0);
    let tmux = tmux.located(3, 1);
    assert_eq!(tmux.window_index(), 3);
    assert_eq!(tmux.pane_index(), 1);
}

#[test]
fn pane_position_reads_two_fields() {
    assert_eq!(parse_pane_position("3 1\n"), Some((3, 1)));
    assert_eq!(parse_pane_position("  12 0 extra "), Some((12, 0)));
    assert_eq!(parse_pane_position("+4 5"), Some((4, 5)));
    assert_eq!(parse_pane_position("4294967295 0"), Some((4294967295, 0)));
}

#[test]
fn pane_position_rejects_malformed_answers() {
    assert_eq!(parse_pane_position("3"), None);
    assert_eq!(parse_pane_position(""), None);
    assert_eq!(parse_pane_position("3  1"), None);
    assert_eq!(parse_pane_position("a 1"), None);
    assert_eq!(parse_pane_position("1 -1"), None);
    assert_eq!(parse_pane_position("4294967296 0"), None);
    assert_eq!(parse_pane_position("+ 0"), None);
}

#[test]
fn saved_pwd_is_the_value_after_the_last_equals_sign() {
    assert_eq!(saved_pwd_of("PATH_MANAGER_PWD=/home/u\n"), "/home/u");
    assert_eq!(saved_pwd_of("x=a=b"), "b");
    assert_eq!(saved_pwd_of(" plain "), "plain");
    assert_eq!(saved_pwd_of("NAME="), "");
}

#[test]
fn override_answer_declines_on_n() {
    assert!(declines_override("  No\n"));
    assert!(declines_override("N"));
    assert!(declines_override("n"));
    assert!(!declines_override("yes"));
    assert!(!declines_override(""));
    assert!(!declines_override("   "));
    assert!(!declines_override("y n"));
}
