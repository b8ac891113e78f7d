use tmux_leap::hinter::{Hinter, PaneInput};
use tmux_leap::match_formatter::MatchFormatter;
use tmux_leap::state::State;
use tmux_leap::view::SessionView;

fn session(mode: &str) -> SessionView {
    let input = PaneInput {
        lines: vec!["1111 2222".to_string(), "3333".to_string()],
        pane_id: "%1".into(),
        width: 20,
        tty_path: "/dev/null".into(),
    };
    let fmt = MatchFormatter::new(String::new(), String::new(), String::new(), String::new(), String::new(), "left".into());
    let hinter = Hinter::new(
        vec![input],
        vec![r"[0-9]{4}".to_string()],
        vec!["a".to_string(), "b".to_string()],
        fmt,
        mode != "jump",
        String::new(),
        &State::default(),
    );
    let mut v = SessionView::new(hinter, State::default(), mode.to_string());
    v.render();
    v
}

fn hint_of(v: &SessionView, line: usize, k: usize) -> String {
    v.hinter.cache.as_ref().unwrap()[0][line][k].hint.clone().unwrap()
}

#[test]
fn picking_a_hint_ends_with_its_text() {
    let mut v = session("default");
    // Three matches, alphabet of two letters: one one-letter hint and two of two letters.
    let h = hint_of(&v, 1, 0);
    let mut frames = None;
    for c in h.chars() {
        frames = v.process_input(&format!("hint:{c}:main"));
    }
    assert!(frames.is_none());
    assert!(v.state.exiting);
    assert_eq!(v.state.result, "3333");
    assert_eq!(v.state.modifier, "main");
    assert_eq!(v.state.matched_target.as_ref().unwrap().text, "3333");
}

#[test]
fn partial_input_redraws() {
    let mut v = session("default");
    let h = hint_of(&v, 0, 0);
    assert_eq!(h.len(), 2);
    let first = h.chars().next().unwrap();
    let frames = v.process_input(&format!("hint:{first}:shift"));
    assert!(frames.is_some());
    assert!(!v.state.exiting);
    assert_eq!(v.state.input, first.to_string());
}

#[test]
fn exit_and_unknown_messages() {
    let mut v = session("default");
    assert!(v.process_input("noop").is_none());
    assert!(!v.state.exiting);
    assert!(v.process_input("hint:a").is_none());
    assert_eq!(v.state.input, "");
    assert!(v.process_input("exit").is_none());
    assert!(v.state.exiting);
    assert_eq!(v.state.result, "");
}

#[test]
fn multi_select_collects_texts() {
    let mut v = session("default");
    assert!(v.process_input("toggle-multi-mode").is_none());
    assert!(v.state.multi_mode);
    for (line, k) in [(0, 1), (1, 0)] {
        let h = hint_of(&v, line, k);
        let mut frames = None;
        for c in h.chars() {
            frames = v.process_input(&format!("hint:{c}:main"));
        }
        assert!(frames.is_some());
        assert_eq!(v.state.input, "");
    }
    assert_eq!(v.state.multi_matches, vec!["2222", "3333"]);
    assert_eq!(v.state.selected_hints.len(), 2);
    assert!(v.process_input("toggle-multi-mode").is_none());
    assert!(v.state.exiting);
    assert_eq!(v.state.result, "2222 3333");
}

#[test]
fn jump_mode_has_no_multi_select() {
    let mut v = session("jump");
    v.process_input("toggle-multi-mode");
    assert!(!v.state.multi_mode);
}

#[test]
fn failed_render_ends_the_session() {
    let mut v = session("default");
    v.render_failed();
    assert!(v.state.exiting);
}
