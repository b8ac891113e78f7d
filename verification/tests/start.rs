use tmux_leap::cmd::start::{
    enter_leap_mode, is_jump_mode, matched_result, pane_id_given, pane_listed, pair_by_position, parse_saved_state, patterns_from_option, resizes_for,
    resolve_pane, saved_state_args, select_patterns, source_panes, swap_list, teardown_commands, window_size,
    SavedState,
};
use tmux_leap::config::{put_pattern, Config};
use tmux_leap::hinter::Target;
use tmux_leap::state::State;
use tmux_leap::tmux::pane::Pane;

fn pane(id: &str, left: u32, top: u32, w: u32, h: u32) -> Pane {
    Pane {
        pane_id: id.to_string(),
        window_id: "@1".into(),
        pane_width: w,
        pane_height: h,
        pane_left: left,
        pane_top: top,
        pane_current_path: "/tmp".into(),
        pane_in_mode: false,
        scroll_position: None,
        window_zoomed_flag: false,
        pane_tty: format!("/dev/pts/{}", id.trim_start_matches('%')),
    }
}

#[test]
fn resolve_by_id_and_by_target() {
    let panes = vec![pane("%1", 0, 0, 40, 24), pane("%2", 41, 0, 39, 24)];
    let (a, t) = resolve_pane("%2", "", &panes);
    assert_eq!((a.pane_id.as_str(), t.pane_id.as_str()), ("%2", "%2"));
    let (a, t) = resolve_pane("{last}", "%2", &panes);
    assert_eq!((a.pane_id.as_str(), t.pane_id.as_str()), ("%2", "%2"));
    assert!(pane_listed("%2", "", &panes));
    assert!(pane_listed("{last}", "%1", &panes));
    assert!(!pane_listed("{last}", "%7", &panes));
    assert!(!pane_listed("%9", "%1", &panes));
}

#[test]
fn zoomed_window_uses_only_active_pane() {
    let panes = vec![pane("%1", 0, 0, 40, 24), pane("%2", 41, 0, 39, 24)];
    let src = source_panes(true, &panes[1], panes.iter().map(|p| p.duplicate()).collect());
    assert_eq!(src.len(), 1);
    assert_eq!(src[0].pane_id, "%2");
    let all = source_panes(false, &panes[1], panes.iter().map(|p| p.duplicate()).collect());
    assert_eq!(all.len(), 2);
}

#[test]
fn window_size_covers_all_panes() {
    let panes = vec![pane("%1", 0, 0, 40, 24), pane("%2", 41, 0, 39, 12), pane("%3", 41, 13, 39, 11)];
    assert_eq!(window_size(&panes), Some((80, 24)));
    assert_eq!(window_size(&vec![]), None);
}

#[test]
fn panes_pair_by_position() {
    let source = vec![pane("%1", 0, 0, 40, 24), pane("%2", 41, 0, 39, 24), pane("%3", 90, 0, 1, 1)];
    let leap = vec![pane("%8", 41, 0, 38, 24), pane("%7", 0, 0, 40, 24)];
    let pairs = pair_by_position(&source, &leap);
    assert_eq!(pairs.len(), 2);
    assert_eq!((pairs[0].0.pane_id.as_str(), pairs[0].1.pane_id.as_str()), ("%1", "%7"));
    assert_eq!((pairs[1].0.pane_id.as_str(), pairs[1].1.pane_id.as_str()), ("%2", "%8"));
    let resizes = resizes_for(&pairs);
    assert_eq!(resizes, vec![("%8".to_string(), 39, 24)]);
    assert_eq!(swap_list(&pairs), vec![("%7".to_string(), "%1".to_string()), ("%8".to_string(), "%2".to_string())]);
}

#[test]
fn pattern_selection() {
    let mut c = Config::default();
    put_pattern(&mut c.patterns, "sha".into(), "[0-9a-f]{7,}".into());
    put_pattern(&mut c.patterns, "ip".into(), "[0-9.]+".into());
    let (p, unknown) = select_patterns(true, Some("sha"), &c);
    assert_eq!(p, vec![r"\S+"]);
    assert!(unknown.is_empty());
    let (p, unknown) = select_patterns(false, Some("ip, nope,sha"), &c);
    assert_eq!(p, vec!["[0-9.]+", "[0-9a-f]{7,}"]);
    assert_eq!(unknown, vec![" nope"]);
    let (p, _) = select_patterns(false, None, &c);
    assert_eq!(p, vec!["[0-9a-f]{7,}", "[0-9.]+"]);
    assert_eq!(patterns_from_option("", &c).1, vec![""]);
}

#[test]
fn saved_state_fields() {
    assert_eq!(saved_state_args()[4], "#{pane_id};#{client_key_table};#{prefix};#{prefix2}");
    let s = parse_saved_state("%3;;C-b;C-a");
    assert_eq!(s.last_pane_id, "%3");
    assert_eq!(s.last_key_table, "root");
    assert_eq!(s.prefix, "C-b");
    assert_eq!(s.prefix2, "C-a");
    let s = parse_saved_state("%3;copy-mode;C-b;x;y");
    assert_eq!(s.last_key_table, "copy-mode");
    assert_eq!(s.prefix2, "x;y");
    let s = parse_saved_state("");
    assert_eq!(s.last_pane_id, "");
    assert_eq!(s.last_key_table, "root");
    assert_eq!(s.prefix, "");
}

#[test]
fn leap_mode_entry_is_one_invocation() {
    assert_eq!(
        enter_leap_mode(),
        vec![
            "set-option", "-g", "prefix", "None", ";", "set-option", "-g", "prefix2", "None", ";",
            "set-window-option", "key-table", "leap", ";", "switch-client", "-T", "leap"
        ]
    );
}

fn saved() -> SavedState {
    SavedState {
        last_pane_id: "%5".into(),
        last_key_table: "root".into(),
        prefix: "C-b".into(),
        prefix2: "None".into(),
    }
}

#[test]
fn teardown_swaps_back_and_restores() {
    let pairs = vec![(pane("%1", 0, 0, 1, 1), pane("%7", 0, 0, 1, 1)), (pane("%2", 2, 0, 1, 1), pane("%8", 2, 0, 1, 1))];
    let cmds = teardown_commands(&pairs, false, "@9", "default", None, &saved(), "%1");
    assert_eq!(
        cmds[0],
        vec!["swap-pane", "-d", "-s", "%8", "-t", "%2", ";", "swap-pane", "-d", "-s", "%7", "-t", "%1"]
    );
    assert_eq!(cmds[1], vec!["kill-window", "-t", "@9"]);
    assert_eq!(cmds[2], vec!["select-pane", "-t", "%5"]);
    assert_eq!(cmds[3], vec!["select-pane", "-t", "%1"]);
    assert_eq!(
        cmds[4],
        vec![
            "set-window-option", "key-table", "root", ";", "switch-client", "-T", "root", ";", "set-option", "-g",
            "prefix", "C-b", ";", "set-option", "-g", "prefix2", "None"
        ]
    );
    assert_eq!(cmds.len(), 5);
}

#[test]
fn teardown_in_jump_mode_focuses_the_match() {
    let pairs = vec![(pane("%1", 0, 0, 1, 1), pane("%7", 0, 0, 1, 1))];
    let cmds = teardown_commands(&pairs, true, "@9", "jump", Some("%2"), &saved(), "%1");
    assert_eq!(cmds[0], vec!["swap-pane", "-d", "-Z", "-s", "%7", "-t", "%1"]);
    assert_eq!(cmds[2], vec!["select-pane", "-Z", "-t", "%1"]);
    assert_eq!(cmds[3], vec!["select-pane", "-Z", "-t", "%2"]);
    assert_eq!(cmds.len(), 5);
    let zoomed_default = teardown_commands(&vec![], true, "@9", "default", None, &saved(), "%1");
    assert_eq!(zoomed_default[0], vec!["kill-window", "-t", "@9"]);
    assert_eq!(zoomed_default[1], vec!["select-pane", "-Z", "-t", "%1"]);
    assert_eq!(zoomed_default.len(), 3);
}

#[test]
fn result_needs_text_and_target() {
    let mut s = State::default();
    assert!(matched_result(&s).is_none());
    s.result = "abc".into();
    assert!(matched_result(&s).is_none());
    s.matched_target = Some(Target { text: "abc".into(), offset: (1, 2), source_pane_id: "%1".into() });
    let (t, r) = matched_result(&s).unwrap();
    assert_eq!((t.text.as_str(), t.offset, r.as_str()), ("abc", (1, 2), "abc"));
}

#[test]
fn pane_ids_and_jump_mode_are_recognised() {
    assert!(pane_id_given("%12"));
    assert!(!pane_id_given("main:1.0"));
    assert!(!pane_id_given(""));
    assert!(is_jump_mode("jump"));
    assert!(!is_jump_mode("default"));
}
