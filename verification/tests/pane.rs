use tmux_leap::tmux::exec_batch;
use tmux_leap::tmux::pane::{
    capture_pane, create_window, disable_prefix, display_message, find_active_pane_in_window, find_pane,
    get_global_option, kill_pane, list_panes, list_panes_in_window, resize_pane, resize_pane_batch,
    resize_window, select_layout, select_pane, set_buffer, set_buffer_no_clipboard, set_global_option,
    set_key_table, split_window, swap_panes, swap_panes_batch, tmux_version, window_layout, zoom_pane, Pane,
    PANE_FMT, WINDOW_FMT,
};

fn pane(in_mode: bool, scroll: Option<i32>) -> Pane {
    Pane {
        pane_id: "%4".into(),
        window_id: "@1".into(),
        pane_width: 80,
        pane_height: 24,
        pane_left: 0,
        pane_top: 0,
        pane_current_path: "/tmp".into(),
        pane_in_mode: in_mode,
        scroll_position: scroll,
        window_zoomed_flag: false,
        pane_tty: "/dev/null".into(),
    }
}

#[test]
fn capture_args_follow_scroll() {
    assert_eq!(capture_pane(&pane(false, Some(5)), true), vec!["capture-pane", "-p", "-J", "-t", "%4"]);
    assert_eq!(capture_pane(&pane(true, None), false), vec!["capture-pane", "-p", "-t", "%4"]);
    assert_eq!(
        capture_pane(&pane(true, Some(10)), true),
        vec!["capture-pane", "-p", "-J", "-t", "%4", "-S", "-10", "-E", "13"]
    );
    assert_eq!(
        capture_pane(&pane(true, Some(0)), false),
        vec!["capture-pane", "-p", "-t", "%4", "-S", "0", "-E", "23"]
    );
}

#[test]
fn swap_batches() {
    assert_eq!(swap_panes_batch(&vec![], false), None);
    assert_eq!(
        swap_panes_batch(&vec![("%1".into(), "%2".into())], true),
        Some(vec!["swap-pane", "-d", "-Z", "-s", "%1", "-t", "%2"].into_iter().map(String::from).collect())
    );
    assert_eq!(swap_panes("a", "b", false), vec!["swap-pane", "-d", "-s", "a", "-t", "b"]);
}

#[test]
fn resize_batches() {
    assert_eq!(resize_pane_batch(&vec![]), None);
    assert_eq!(
        resize_pane_batch(&vec![("%1".into(), 10, 5), ("%2".into(), 3, 4)]).unwrap(),
        vec!["resize-pane", "-t", "%1", "-x", "10", "-y", "5", ";", "resize-pane", "-t", "%2", "-x", "3", "-y", "4"]
    );
    assert_eq!(resize_pane("%1", 80, 24), vec!["resize-pane", "-t", "%1", "-x", "80", "-y", "24"]);
    assert_eq!(resize_window("@1", 120, 40), vec!["resize-window", "-t", "@1", "-x", "120", "-y", "40"]);
}

#[test]
fn simple_commands() {
    assert_eq!(kill_pane("%1"), vec!["kill-pane", "-t", "%1"]);
    assert_eq!(window_layout("@1"), vec!["display-message", "-t", "@1", "-p", "#{window_layout}"]);
    assert_eq!(select_layout("@1", "tiled"), vec!["select-layout", "-t", "@1", "tiled"]);
    assert_eq!(select_pane("%1", true), vec!["select-pane", "-Z", "-t", "%1"]);
    assert_eq!(zoom_pane("%1"), vec!["resize-pane", "-Z", "-t", "%1"]);
    assert_eq!(set_global_option("prefix", "C-b"), vec!["set-option", "-g", "prefix", "C-b"]);
    assert_eq!(get_global_option("prefix"), vec!["show", "-gqv", "prefix"]);
    assert_eq!(set_key_table("leap")[1], vec!["switch-client", "-T", "leap"]);
    assert_eq!(disable_prefix()[1], vec!["set-option", "-g", "prefix2", "None"]);
    assert_eq!(display_message("hi", 500), vec!["display-message", "-d", "500", "hi"]);
    assert_eq!(set_buffer("x").0, vec!["load-buffer", "-w", "-"]);
    assert_eq!(set_buffer_no_clipboard("x"), (vec!["load-buffer".to_string(), "-".to_string()], "x".to_string()));
    assert_eq!(split_window("@1")[6], PANE_FMT);
    assert_eq!(create_window("[leap]", "cat")[8], WINDOW_FMT);
    assert_eq!(list_panes(None, None), vec!["list-panes", "-F", PANE_FMT, "-a"]);
    assert_eq!(list_panes(Some("@1"), Some("x")), vec!["list-panes", "-F", PANE_FMT, "-t", "@1", "-f", "x"]);
    assert_eq!(list_panes_in_window("@1")[4], "@1");
    assert_eq!(find_pane("%1")[2], "%1");
    assert_eq!(find_active_pane_in_window("@1")[6], "#{pane_active}");
}

#[test]
fn version_is_last_word() {
    assert_eq!(tmux_version("tmux 3.3a\n"), "3.3a");
    assert_eq!(tmux_version("  \n"), "3.1");
    assert_eq!(tmux_version(""), "3.1");
}

#[test]
fn batches_join_with_semicolons() {
    let cmds = vec![vec!["a".to_string(), "b".to_string()], vec!["c".to_string()]];
    assert_eq!(exec_batch(&cmds), vec!["a", "b", ";", "c"]);
    assert!(exec_batch(&vec![]).is_empty());
}
