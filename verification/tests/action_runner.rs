use tmux_leap::action_runner::{copy_command_from, expand_home, open_command_from, shell_split, ActionRunner};
use tmux_leap::config::Config;
use tmux_leap::tmux::pane::Pane;

fn pane(id: &str, in_mode: bool) -> Pane {
    Pane {
        pane_id: id.to_string(),
        window_id: "@1".into(),
        pane_width: 80,
        pane_height: 24,
        pane_left: 0,
        pane_top: 0,
        pane_current_path: "/tmp".into(),
        pane_in_mode: in_mode,
        scroll_position: None,
        window_zoomed_flag: false,
        pane_tty: "/dev/null".into(),
    }
}

fn runner<'a>(
    active_pane: &'a Pane,
    source_pane: &'a Pane,
    config: &'a Config,
    mode: &'a str,
    offset: Option<(usize, usize)>,
) -> ActionRunner<'a> {
    ActionRunner {
        modifier: "main",
        match_text: "match",
        hint: "a",
        active_pane,
        source_pane,
        offset,
        mode,
        main_action: None,
        ctrl_action: None,
        alt_action: None,
        shift_action: None,
        config,
    }
}

#[test]
fn jump_command_is_one_tmux_batch_without_nested_tmux_commands() {
    let active = pane("%1", false);
    let source = pane("%2", false);
    let config = Config::default();
    let command = runner(&active, &source, &config, "jump", Some((2, 3))).jump_command().unwrap();

    let parts = shell_split(&command);
    assert_eq!(parts.iter().filter(|p| p.as_str() == "tmux").count(), 1);
    assert!(!parts.windows(2).any(|w| w[0] == ";" && w[1] == "tmux"));
    assert!(parts.windows(5).any(|w| w == ["copy-mode", "-t", "%2", ";", "send-keys"]));
    assert!(parts.windows(6).any(|w| w == ["-N", "2", "-X", "cursor-down", ";", "send-keys"]));
    assert!(parts.windows(4).any(|w| w == ["-N", "3", "-X", "cursor-right"]));
}

#[test]
fn jump_command_omits_zero_repeat_counts() {
    let active = pane("%1", false);
    let source = pane("%2", false);
    let config = Config::default();
    let command = runner(&active, &source, &config, "jump", Some((0, 0))).jump_command().unwrap();

    assert!(!shell_split(&command).windows(2).any(|w| w == ["-N", "0"]));
    assert!(command.contains("copy-mode"));
    assert!(command.contains("top-line"));
    assert!(command.contains("start-of-line"));
}

#[test]
fn paste_from_copy_mode_is_one_tmux_batch_without_nested_tmux_commands() {
    let active = pane("%1", true);
    let source = pane("%2", false);
    let config = Config::default();
    let command = runner(&active, &source, &config, "default", None).paste_command();

    let parts = shell_split(&command);
    assert_eq!(parts.iter().filter(|p| p.as_str() == "tmux").count(), 1);
    assert!(!parts.windows(2).any(|w| w[0] == ";" && w[1] == "tmux"));
    assert!(parts.windows(4).any(|w| w == [";", "paste-buffer", "-t", "%1"]));
}

#[test]
fn jump_command_text() {
    let active = pane("%1", false);
    let source = pane("%2", false);
    let config = Config::default();
    assert_eq!(
        runner(&active, &source, &config, "jump", Some((2, 0))).jump_command().unwrap(),
        "tmux select-pane -t %2 ; copy-mode -t %2 ; send-keys -t %2 -X top-line ; send-keys -t %2 -X start-of-line ; send-keys -t %2 -N 2 -X cursor-down"
    );
    assert!(runner(&active, &source, &config, "jump", None).jump_command().is_none());
}

#[test]
fn paste_outside_copy_mode() {
    let active = pane("%1", false);
    let config = Config::default();
    assert_eq!(runner(&active, &active, &config, "default", None).paste_command(), "tmux paste-buffer -t %1");
}

#[test]
fn modifiers_pick_actions() {
    let active = pane("%1", false);
    let config = Config::default();
    let mut r = runner(&active, &active, &config, "default", None);
    assert_eq!(r.action(), Some(":copy:"));
    r.modifier = "shift";
    assert_eq!(r.action(), Some(":paste:"));
    r.modifier = "ctrl";
    assert_eq!(r.action(), Some(":open:"));
    r.modifier = "alt";
    assert_eq!(r.action(), Some(""));
    r.alt_action = Some("xargs echo");
    assert_eq!(r.action(), Some("xargs echo"));
    r.modifier = "super";
    assert_eq!(r.action(), None);
}

#[test]
fn custom_and_paste_actions_become_commands() {
    let active = pane("%1", false);
    let config = Config::default();
    let mut r = runner(&active, &active, &config, "default", None);
    r.modifier = "shift";
    assert_eq!(r.action_command(), Some("tmux paste-buffer -t %1".to_string()));
    r.modifier = "alt";
    r.alt_action = Some("xargs firefox");
    assert_eq!(r.action_command(), Some("xargs firefox".to_string()));
}

#[test]
fn clipboard_and_opener_choices() {
    assert_eq!(copy_command_from(false, true, true, true, true), None);
    assert_eq!(copy_command_from(true, true, true, false, false), Some("pbcopy".to_string()));
    assert_eq!(copy_command_from(true, false, true, true, false), Some("wl-copy".to_string()));
    assert_eq!(copy_command_from(true, false, false, true, true), Some("xclip -selection clipboard".to_string()));
    assert_eq!(copy_command_from(true, false, false, false, true), Some("xsel -i --clipboard".to_string()));
    assert_eq!(copy_command_from(true, false, false, false, false), None);
    assert_eq!(open_command_from(true, true), Some("xargs xdg-open".to_string()));
    assert_eq!(open_command_from(false, true), Some("xargs open".to_string()));
    assert_eq!(open_command_from(false, false), None);
}

#[test]
fn home_expansion() {
    assert_eq!(expand_home("~/notes/a.txt", Some("/home/u".into())), "/home/u/notes/a.txt");
    assert_eq!(expand_home("~", Some("/home/u".into())), "/home/u");
    assert_eq!(expand_home("~/", Some("/home/u".into())), "/home/u/");
    assert_eq!(expand_home("~/x", None), "~/x");
}

#[test]
fn shell_split_quotes() {
    assert_eq!(shell_split("xclip -selection clipboard"), vec!["xclip", "-selection", "clipboard"]);
    assert_eq!(shell_split("echo 'a b' \"c d\"  e\tf"), vec!["echo", "a b", "c d", "e", "f"]);
    assert_eq!(shell_split("say \"it's\""), vec!["say", "it's"]);
    assert!(shell_split("   ").is_empty());
}

#[test]
fn plan_loads_buffer_and_runs_command() {
    let active = pane("%1", false);
    let config = Config::default();
    let mut r = runner(&active, &active, &config, "default", None);
    r.modifier = "alt";
    r.alt_action = Some("xargs echo");
    let plan = r.run();
    assert_eq!(plan.buffer_args, vec!["load-buffer", "-w", "-"]);
    assert_eq!(plan.buffer_input, "match");
    assert_eq!(plan.command, Some(vec!["xargs".to_string(), "echo".to_string()]));
    assert_eq!(plan.input, "match");
    assert_eq!(plan.env, vec![("MODIFIER".to_string(), "alt".to_string()), ("HINT".to_string(), "a".to_string())]);
    assert_eq!(plan.cwd, Some("/tmp".to_string()));
}

#[test]
fn plan_without_action_only_loads_buffer() {
    let mut active = pane("%1", false);
    active.pane_current_path = String::new();
    let mut config = Config::default();
    config.use_system_clipboard = false;
    let mut r = runner(&active, &active, &config, "default", None);
    r.modifier = "alt";
    let plan = r.run();
    assert_eq!(plan.buffer_args, vec!["load-buffer", "-"]);
    assert_eq!(plan.command, None);
    assert_eq!(plan.cwd, None);
}
