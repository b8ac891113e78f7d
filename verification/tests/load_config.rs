use tmux_leap::cmd::load_config::{
    config_from_options, leap_bind_args, leap_mode_bindings, leap_options, option_to_method, root_bindings,
    setup_leap_mode_bindings,
};
use tmux_leap::config::Config;

#[test]
fn leap_mode_binds_tab_to_multi_select_toggle() {
    let bindings = leap_mode_bindings("tmux-leap");

    assert!(
        bindings
            .iter()
            .any(|(key, cmd)| key == "Tab" && cmd == "tmux-leap send-input toggle-multi-mode"),
        "Tab must toggle multi-select mode instead of falling through to Any/noop"
    );
}

#[test]
fn leap_mode_binds_tab_before_any_noop() {
    let bindings = leap_mode_bindings("tmux-leap");
    let tab_pos = bindings.iter().position(|(key, _)| key == "Tab").unwrap();
    let any_pos = bindings.iter().position(|(key, _)| key == "Any").unwrap();

    assert!(tab_pos < any_pos, "Tab binding should be installed before Any/noop");
}

#[test]
fn leap_input_bindings_run_synchronously_to_preserve_order() {
    let args = leap_bind_args("Tab", "tmux-leap send-input toggle-multi-mode");

    assert_eq!(args, vec!["bind-key", "-Tleap", "Tab", "run-shell", "tmux-leap send-input toggle-multi-mode"]);
    assert!(
        !args.iter().any(|arg| arg == "-b"),
        "leap input bindings must not use run-shell -b; background jobs can race Tab after the next hint key"
    );
}

#[test]
fn letter_bindings_skip_reserved_letters() {
    let bindings = leap_mode_bindings("t");
    // 21 letters, four bindings each, and six fixed keys.
    assert_eq!(bindings.len(), 21 * 4 + 6);
    assert_eq!(bindings[0], ("a".to_string(), "t send-input hint:a:main".to_string()));
    assert_eq!(bindings[1], ("A".to_string(), "t send-input hint:a:shift".to_string()));
    assert_eq!(bindings[2], ("C-a".to_string(), "t send-input hint:a:ctrl".to_string()));
    assert_eq!(bindings[3], ("M-a".to_string(), "t send-input hint:a:alt".to_string()));
    for reserved in ["c", "i", "m", "q", "n"] {
        assert!(!bindings.iter().any(|(_, cmd)| cmd.contains(&format!("hint:{reserved}:"))));
    }
    assert!(bindings.iter().any(|(k, c)| k == "q" && c == "t send-input exit"));
    let commands = setup_leap_mode_bindings("t");
    assert_eq!(commands.len(), bindings.len());
    assert_eq!(commands[0], vec!["bind-key", "-Tleap", "a", "run-shell", "t send-input hint:a:main"]);
}

#[test]
fn methods_of_options() {
    assert_eq!(option_to_method("@leap-hint-style"), "hint_style");
    assert_eq!(option_to_method("@leap-pattern-jira"), "pattern_jira");
    assert_eq!(option_to_method("@leap-@leap-key"), "key");
}

#[test]
fn leap_options_are_read_from_show_options() {
    let raw = "status on\n@leap-key F\n@leap-pattern-jira \"[A-Z]+-[0-9]+\"\n@leap-alt-action\n";
    let opts = leap_options(raw);
    assert_eq!(
        opts,
        vec![
            ("@leap-key".to_string(), "F".to_string()),
            ("@leap-pattern-jira".to_string(), "[A-Z]+-[0-9]+".to_string()),
            ("@leap-alt-action".to_string(), String::new()),
        ]
    );
}

fn opts(pairs: &[(&str, &str)]) -> Vec<(String, String)> {
    pairs.iter().map(|(k, v)| (k.to_string(), v.to_string())).collect()
}

#[test]
fn options_override_defaults() {
    let c = config_from_options(
        &opts(&[
            ("@leap-key", "F"),
            ("@leap-key", "G"),
            ("@leap-words-key", "W"),
            ("@leap-use-system-clipboard", "0"),
            ("@leap-hint-style", "fg=red"),
            ("@leap-keyboard-layout", "qwerty-homerow"),
            ("@leap-enabled-builtin-patterns", "sha, ip,nope"),
            ("@leap-pattern-jira", "[A-Z]+-[0-9]+"),
            ("@leap-pattern-sha", "[0-9a-f]{40}"),
        ]),
        "3.4".into(),
    )
    .unwrap();
    assert_eq!(c.key, "G");
    assert_eq!(c.jump_key, "j");
    assert_eq!(c.words_key, "W");
    assert_eq!(c.jump_words_key, "J");
    assert!(!c.use_system_clipboard);
    assert_eq!(c.hint_style, "\x1b[31m");
    assert_eq!(c.highlight_style, "\x1b[33m");
    assert_eq!(c.tmux_version, "3.4");
    assert_eq!(c.alphabet, vec!["a", "s", "d", "f", "j", "k", "l", "g", "h"]);
    assert_eq!(
        c.patterns,
        vec![
            ("jira".to_string(), "[A-Z]+-[0-9]+".to_string()),
            ("sha".to_string(), "[0-9a-f]{40}".to_string()),
            ("ip".to_string(), r"\d{1,3}\.\d{1,3}\.\d{1,3}\.\d{1,3}".to_string()),
        ]
    );
}

#[test]
fn all_builtin_patterns_by_default() {
    let c = config_from_options(&vec![], "3.1".into()).unwrap();
    assert_eq!(c.patterns.len(), 10);
    assert_eq!(c.patterns[0].0, "ip");
    assert_eq!(c.patterns[9].0, "diff");
    assert_eq!(c.alphabet.len(), 21);
}

#[test]
fn invalid_pattern_is_refused() {
    let err = config_from_options(&opts(&[("@leap-pattern-ok", "a+"), ("@leap-pattern-bad", "(")]), "3.1".into());
    match err {
        Err((option, message)) => {
            assert_eq!(option, "@leap-pattern-bad");
            assert!(!message.is_empty());
        },
        Ok(_) => panic!("an invalid pattern must be refused"),
    }
}

#[test]
fn root_bindings_cover_both_axes() {
    let c = Config::default();
    let b = root_bindings("tmux-leap", &c, "/tmp/leap.log");
    assert_eq!(
        b[0],
        vec!["bind-key", "f", "run-shell", "-b", "tmux-leap start \"#{pane_id}\" >>/tmp/leap.log 2>&1"]
    );
    assert_eq!(b[1][1], "j");
    assert!(b[1][4].starts_with("tmux-leap start --mode jump \"#{pane_id}\""));
    assert_eq!(b[2][1], "F");
    assert!(b[2][4].starts_with("tmux-leap start --words \"#{pane_id}\""));
    assert_eq!(b[3][1], "J");
    assert!(b[3][4].starts_with("tmux-leap start --mode jump --words \"#{pane_id}\""));
}
