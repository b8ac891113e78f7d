use tmux_leap::config::{cache_dir_under, default_jump_words_key, default_words_key, join_path, put_pattern, Config};

#[test]
fn default_config() {
    let c = Config::default();
    assert_eq!(c.key, "f");
    assert_eq!(c.jump_key, "j");
    assert_eq!(c.words_key, "F");
    assert_eq!(c.jump_words_key, "J");
    assert_eq!(c.keyboard_layout, "qwerty");
    assert!(c.alphabet.is_empty());
    assert!(c.patterns.is_empty());
    assert_eq!(c.main_action, ":copy:");
    assert_eq!(c.ctrl_action, ":open:");
    assert_eq!(c.alt_action, "");
    assert_eq!(c.shift_action, ":paste:");
    assert!(c.use_system_clipboard);
    assert_eq!(c.hint_position, "left");
    assert_eq!(c.hint_style, "\x1b[32m\x1b[1m");
    assert_eq!(c.selected_hint_style, "\x1b[34m\x1b[1m");
    assert_eq!(c.highlight_style, "\x1b[33m");
    assert_eq!(c.selected_highlight_style, "\x1b[34m");
    assert_eq!(c.backdrop_style, "");
    assert_eq!(c.tmux_version, "3.1");
    assert_eq!(c.enabled_builtin_patterns, "all");
    assert!(c.enable_bindings);
    assert_eq!(default_words_key(), "F");
    assert_eq!(default_jump_words_key(), "J");
}

#[test]
fn alphabet_drops_reserved_letters() {
    assert_eq!(
        Config::alphabet_for_layout("qwerty"),
        vec!["a", "s", "d", "f", "w", "e", "r", "z", "x", "v", "j", "k", "l", "u", "o", "p", "g", "h", "t", "y", "b"]
    );
    assert_eq!(Config::alphabet_for_layout("dvorak-homerow"), vec!["a", "o", "e", "u", "h", "t", "s", "d"]);
    assert_eq!(Config::alphabet_for_layout("klingon"), Config::alphabet_for_layout("qwerty"));
}

#[test]
fn patterns_by_name() {
    let mut c = Config::default();
    put_pattern(&mut c.patterns, "a".into(), "x+".into());
    put_pattern(&mut c.patterns, "b".into(), "y+".into());
    put_pattern(&mut c.patterns, "a".into(), "z+".into());
    assert_eq!(c.pattern("a"), Some("z+".to_string()));
    assert_eq!(c.pattern("b"), Some("y+".to_string()));
    assert_eq!(c.pattern("c"), None);
    assert_eq!(c.pattern_values(), vec!["z+", "y+"]);
}

#[test]
fn cache_paths() {
    assert_eq!(cache_dir_under(Some("/home/u/.cache".into())), "/home/u/.cache/tmux-leap");
    assert_eq!(cache_dir_under(Some("/home/u/.cache/".into())), "/home/u/.cache/tmux-leap");
    assert_eq!(cache_dir_under(None), "/tmp/tmux-leap");
    assert_eq!(join_path("", "x"), "x");
}

#[test]
fn config_and_socket_live_side_by_side() {
    let dir = cache_dir_under(Some("/home/u/.cache".to_string()));
    let config = join_path(&dir, "config.json");
    let socket = join_path(&dir, "leap.sock");
    assert_eq!(config, "/home/u/.cache/tmux-leap/config.json");
    assert_eq!(socket, "/home/u/.cache/tmux-leap/leap.sock");
    assert_ne!(config, socket);
}
