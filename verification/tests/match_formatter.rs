use tmux_leap::match_formatter::MatchFormatter;
use tmux_leap::tmux::style::parse_style;

fn make_formatter() -> MatchFormatter {
    MatchFormatter::new(
        parse_style("fg=green,bold"),
        parse_style("fg=blue,bold"),
        parse_style("fg=yellow"),
        parse_style("fg=blue"),
        String::new(),
        "left".into(),
    )
}

#[test]
fn formats_without_offset() {
    let f = make_formatter();
    let out = f.format("ab", "abcdef", false, None);
    assert!(out.contains("ab"), "hint must appear");
    assert!(out.contains("cdef") || out.contains("def"), "rest of highlight");
}

#[test]
fn hint_width_chops_highlight() {
    let f = make_formatter();
    let out = f.format("a", "hello", false, None);
    assert!(!out.is_empty());
}

#[test]
fn right_position_reverses_order() {
    let mut f = make_formatter();
    f.hint_position = "right".into();
    let out = f.format("a", "hello", false, None);
    let hint_pos = out.rfind("a");
    let hl_pos = out.find("hell");
    if let (Some(hp), Some(hl)) = (hint_pos, hl_pos) {
        assert!(hl < hp, "highlight should precede hint for right position");
    }
}

#[test]
fn exact_left_overlay() {
    let f = make_formatter();
    assert_eq!(
        f.format("ab", "abcdef", false, None),
        "\x1b[0m\x1b[32m\x1b[1mab\x1b[0m\x1b[33mcdef\x1b[0m"
    );
}

#[test]
fn exact_right_overlay() {
    let mut f = make_formatter();
    f.hint_position = "right".into();
    assert_eq!(f.format("a", "hello", false, None), "\x1b[0m\x1b[33mhell\x1b[0m\x1b[32m\x1b[1ma\x1b[0m");
}

#[test]
fn selected_hint_uses_selected_styles() {
    let f = make_formatter();
    assert_eq!(f.format("a", "xy", true, None), "\x1b[0m\x1b[34m\x1b[1ma\x1b[0m\x1b[34my\x1b[0m");
}

#[test]
fn wide_character_partly_covered_leaves_a_space() {
    let f = make_formatter();
    // The hint covers one column of a two-column character.
    assert_eq!(f.format("a", "中b", false, None), "\x1b[0m\x1b[32m\x1b[1ma\x1b[0m\x1b[33m b\x1b[0m");
}

#[test]
fn offset_keeps_surroundings_in_backdrop_style() {
    let f = MatchFormatter::new(
        "H".into(),
        "S".into(),
        "L".into(),
        "T".into(),
        "B".into(),
        "left".into(),
    );
    assert_eq!(f.format("a", "x: foo!", false, Some((3, 3))), "\x1b[0mBx: Ha\x1b[0mLoo\x1b[0mBB!");
}
