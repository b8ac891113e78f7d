use tmux_leap::tmux::style::parse_style;

#[test]
fn bold_green() {
    let s = parse_style("fg=green,bold");
    assert!(s.contains("\x1b[32m"), "expected fg green SGR");
    assert!(s.contains("\x1b[1m"), "expected bold SGR");
}

#[test]
fn fg_yellow() {
    assert_eq!(parse_style("fg=yellow"), "\x1b[33m");
}

#[test]
fn bg_blue() {
    assert_eq!(parse_style("bg=blue"), "\x1b[44m");
}

#[test]
fn colour256() {
    assert_eq!(parse_style("fg=colour200"), "\x1b[38;5;200m");
}

#[test]
fn empty() {
    assert_eq!(parse_style(""), "");
}

#[test]
fn default_colour_and_attributes() {
    assert_eq!(parse_style("fg=default"), "\x1b[39m");
    assert_eq!(parse_style("bg=default"), "\x1b[49m");
    assert_eq!(parse_style("underscore reverse"), "\x1b[4m\x1b[7m");
    assert_eq!(parse_style("bright,dim,italics"), "\x1b[1m\x1b[2m\x1b[3m");
}

#[test]
fn unknown_tokens_are_ignored() {
    assert_eq!(parse_style("fg=nope,blink,bg=colour300"), "");
    assert_eq!(parse_style("bg=colour7"), "\x1b[48;5;7m");
}

#[test]
fn joined_styles_concatenate() {
    let a = "fg=green,bold";
    let b = "bg=colour200 underscore";
    assert_eq!(parse_style(&format!("{a},{b}")), format!("{}{}", parse_style(a), parse_style(b)));
    assert_eq!(parse_style("fg=red,"), parse_style("fg=red"));
}
