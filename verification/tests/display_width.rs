use tmux_leap::display_width::{of_char, of_str, of_str_with_tabs};

#[test]
fn ascii_width() {
    assert_eq!(of_str("hello"), 5);
}

#[test]
fn cjk_is_wide() {
    assert_eq!(of_char('中'), 2);
    assert_eq!(of_str("你好"), 4);
}

#[test]
fn tab_is_one() {
    assert_eq!(of_char('\t'), 1);
}

#[test]
fn control_is_zero() {
    assert_eq!(of_char('\x01'), 0);
}

#[test]
fn mixed() {
    assert_eq!(of_str("ab中cd"), 2 + 2 + 2);
}

#[test]
fn vs16_upgrades_narrow_previous_character() {
    // U+26A0 is one column; the variation selector makes it two.
    assert_eq!(of_str("⚠️"), 2);
    assert_eq!(of_str("ab⚠️"), 4);
}

#[test]
fn tabs_jump_to_next_stop() {
    assert_eq!(of_str_with_tabs("abc\tdef"), 11);
    assert_eq!(of_str_with_tabs("\t"), 8);
    assert_eq!(of_str_with_tabs("12345678\tx"), 17);
}

#[test]
fn c1_control_is_zero() {
    assert_eq!(of_char('\u{85}'), 0);
    assert_eq!(of_char('\u{7f}'), 0);
}

#[test]
fn printable_ascii_is_one_column() {
    for c in ' '..='~' {
        assert_eq!(of_char(c), 1);
    }
}

#[test]
fn vs16_after_narrow_char_adds_two() {
    assert_eq!(of_str("ab"), 2);
    assert_eq!(of_str("ab\u{26A0}\u{FE0F}"), 4);
    assert_eq!(of_str("x#\u{FE0F}"), of_str("x") + 2);
}
