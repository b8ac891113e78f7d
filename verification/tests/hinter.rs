use tmux_leap::hinter::{
    apply_smart_case, char_pos_to_byte, compute_padding, expand_tabs, trim_trailing, Hinter, PaneInput,
};
use tmux_leap::match_formatter::MatchFormatter;
use tmux_leap::state::State;
use tmux_leap::tmux::style::parse_style;

#[test]
fn smart_case_lowers_only_pattern() {
    assert_eq!(apply_smart_case("foo"), "(?i)foo");
    assert_eq!(apply_smart_case(r"[0-9a-f]+"), "(?i)[0-9a-f]+");
}

#[test]
fn smart_case_preserves_pattern_with_uppercase() {
    assert_eq!(apply_smart_case(r"[a-fA-F]+"), r"[a-fA-F]+");
    assert_eq!(apply_smart_case("Foo"), "Foo");
}

#[test]
fn smart_case_compiles_and_matches() {
    let re = regex::Regex::new(&apply_smart_case("modified")).unwrap();
    assert!(re.is_match("Modified: foo.rs"));
    assert!(re.is_match("modified"));
}

#[test]
fn trim_strips_trailing_sentence_punct() {
    assert_eq!(trim_trailing("https://x.com/a."), "https://x.com/a");
    assert_eq!(trim_trailing("foo,"), "foo");
    assert_eq!(trim_trailing("end!?."), "end");
}

#[test]
fn trim_strips_unbalanced_closer() {
    assert_eq!(trim_trailing("https://x.com/a)"), "https://x.com/a");
    assert_eq!(trim_trailing("path/foo]"), "path/foo");
}

#[test]
fn trim_keeps_balanced_closer() {
    assert_eq!(trim_trailing("foo(bar)"), "foo(bar)");
    assert_eq!(trim_trailing("[a]"), "[a]");
}

#[test]
fn trim_keeps_clean_text() {
    assert_eq!(trim_trailing("https://x.com/a"), "https://x.com/a");
    assert_eq!(trim_trailing(""), "");
}

#[test]
fn compute_padding_vs16_emoji() {
    assert_eq!(compute_padding("ab⚠️", 6), 2);
}

#[test]
fn compute_padding_tab_uses_column_relative_stops() {
    assert_eq!(compute_padding("abc\tdef", 15), 4);
}

#[test]
fn compute_padding_wrapped_line_pads_last_row() {
    let long_line: String = "a".repeat(200);
    assert_eq!(compute_padding(&long_line, 80), 40);
}

#[test]
fn compute_padding_exactly_full_rows_needs_no_pad() {
    let full_line: String = "a".repeat(160);
    assert_eq!(compute_padding(&full_line, 80), 0);
}

#[test]
fn trim_preserves_non_ascii_tail() {
    let s = "https://x.com/日本語";
    assert_eq!(trim_trailing(s), s);
}

#[test]
fn compute_padding_zero_width_pane() {
    assert_eq!(compute_padding("abc", 0), 0);
}

#[test]
fn expand_tabs_goes_to_next_stop() {
    assert_eq!(expand_tabs("ab\tc"), "ab      c");
    assert_eq!(expand_tabs("\t"), "        ");
    assert_eq!(expand_tabs("中\tx"), "中      x");
    assert!(!expand_tabs("a\tb\tc").contains('\t'));
}

#[test]
fn char_pos_to_byte_counts_utf8() {
    assert_eq!(char_pos_to_byte("aé日b", 0), 0);
    assert_eq!(char_pos_to_byte("aé日b", 2), 3);
    assert_eq!(char_pos_to_byte("aé日b", 3), 6);
    assert_eq!(char_pos_to_byte("aé日b", 9), 7);
}

fn formatter() -> MatchFormatter {
    MatchFormatter::new(
        parse_style("fg=green,bold"),
        parse_style("fg=blue,bold"),
        parse_style("fg=yellow"),
        parse_style("fg=blue"),
        String::new(),
        "left".into(),
    )
}

fn hinter(lines: &[&str], patterns: &[&str], reuse: bool) -> Hinter {
    let input = PaneInput {
        lines: lines.iter().map(|l| l.to_string()).collect(),
        pane_id: "%1".into(),
        width: 80,
        tty_path: "/dev/null".into(),
    };
    Hinter::new(
        vec![input],
        patterns.iter().map(|p| p.to_string()).collect(),
        "asdf".chars().map(|c| c.to_string()).collect(),
        formatter(),
        reuse,
        String::new(),
        &State::default(),
    )
}

#[test]
fn overlap_skip_longest_wins() {
    // sha and digit come before uuid, as an unfavorable map order would have them.
    let mut h = hinter(
        &["UUID: 12345678-1234-1234-1234-123456789abc"],
        &[r"[0-9a-f]{7,128}", r"[0-9]{4,}", r"[0-9a-f]{8}-[0-9a-f]{4}-[0-9a-f]{4}-[0-9a-f]{4}-[0-9a-f]{12}"],
        true,
    );
    h.precompute(None);
    let cache = h.cache.as_ref().unwrap();
    let processed: Vec<(usize, usize)> = cache[0][0].iter().map(|m| (m.start, m.end)).collect();
    println!("processed: {processed:?}");
    assert_eq!(processed.len(), 1, "UUID should beat sha+digit sub-matches: {processed:?}");
    assert_eq!(processed[0], (6, 42));
}

#[test]
fn equal_texts_share_a_hint_when_reused() {
    let mut h = hinter(&["abc1234 x abc1234", "abc1234 def5678"], &[r"[0-9a-f]{7,}"], true);
    assert_eq!(h.hint_count(), 2);
    h.precompute(None);
    let cache = h.cache.as_ref().unwrap();
    let first = cache[0][0][0].hint.clone().unwrap();
    assert_eq!(cache[0][0][1].hint.clone().unwrap(), first);
    assert_eq!(cache[0][1][0].hint.clone().unwrap(), first);
    let other = cache[0][1][1].hint.clone().unwrap();
    assert_ne!(other, first);
    assert_eq!(h.lookup(&first).unwrap().text, "abc1234");
    assert_eq!(h.lookup(&other).unwrap().text, "def5678");
}

#[test]
fn every_match_gets_its_own_hint_in_jump_mode() {
    let mut h = hinter(&["abc1234 x abc1234"], &[r"[0-9a-f]{7,}"], false);
    assert_eq!(h.hint_count(), 2);
    h.precompute(None);
    let cache = h.cache.as_ref().unwrap();
    let a = cache[0][0][0].hint.clone().unwrap();
    let b = cache[0][0][1].hint.clone().unwrap();
    assert_ne!(a, b);
    assert_eq!(h.lookup(&a).unwrap().offset, (0, 0));
    assert_eq!(h.lookup(&b).unwrap().offset, (0, 10));
}

#[test]
fn named_group_selects_its_text() {
    let mut h = hinter(&["modified:   src/main.rs"], &[r"(modified|deleted): +(?P<match>.+)"], true);
    h.precompute(None);
    let cache = h.cache.as_ref().unwrap();
    let m = &cache[0][0][0];
    assert_eq!((m.start, m.end), (0, 23));
    assert_eq!(m.fmt_offset, Some((12, 11)));
    let t = h.lookup(m.hint.as_ref().unwrap()).unwrap();
    assert_eq!(t.text, "src/main.rs");
    assert_eq!(t.offset, (0, 12));
    assert_eq!(t.source_pane_id, "%1");
}

#[test]
fn trailing_punctuation_is_not_part_of_a_match() {
    let mut h = hinter(&["see https://x.com/a)."], &[r"https?://\S+"], true);
    h.precompute(None);
    let cache = h.cache.as_ref().unwrap();
    let m = &cache[0][0][0];
    assert_eq!((m.start, m.end), (4, 19));
    assert_eq!(h.lookup(m.hint.as_ref().unwrap()).unwrap().text, "https://x.com/a");
}

#[test]
fn invalid_patterns_find_nothing() {
    let mut h = hinter(&["abc1234"], &["(", r"[0-9]{4}"], true);
    assert_eq!(h.hint_count(), 1);
}

#[test]
fn unknown_hint_selects_nothing() {
    let mut h = hinter(&["abc1234"], &[r"[0-9]{4}"], true);
    h.precompute(None);
    assert!(h.lookup("zz").is_none());
}

#[test]
fn cached_pool_is_used_and_fresh_one_handed_back() {
    let mut h = hinter(&["1111 2222"], &[r"[0-9]{4}"], false);
    let generated = h.precompute(Some(vec!["x".into(), "y".into()]));
    assert!(generated.is_none());
    let cache = h.cache.as_ref().unwrap();
    assert_eq!(cache[0][0][0].hint.as_deref(), Some("y"));
    assert_eq!(cache[0][0][1].hint.as_deref(), Some("x"));
    let mut h2 = hinter(&["1111 2222"], &[r"[0-9]{4}"], false);
    let fresh = h2.precompute(None).unwrap();
    assert_eq!(fresh, vec!["a", "s"]);
}

#[test]
fn frames_place_each_line_on_its_row() {
    let input = PaneInput {
        lines: vec!["ab".to_string(), "1234".to_string()],
        pane_id: "%1".into(),
        width: 4,
        tty_path: "/dev/null".into(),
    };
    let plain = MatchFormatter::new(
        String::new(),
        String::new(),
        String::new(),
        String::new(),
        String::new(),
        "left".into(),
    );
    let mut h = Hinter::new(
        vec![input],
        vec![r"[0-9]{4}".to_string()],
        vec!["q".to_string()],
        plain,
        true,
        String::new(),
        &State::default(),
    );
    let frames = h.run(&State::default());
    assert_eq!(frames.len(), 1);
    assert_eq!(
        frames[0],
        "\x1b[H\x1b[J\x1b[?25l\x1b[1;1Hab  \x1b[2;1H\x1b[0mq\x1b[0m234\x1b[0m\x1b[1;1H"
    );
}

#[test]
fn empty_pane_is_only_cleared() {
    let input = PaneInput { lines: vec![], pane_id: "%1".into(), width: 80, tty_path: "/dev/null".into() };
    let mut h = Hinter::new(
        vec![input],
        vec![],
        vec!["a".to_string()],
        formatter(),
        true,
        String::new(),
        &State::default(),
    );
    assert_eq!(h.run(&State::default()), vec!["\x1b[H\x1b[J\x1b[?25l".to_string()]);
}
