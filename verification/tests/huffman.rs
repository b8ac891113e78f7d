use tmux_leap::hint::huffman::{cache_file_name, cache_text, generate_hints, parse_cache, saves_to_cache};

fn alpha(s: &str) -> Vec<String> {
    s.chars().map(|c| c.to_string()).collect()
}

#[test]
fn hints_at_most_alphabet_size_are_single_chars() {
    let ab = alpha("asdf");
    let hints = generate_hints(&ab, 4);
    assert_eq!(hints.len(), 4);
    for h in &hints {
        assert_eq!(h.len(), 1);
    }
}

#[test]
fn hint_count_matches_n_and_all_unique() {
    let ab = alpha("asd");
    for n in 1..=12 {
        let hints = generate_hints(&ab, n);
        assert_eq!(hints.len(), n, "count mismatch at n={n}");
        let unique: std::collections::HashSet<_> = hints.iter().collect();
        assert_eq!(unique.len(), n, "duplicates at n={n}: {hints:?}");
    }
}

#[test]
fn hints_sorted_by_length() {
    let ab = alpha("asdf");
    let hints = generate_hints(&ab, 10);
    for w in hints.windows(2) {
        assert!(w[0].len() <= w[1].len(), "not sorted: {w:?}");
    }
}

#[test]
fn single_hint() {
    let ab = alpha("a");
    assert_eq!(generate_hints(&ab, 1), vec!["a"]);
}

#[test]
fn two_char_alphabet_many_hints() {
    let ab = alpha("as");
    let n = 8;
    let hints = generate_hints(&ab, n);
    assert_eq!(hints.len(), n);
    let unique: std::collections::HashSet<_> = hints.iter().collect();
    assert_eq!(unique.len(), n);
}

#[test]
fn uuid_pattern_matches() {
    let re = regex::Regex::new(r"[0-9a-f]{8}-[0-9a-f]{4}-[0-9a-f]{4}-[0-9a-f]{4}-[0-9a-f]{12}").unwrap();
    let line = "SHA: deadbeef1234567 UUID: 12345678-1234-1234-1234-123456789abc";
    let m: Vec<_> = re.find_iter(line).map(|m| (m.start(), m.as_str())).collect();
    println!("uuid matches: {m:?}");
    assert!(!m.is_empty(), "UUID pattern must match");
}

#[test]
fn no_hints_for_no_matches_or_no_alphabet() {
    assert!(generate_hints(&alpha("asdf"), 0).is_empty());
    assert!(generate_hints(&[], 5).is_empty());
}

#[test]
fn few_hints_are_the_first_letters() {
    assert_eq!(generate_hints(&alpha("asdf"), 2), vec!["a", "s"]);
}

#[test]
fn hints_are_prefix_free() {
    let hints = generate_hints(&alpha("asd"), 7);
    for a in &hints {
        for b in &hints {
            if a != b {
                assert!(!b.starts_with(a.as_str()), "{a} is a prefix of {b}");
            }
        }
    }
}

#[test]
fn cache_file_name_runs_letters_together() {
    assert_eq!(cache_file_name(&alpha("asd"), 12), "asd-12");
}

#[test]
fn cache_text_reads_back() {
    let hints = vec!["a".to_string(), "sd".to_string(), "ff".to_string()];
    let text = cache_text(&hints);
    assert_eq!(text, "a:sd:ff");
    assert_eq!(parse_cache(&text), Some(hints));
    assert_eq!(parse_cache(&format!("{text}\n")), Some(vec!["a".to_string(), "sd".to_string(), "ff".to_string()]));
}

#[test]
fn empty_cache_holds_no_hints() {
    assert_eq!(parse_cache(""), None);
    assert_eq!(parse_cache("  \n"), None);
}

#[test]
fn only_tree_hints_are_cached() {
    let abc: Vec<String> = ["a", "b", "c"].iter().map(|s| s.to_string()).collect();
    assert!(saves_to_cache(&abc, 4));
    assert!(!saves_to_cache(&abc, 3));
    assert!(!saves_to_cache(&abc[..1], 4));
}
