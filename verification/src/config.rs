//! Settings of the tool: keys, hint alphabet, patterns, actions and styles,
//! and where its files live.
use vstd::prelude::*;
use crate::text::{str_eq, string_views, to_string};
use crate::table::{assoc_find, assoc_put, find_key, lemma_assoc_find_last, put_key};
use crate::tmux::style::{parse_style, style_sgr};

verus! {

/// The built-in patterns, by name.
pub open spec fn builtin_pattern_list() -> Seq<(Seq<char>, Seq<char>)> {
    seq![
        ("ip"@, r"\d{1,3}\.\d{1,3}\.\d{1,3}\.\d{1,3}"@),
        ("uuid"@, r"[0-9a-f]{8}-[0-9a-f]{4}-[0-9a-f]{4}-[0-9a-f]{4}-[0-9a-f]{12}"@),
        ("sha"@, r"[0-9a-f]{7,128}"@),
        ("digit"@, r"[0-9]{4,}"@),
        ("url"@, r#"((https?://|git@|git://|ssh://|ftp://|file:///)[^\s()"']+)"#@),
        ("path"@, r"(([.\w\-~\$@]+)?(/[.\w\-@]+)+/?)"@),
        ("hex"@, r"(0x[0-9a-fA-F]+)"@),
        ("git-status"@, r"(modified|deleted|deleted by us|new file): +(?P<match>.+)"@),
        ("git-status-branch"@, r"Your branch is up to date with '(?P<match>.*)'\."@),
        ("diff"@, r"(---|[+][+][+]) [ab]/(?P<match>.*)"@),
    ]
}

/// The built-in patterns, by name.
pub fn builtin_patterns() -> (res: Vec<(String, String)>)
    ensures
        pattern_views(res@) == builtin_pattern_list(),
{
    let mut v: Vec<(String, String)> = Vec::new();
    v.push((to_string("ip"), to_string(r"\d{1,3}\.\d{1,3}\.\d{1,3}\.\d{1,3}")));
    v.push((to_string("uuid"), to_string(r"[0-9a-f]{8}-[0-9a-f]{4}-[0-9a-f]{4}-[0-9a-f]{4}-[0-9a-f]{12}")));
    v.push((to_string("sha"), to_string(r"[0-9a-f]{7,128}")));
    v.push((to_string("digit"), to_string(r"[0-9]{4,}")));
    v.push((to_string("url"), to_string(r#"((https?://|git@|git://|ssh://|ftp://|file:///)[^\s()"']+)"#)));
    v.push((to_string("path"), to_string(r"(([.\w\-~\$@]+)?(/[.\w\-@]+)+/?)")));
    v.push((to_string("hex"), to_string(r"(0x[0-9a-fA-F]+)")));
    v.push((to_string("git-status"), to_string(r"(modified|deleted|deleted by us|new file): +(?P<match>.+)")));
    v.push((to_string("git-status-branch"), to_string(r"Your branch is up to date with '(?P<match>.*)'\.")));
    v.push((to_string("diff"), to_string(r"(---|[+][+][+]) [ab]/(?P<match>.*)")));
    proof {
        assert(pattern_views(v@) =~= builtin_pattern_list());
    }
    v
}

/// Name/pattern pairs as values.
pub open spec fn pattern_views(v: Seq<(String, String)>) -> Seq<(Seq<char>, Seq<char>)> {
    v.map_values(|p: (String, String)| (p.0@, p.1@))
}

/// The letters of a keyboard layout, home-row first; `qwerty` for an
/// unknown layout.
pub open spec fn layout_letters(layout: Seq<char>) -> Seq<char> {
    if layout == "qwerty"@ {
        "asdfqwerzxcvjklmiuopghtybn"@
    } else if layout == "qwerty-homerow"@ {
        "asdfjklgh"@
    } else if layout == "qwerty-left-hand"@ {
        "asdfqwerzcxv"@
    } else if layout == "qwerty-right-hand"@ {
        "jkluiopmyhn"@
    } else if layout == "azerty"@ {
        "qsdfazerwxcvjklmuiopghtybn"@
    } else if layout == "azerty-homerow"@ {
        "qsdfjkmgh"@
    } else if layout == "azerty-left-hand"@ {
        "qsdfazerwxcv"@
    } else if layout == "azerty-right-hand"@ {
        "jklmuiophyn"@
    } else if layout == "qwertz"@ {
        "asdfqweryxcvjkluiopmghtzbn"@
    } else if layout == "qwertz-homerow"@ {
        "asdfghjkl"@
    } else if layout == "qwertz-left-hand"@ {
        "asdfqweryxcv"@
    } else if layout == "qwertz-right-hand"@ {
        "jkluiopmhzn"@
    } else if layout == "dvorak"@ {
        "aoeuqjkxpyhtnsgcrlmwvzfidb"@
    } else if layout == "dvorak-homerow"@ {
        "aoeuhtnsid"@
    } else if layout == "dvorak-left-hand"@ {
        "aoeupqjkyix"@
    } else if layout == "dvorak-right-hand"@ {
        "htnsgcrlmwvz"@
    } else if layout == "colemak"@ {
        "arstqwfpzxcvneioluymdhgjbk"@
    } else if layout == "colemak-homerow"@ {
        "arstneiodh"@
    } else if layout == "colemak-left-hand"@ {
        "arstqwfpzxcv"@
    } else if layout == "colemak-right-hand"@ {
        "neioluymjhk"@
    } else {
        "asdfqwerzxcvjklmiuopghtybn"@
    }
}

fn layout_letters_str(layout: &str) -> (res: &'static str)
    ensures
        res@ == layout_letters(layout@),
{
    if str_eq(layout, "qwerty") {
        "asdfqwerzxcvjklmiuopghtybn"
    } else if str_eq(layout, "qwerty-homerow") {
        "asdfjklgh"
    } else if str_eq(layout, "qwerty-left-hand") {
        "asdfqwerzcxv"
    } else if str_eq(layout, "qwerty-right-hand") {
        "jkluiopmyhn"
    } else if str_eq(layout, "azerty") {
        "qsdfazerwxcvjklmuiopghtybn"
    } else if str_eq(layout, "azerty-homerow") {
        "qsdfjkmgh"
    } else if str_eq(layout, "azerty-left-hand") {
        "qsdfazerwxcv"
    } else if str_eq(layout, "azerty-right-hand") {
        "jklmuiophyn"
    } else if str_eq(layout, "qwertz") {
        "asdfqweryxcvjkluiopmghtzbn"
    } else if str_eq(layout, "qwertz-homerow") {
        "asdfghjkl"
    } else if str_eq(layout, "qwertz-left-hand") {
        "asdfqweryxcv"
    } else if str_eq(layout, "qwertz-right-hand") {
        "jkluiopmhzn"
    } else if str_eq(layout, "dvorak") {
        "aoeuqjkxpyhtnsgcrlmwvzfidb"
    } else if str_eq(layout, "dvorak-homerow") {
        "aoeuhtnsid"
    } else if str_eq(layout, "dvorak-left-hand") {
        "aoeupqjkyix"
    } else if str_eq(layout, "dvorak-right-hand") {
        "htnsgcrlmwvz"
    } else if str_eq(layout, "colemak") {
        "arstqwfpzxcvneioluymdhgjbk"
    } else if str_eq(layout, "colemak-homerow") {
        "arstneiodh"
    } else if str_eq(layout, "colemak-left-hand") {
        "arstqwfpzxcv"
    } else if str_eq(layout, "colemak-right-hand") {
        "neioluymjhk"
    } else {
        "asdfqwerzxcvjklmiuopghtybn"
    }
}

/// Letters never used in hints: in leap mode they stand for other keys.
pub open spec fn disallowed_hint_char(c: char) -> bool {
    c == 'c' || c == 'i' || c == 'm' || c == 'q' || c == 'n'
}

/// Whether a letter is never used in hints.
pub fn is_disallowed_hint_char(c: char) -> (res: bool)
    ensures
        res == disallowed_hint_char(c),
{
    c == 'c' || c == 'i' || c == 'm' || c == 'q' || c == 'n'
}

/// The allowed letters of a text, each as a one-letter string.
pub open spec fn hint_letters(s: Seq<char>) -> Seq<Seq<char>>
    decreases s.len(),
{
    if s.len() == 0 {
        seq![]
    } else if disallowed_hint_char(s.last()) {
        hint_letters(s.drop_last())
    } else {
        hint_letters(s.drop_last()).push(seq![s.last()])
    }
}

/// Configuration: keys, layout and alphabet, patterns by name (each name
/// once), actions per modifier, clipboard use, hint placement, styles (as
/// SGR sequences), the tmux version, the enabled built-in patterns, and
/// whether root key bindings are installed.
pub struct Config {
    pub key: String,
    pub jump_key: String,
    pub words_key: String,
    pub jump_words_key: String,
    pub keyboard_layout: String,
    pub alphabet: Vec<String>,
    pub patterns: Vec<(String, String)>,
    pub main_action: String,
    pub ctrl_action: String,
    pub alt_action: String,
    pub shift_action: String,
    pub use_system_clipboard: bool,
    pub hint_position: String,
    pub hint_style: String,
    pub selected_hint_style: String,
    pub highlight_style: String,
    pub selected_highlight_style: String,
    pub backdrop_style: String,
    pub tmux_version: String,
    pub enabled_builtin_patterns: String,
    pub enable_bindings: bool,
}

/// Every name occurs once.
pub open spec fn names_distinct(v: Seq<(Seq<char>, Seq<char>)>) -> bool {
    forall|i: int, j: int| 0 <= i < j < v.len() ==> (#[trigger] v[i]).0 != (#[trigger] v[j]).0
}

impl Config {
    /// Each pattern name occurs once.
    pub open spec fn wf(&self) -> bool {
        names_distinct(pattern_views(self.patterns@))
    }

    /// The letters of a keyboard layout, without those reserved for other
    /// keys, each as its own string.
    pub fn alphabet_for_layout(layout: &str) -> (res: Vec<String>)
        ensures
            string_views(res@) == hint_letters(layout_letters(layout@)),
    {
        let letters = layout_letters_str(layout);
        let cs = crate::text::str_chars(letters);
        let mut out: Vec<String> = Vec::new();
        let mut i: usize = 0;
        while i < cs.len()
            invariant
                cs@ == layout_letters(layout@),
                i <= cs.len(),
                string_views(out@) == hint_letters(cs@.take(i as int)),
            decreases cs.len() - i,
        {
            proof {
                assert(cs@.take(i + 1).drop_last() == cs@.take(i as int));
                assert(cs@.take(i + 1).last() == cs@[i as int]);
            }
            let c = cs[i];
            if !is_disallowed_hint_char(c) {
                let mut s = String::new();
                crate::outside::push_char(&mut s, c);
                let ghost before = out@;
                out.push(s);
                proof {
                    assert(string_views(out@) =~= string_views(before).push(seq![c]));
                }
            }
            i = i + 1;
        }
        proof {
            assert(cs@.take(i as int) == cs@);
        }
        out
    }
}

/// The default key for words mode: `F`.
pub fn default_words_key() -> (res: String)
    ensures
        res@ == "F"@,
{
    to_string("F")
}

/// The default key for words jump mode: `J`.
pub fn default_jump_words_key() -> (res: String)
    ensures
        res@ == "J"@,
{
    to_string("J")
}

impl Default for Config {
    /// Keys `f`, `j`, `F`, `J`; the qwerty layout with no alphabet and no
    /// patterns yet; copy, open, nothing and paste for the main, ctrl, alt
    /// and shift actions; the system clipboard; hints on the left; green
    /// bold hints, yellow highlights, blue for picked ones, no backdrop;
    /// tmux 3.1; all built-in patterns; root bindings on.
    fn default() -> (c: Config)
        ensures
            c.key@ == "f"@,
            c.jump_key@ == "j"@,
            c.words_key@ == "F"@,
            c.jump_words_key@ == "J"@,
            c.keyboard_layout@ == "qwerty"@,
            c.alphabet@.len() == 0,
            c.patterns@.len() == 0,
            c.main_action@ == ":copy:"@,
            c.ctrl_action@ == ":open:"@,
            c.alt_action@ == Seq::<char>::empty(),
            c.shift_action@ == ":paste:"@,
            c.use_system_clipboard,
            c.hint_position@ == "left"@,
            c.hint_style@ == style_sgr("fg=green,bold"@),
            c.selected_hint_style@ == style_sgr("fg=blue,bold"@),
            c.highlight_style@ == style_sgr("fg=yellow"@),
            c.selected_highlight_style@ == style_sgr("fg=blue"@),
            c.backdrop_style@ == Seq::<char>::empty(),
            c.tmux_version@ == "3.1"@,
            c.enabled_builtin_patterns@ == "all"@,
            c.enable_bindings,
            c.wf(),
    {
        Config {
            key: to_string("f"),
            jump_key: to_string("j"),
            words_key: default_words_key(),
            jump_words_key: default_jump_words_key(),
            keyboard_layout: to_string("qwerty"),
            alphabet: Vec::new(),
            patterns: Vec::new(),
            main_action: to_string(":copy:"),
            ctrl_action: to_string(":open:"),
            alt_action: String::new(),
            shift_action: to_string(":paste:"),
            use_system_clipboard: true,
            hint_position: to_string("left"),
            hint_style: parse_style("fg=green,bold"),
            selected_hint_style: parse_style("fg=blue,bold"),
            highlight_style: parse_style("fg=yellow"),
            selected_highlight_style: parse_style("fg=blue"),
            backdrop_style: String::new(),
            tmux_version: to_string("3.1"),
            enabled_builtin_patterns: to_string("all"),
            enable_bindings: true,
        }
    }
}


/// A relative path appended to a directory (`Path::join`): a separator is
/// put between them unless the directory is empty or already ends in one.
pub open spec fn path_join(base: Seq<char>, name: Seq<char>) -> Seq<char> {
    if base.len() == 0 {
        name
    } else if base.last() == '/' {
        base + name
    } else {
        base + seq!['/'] + name
    }
}

/// Appends a relative path to a directory.
pub fn join_path(base: &str, name: &str) -> (res: String)
    ensures
        res@ == path_join(base@, name@),
{
    let mut out = to_string(base);
    let n = base.unicode_len();
    if n > 0 && base.get_char(n - 1) != '/' {
        crate::outside::push_char(&mut out, '/');
    }
    out.append(name);
    out
}

/// The cache directory of the tool under the user's cache directory, or
/// under `/tmp` when there is none.
pub open spec fn cache_dir_at(base: Option<Seq<char>>) -> Seq<char> {
    path_join(
        match base {
            Some(b) => b,
            None => "/tmp"@,
        },
        "tmux-leap"@,
    )
}

/// The cache directory of the tool under a given user cache directory.
pub fn cache_dir_under(base: Option<String>) -> (res: String)
    ensures
        res@ == cache_dir_at(
            match base {
                Some(b) => Some(b@),
                None => None,
            },
        ),
{
    match base {
        Some(b) => join_path(b.as_str(), "tmux-leap"),
        None => join_path("/tmp", "tmux-leap"),
    }
}

/// The cache directory of the tool: `tmux-leap` under the user's cache
/// directory, or under `/tmp`.
pub fn cache_dir() -> (res: String)
    ensures
        exists|b: Option<Seq<char>>| #[trigger] cache_dir_at(b) == res@,
{
    let base = crate::outside::user_cache_dir();
    let ghost bv = match &base {
        Some(b) => Some(b@),
        None => None,
    };
    let res = cache_dir_under(base);
    assert(cache_dir_at(bv) == res@);
    res
}

/// Where the configuration is saved: `config.json` in the cache directory.
pub fn config_path() -> (res: String)
    ensures
        exists|b: Option<Seq<char>>| path_join(#[trigger] cache_dir_at(b), "config.json"@) == res@,
{
    let dir = cache_dir();
    let ghost b = choose|b: Option<Seq<char>>| #[trigger] cache_dir_at(b) == dir@;
    let res = join_path(dir.as_str(), "config.json");
    assert(path_join(cache_dir_at(b), "config.json"@) == res@);
    res
}

/// Where the input socket of a running session lives: `leap.sock` in the
/// cache directory.
pub fn socket_path() -> (res: String)
    ensures
        exists|b: Option<Seq<char>>| path_join(#[trigger] cache_dir_at(b), "leap.sock"@) == res@,
{
    let dir = cache_dir();
    let ghost b = choose|b: Option<Seq<char>>| #[trigger] cache_dir_at(b) == dir@;
    let res = join_path(dir.as_str(), "leap.sock");
    assert(path_join(cache_dir_at(b), "leap.sock"@) == res@);
    res
}


/// Law: for the same base directory, the saved configuration and the input
/// socket are two different files in one directory, the tool's cache
/// directory.
pub proof fn law_config_and_socket_share_directory(b: Option<Seq<char>>)
    ensures
        path_join(cache_dir_at(b), "config.json"@) == cache_dir_at(b) + seq!['/'] + "config.json"@,
        path_join(cache_dir_at(b), "leap.sock"@) == cache_dir_at(b) + seq!['/'] + "leap.sock"@,
        path_join(cache_dir_at(b), "config.json"@) != path_join(cache_dir_at(b), "leap.sock"@),
{
    reveal_strlit("tmux-leap");
    reveal_strlit("/tmp");
    reveal_strlit("config.json");
    reveal_strlit("leap.sock");
    let base = match b {
        Some(x) => x,
        None => "/tmp"@,
    };
    let d = cache_dir_at(b);
    assert(d.len() > 0 && d.last() == 'p') by {
        if base.len() == 0 {
            assert(d == "tmux-leap"@);
        } else if base.last() == '/' {
            assert(d == base + "tmux-leap"@);
        } else {
            assert(d == base + seq!['/'] + "tmux-leap"@);
        }
    }
    let x = path_join(d, "config.json"@);
    let y = path_join(d, "leap.sock"@);
    assert(x.len() != y.len());
}

/// The pattern stored under a name, if any.
pub open spec fn pattern_of(v: Seq<(Seq<char>, Seq<char>)>, name: Seq<char>) -> Option<Seq<char>> {
    let i = assoc_find(v, name);
    if i >= 0 {
        Some(v[i].1)
    } else {
        None
    }
}

proof fn lemma_put_distinct(v: Seq<(Seq<char>, Seq<char>)>, k: Seq<char>, p: Seq<char>)
    requires
        names_distinct(v),
        -1 <= assoc_find(v, k) < v.len(),
        assoc_find(v, k) >= 0 ==> v[assoc_find(v, k)].0 == k,
        assoc_find(v, k) == -1 ==> forall|j: int| 0 <= j < v.len() ==> (#[trigger] v[j]).0 != k,
    ensures
        names_distinct(assoc_put(v, k, p)),
{
    let r = assoc_put(v, k, p);
    let i = assoc_find(v, k);
    assert forall|a: int, b: int| 0 <= a < b < r.len() implies (#[trigger] r[a]).0 != (#[trigger] r[b]).0 by {
        if i >= 0 {
            assert(r[a].0 == v[a].0);
            assert(r[b].0 == v[b].0);
        } else if b == v.len() {
            assert(r[a] == v[a]);
        } else {
            assert(r[a] == v[a]);
            assert(r[b] == v[b]);
        }
    }
}

/// Stores `pattern` under `name`, replacing the pattern stored there.
pub fn put_pattern(patterns: &mut Vec<(String, String)>, name: String, pattern: String)
    requires
        names_distinct(pattern_views(old(patterns)@)),
    ensures
        pattern_views(final(patterns)@) == assoc_put(pattern_views(old(patterns)@), name@, pattern@),
        names_distinct(pattern_views(final(patterns)@)),
{
    let ghost before = pattern_views(patterns@);
    let ghost k = name@;
    let ghost pv = pattern@;
    let idx = put_key(patterns, name, pattern);
    proof {
        let i: int = match idx {
            Some(i) => i as int,
            None => -1,
        };
        assert forall|j: int| i < j < before.len() implies (#[trigger] before[j]).0 != k by {
            assert(before[j].0 == old(patterns)@[j].0@);
        }
        if i >= 0 {
            assert(before[i].0 == old(patterns)@[i].0@);
        }
        lemma_assoc_find_last(before, k, i);
        assert(pattern_views(patterns@) =~= assoc_put(before, k, pv));
        lemma_put_distinct(before, k, pv);
    }
}

/// Stores `pattern` under `name` unless a pattern is stored there.
pub fn add_pattern(patterns: &mut Vec<(String, String)>, name: String, pattern: String)
    requires
        names_distinct(pattern_views(old(patterns)@)),
    ensures
        pattern_views(final(patterns)@) == if assoc_find(pattern_views(old(patterns)@), name@) >= 0 {
            pattern_views(old(patterns)@)
        } else {
            pattern_views(old(patterns)@).push((name@, pattern@))
        },
        names_distinct(pattern_views(final(patterns)@)),
{
    let ghost before = pattern_views(patterns@);
    let found = find_key(patterns, name.as_str());
    proof {
        let i: int = match found {
            Some(i) => i as int,
            None => -1,
        };
        assert forall|j: int| i < j < before.len() implies (#[trigger] before[j]).0 != name@ by {
            assert(before[j].0 == patterns@[j].0@);
        }
        if i >= 0 {
            assert(before[i].0 == patterns@[i].0@);
        }
        lemma_assoc_find_last(before, name@, i);
    }
    if found.is_none() {
        let ghost k = name@;
        let ghost pv = pattern@;
        patterns.push((name, pattern));
        proof {
            assert(pattern_views(patterns@) =~= before.push((k, pv)));
            lemma_put_distinct(before, k, pv);
            assert(assoc_put(before, k, pv) == before.push((k, pv)));
        }
    }
}

impl Config {
    /// The pattern stored under a name.
    pub fn pattern(&self, name: &str) -> (res: Option<String>)
        ensures
            match res {
                Some(p) => pattern_of(pattern_views(self.patterns@), name@) == Some(p@),
                None => pattern_of(pattern_views(self.patterns@), name@) is None,
            },
    {
        let ghost pv = pattern_views(self.patterns@);
        let found = find_key(&self.patterns, name);
        proof {
            let i: int = match found {
                Some(i) => i as int,
                None => -1,
            };
            assert forall|j: int| i < j < pv.len() implies (#[trigger] pv[j]).0 != name@ by {
                assert(pv[j].0 == self.patterns@[j].0@);
            }
            if i >= 0 {
                assert(pv[i].0 == self.patterns@[i].0@);
            }
            lemma_assoc_find_last(pv, name@, i);
        }
        match found {
            Some(i) => Some(self.patterns[i].1.clone()),
            None => None,
        }
    }

    /// The stored patterns, in order.
    pub fn pattern_values(&self) -> (res: Vec<String>)
        ensures
            string_views(res@) == pattern_views(self.patterns@).map_values(
                |p: (Seq<char>, Seq<char>)| p.1,
            ),
    {
        let mut out: Vec<String> = Vec::new();
        let mut i: usize = 0;
        while i < self.patterns.len()
            invariant
                i <= self.patterns.len(),
                string_views(out@) == pattern_views(self.patterns@.take(i as int)).map_values(
                    |p: (Seq<char>, Seq<char>)| p.1,
                ),
            decreases self.patterns.len() - i,
        {
            let ghost before = out@;
            let v = self.patterns[i].1.clone();
            out.push(v);
            proof {
                assert(string_views(out@) =~= string_views(before).push(v@));
                assert(pattern_views(self.patterns@.take(i + 1)).map_values(|p: (Seq<char>, Seq<char>)| p.1)
                    =~= pattern_views(self.patterns@.take(i as int)).map_values(
                    |p: (Seq<char>, Seq<char>)| p.1,
                ).push(v@));
            }
            i = i + 1;
        }
        proof {
            assert(self.patterns@.take(i as int) == self.patterns@);
        }
        out
    }
}


/// The built-in patterns have distinct names.
pub proof fn lemma_builtin_names_distinct()
    ensures
        names_distinct(builtin_pattern_list()),
{
    reveal_strlit("ip");
    reveal_strlit("uuid");
    reveal_strlit("sha");
    reveal_strlit("digit");
    reveal_strlit("url");
    reveal_strlit("path");
    reveal_strlit("hex");
    reveal_strlit("git-status");
    reveal_strlit("git-status-branch");
    reveal_strlit("diff");
    let v = builtin_pattern_list();
    assert forall|i: int, j: int| 0 <= i < j < v.len() implies (#[trigger] v[i]).0 != (#[trigger] v[j]).0 by {
        if v[i].0.len() == v[j].0.len() {
            assert(v[i].0[0] != v[j].0[0] || v[i].0[1] != v[j].0[1]);
        }
    }
}

} // verus!
