//! `load-config`: reading the `@leap-*` tmux options into a configuration,
//! and the key bindings it installs.
use vstd::prelude::*;
use crate::config::{
    Config, builtin_pattern_list, builtin_patterns, disallowed_hint_char, hint_letters, layout_letters, pattern_of,
    pattern_views, put_pattern, add_pattern, names_distinct,
};
use crate::table::{assoc_find, assoc_put};
use crate::text::{
    join, lines, lines_of, split_by, split_char, split_once, split_once_char, starts_with, str_eq,
    string_views, strip_prefix, to_string, trim, trim_by, trim_matches_char, trim_str,
};
use crate::tmux::style::{parse_style, style_sgr};
use crate::outside::{regex_scan, regex_valid};

verus! {

/// `s` without every leading copy of `p` (`str::trim_start_matches`).
pub open spec fn strip_leading(s: Seq<char>, p: Seq<char>) -> Seq<char>
    decreases s.len(),
{
    if p.len() > 0 && p.is_prefix_of(s) {
        strip_leading(s.skip(p.len() as int), p)
    } else {
        s
    }
}

/// Removes every leading copy of `p`.
pub fn strip_leading_str(s: &str, p: &str) -> (res: String)
    ensures
        res@ == strip_leading(s@, p@),
{
    let mut cur = to_string(s);
    if p.unicode_len() == 0 {
        return cur;
    }
    loop
        invariant
            p@.len() > 0,
            strip_leading(cur@, p@) == strip_leading(s@, p@),
        decreases cur@.len(),
    {
        match strip_prefix(cur.as_str(), p) {
            Some(rest) => {
                cur = rest;
            },
            None => {
                return cur;
            },
        }
    }
}

/// The method name of an option: without its `@leap-` prefix, with dashes
/// turned into underscores.
pub open spec fn method_of(option: Seq<char>) -> Seq<char> {
    strip_leading(option, "@leap-"@).map_values(
        |c: char|
            if c == '-' {
                '_'
            } else {
                c
            },
    )
}

/// The method name of an option.
pub fn option_to_method(option: &str) -> (res: String)
    ensures
        res@ == method_of(option@),
{
    let stripped = strip_leading_str(option, "@leap-");
    let cs = crate::text::str_chars(stripped.as_str());
    let mut out = String::new();
    let mut i: usize = 0;
    while i < cs.len()
        invariant
            cs@ == stripped@,
            i <= cs.len(),
            out@ == cs@.take(i as int).map_values(
                |c: char|
                    if c == '-' {
                        '_'
                    } else {
                        c
                    },
            ),
        decreases cs.len() - i,
    {
        let c = if cs[i] == '-' {
            '_'
        } else {
            cs[i]
        };
        crate::outside::push_char(&mut out, c);
        proof {
            assert(cs@.take(i + 1).map_values(
                |c: char|
                    if c == '-' {
                        '_'
                    } else {
                        c
                    },
            ) =~= cs@.take(i as int).map_values(
                |c: char|
                    if c == '-' {
                        '_'
                    } else {
                        c
                    },
            ).push(c));
        }
        i = i + 1;
    }
    proof {
        assert(cs@.take(i as int) == cs@);
    }
    out
}

/// An option line of `show-options`: the name up to the first space, and
/// the rest without surrounding double quotes.
pub open spec fn option_entry(line: Seq<char>) -> (Seq<char>, Seq<char>) {
    match split_once(line, ' ') {
        None => (line, seq![]),
        Some((k, v)) => (k, trim_by(v, |d: char| d == '"')),
    }
}

/// The `@leap*` options among the lines of `show-options`, in order.
pub open spec fn leap_entries(ls: Seq<Seq<char>>) -> Seq<(Seq<char>, Seq<char>)>
    decreases ls.len(),
{
    if ls.len() == 0 {
        seq![]
    } else if "@leap"@.is_prefix_of(ls.last()) {
        leap_entries(ls.drop_last()).push(option_entry(ls.last()))
    } else {
        leap_entries(ls.drop_last())
    }
}

/// The `@leap*` options in the output of `show-options -g`.
pub fn leap_options(raw: &str) -> (res: Vec<(String, String)>)
    ensures
        pattern_views(res@) == leap_entries(lines(raw@)),
{
    let ls = lines_of(raw);
    let ghost lv = string_views(ls@);
    let mut out: Vec<(String, String)> = Vec::new();
    let mut i: usize = 0;
    while i < ls.len()
        invariant
            lv == string_views(ls@),
            lv == lines(raw@),
            i <= ls.len(),
            pattern_views(out@) == leap_entries(lv.take(i as int)),
        decreases ls.len() - i,
    {
        proof {
            assert(lv.take(i + 1).drop_last() == lv.take(i as int));
            assert(lv.take(i + 1).last() == ls@[i as int]@);
        }
        let l = ls[i].as_str();
        if starts_with(l, "@leap") {
            let entry = match split_once_char(l, ' ') {
                None => (to_string(l), String::new()),
                Some((k, v)) => (k, trim_matches_char(v.as_str(), '"')),
            };
            let ghost before = out@;
            let ghost ev = (entry.0@, entry.1@);
            out.push(entry);
            proof {
                assert(ev == option_entry(l@));
                assert(pattern_views(out@) =~= pattern_views(before).push(ev));
            }
        }
        i = i + 1;
    }
    proof {
        assert(lv.take(i as int) == lv);
    }
    out
}


/// The value of the last option with a method, if any.
pub open spec fn setting(opts: Seq<(Seq<char>, Seq<char>)>, method: Seq<char>) -> Option<Seq<char>>
    decreases opts.len(),
{
    if opts.len() == 0 {
        None
    } else if method_of(opts.last().0) == method {
        Some(opts.last().1)
    } else {
        setting(opts.drop_last(), method)
    }
}

/// A text setting: the last value given, else the default.
pub open spec fn text_setting(opts: Seq<(Seq<char>, Seq<char>)>, method: Seq<char>, default: Seq<char>) -> Seq<char> {
    match setting(opts, method) {
        Some(v) => v,
        None => default,
    }
}

/// A switch: on when the last value given is `1`, and on when none is.
pub open spec fn flag_setting(opts: Seq<(Seq<char>, Seq<char>)>, method: Seq<char>) -> bool {
    match setting(opts, method) {
        Some(v) => v == "1"@,
        None => true,
    }
}

/// A style: the SGR sequence of the last value given, else the default.
pub open spec fn style_setting(opts: Seq<(Seq<char>, Seq<char>)>, method: Seq<char>, default: Seq<char>) -> Seq<char> {
    match setting(opts, method) {
        Some(v) => style_sgr(v),
        None => default,
    }
}

/// The settings that the options give a configuration, over the defaults.
pub open spec fn settings_applied(c: Config, opts: Seq<(Seq<char>, Seq<char>)>) -> bool {
    &&& c.key@ == text_setting(opts, "key"@, "f"@)
    &&& c.jump_key@ == text_setting(opts, "jump_key"@, "j"@)
    &&& c.words_key@ == text_setting(opts, "words_key"@, "F"@)
    &&& c.jump_words_key@ == text_setting(opts, "jump_words_key"@, "J"@)
    &&& c.keyboard_layout@ == text_setting(opts, "keyboard_layout"@, "qwerty"@)
    &&& c.main_action@ == text_setting(opts, "main_action"@, ":copy:"@)
    &&& c.ctrl_action@ == text_setting(opts, "ctrl_action"@, ":open:"@)
    &&& c.alt_action@ == text_setting(opts, "alt_action"@, seq![])
    &&& c.shift_action@ == text_setting(opts, "shift_action"@, ":paste:"@)
    &&& c.use_system_clipboard == flag_setting(opts, "use_system_clipboard"@)
    &&& c.hint_position@ == text_setting(opts, "hint_position"@, "left"@)
    &&& c.hint_style@ == style_setting(opts, "hint_style"@, style_sgr("fg=green,bold"@))
    &&& c.selected_hint_style@ == style_setting(opts, "selected_hint_style"@, style_sgr("fg=blue,bold"@))
    &&& c.highlight_style@ == style_setting(opts, "highlight_style"@, style_sgr("fg=yellow"@))
    &&& c.selected_highlight_style@ == style_setting(
        opts,
        "selected_highlight_style"@,
        style_sgr("fg=blue"@),
    )
    &&& c.backdrop_style@ == style_setting(opts, "backdrop_style"@, seq![])
    &&& c.enabled_builtin_patterns@ == text_setting(opts, "enabled_builtin_patterns"@, "all"@)
    &&& c.enable_bindings == flag_setting(opts, "enable_bindings"@)
}

/// An option that defines a pattern: a `pattern_` method with a value.
pub open spec fn is_pattern_option(e: (Seq<char>, Seq<char>)) -> bool {
    "pattern_"@.is_prefix_of(method_of(e.0)) && e.1.len() > 0
}

/// The first option that defines a pattern that does not compile; -1 when
/// there is none.
pub open spec fn first_bad_pattern(opts: Seq<(Seq<char>, Seq<char>)>) -> int
    decreases opts.len(),
{
    if opts.len() == 0 {
        -1
    } else if first_bad_pattern(opts.drop_last()) >= 0 {
        first_bad_pattern(opts.drop_last())
    } else if is_pattern_option(opts.last()) && !regex_valid(opts.last().1) {
        opts.len() - 1
    } else {
        -1
    }
}

/// The patterns the options define, named after their method without the
/// `pattern_` prefix, in order.
pub open spec fn user_patterns(opts: Seq<(Seq<char>, Seq<char>)>) -> Seq<(Seq<char>, Seq<char>)>
    decreases opts.len(),
{
    if opts.len() == 0 {
        seq![]
    } else if is_pattern_option(opts.last()) {
        user_patterns(opts.drop_last()).push(
            (strip_leading(method_of(opts.last().0), "pattern_"@), opts.last().1),
        )
    } else {
        user_patterns(opts.drop_last())
    }
}


/// Option methods of equal length still differ.
proof fn lemma_method_names_differ()
    ensures
        "main_action"@ != "ctrl_action"@,
        "alt_action"@ != "hint_style"@,
        "jump_words_key"@ != "backdrop_style"@,
        "keyboard_layout"@ != "highlight_style"@,
        "keyboard_layout"@ != "enable_bindings"@,
        "highlight_style"@ != "enable_bindings"@,
        "selected_highlight_style"@ != "enabled_builtin_patterns"@,
{
    reveal_strlit("alt_action");
    reveal_strlit("backdrop_style");
    reveal_strlit("ctrl_action");
    reveal_strlit("enable_bindings");
    reveal_strlit("enabled_builtin_patterns");
    reveal_strlit("highlight_style");
    reveal_strlit("hint_style");
    reveal_strlit("jump_words_key");
    reveal_strlit("keyboard_layout");
    reveal_strlit("main_action");
    reveal_strlit("selected_highlight_style");
    assert("main_action"@[0] != "ctrl_action"@[0]);
    assert("alt_action"@[0] != "hint_style"@[0]);
    assert("jump_words_key"@[0] != "backdrop_style"@[0]);
    assert("keyboard_layout"@[0] != "highlight_style"@[0]);
    assert("keyboard_layout"@[0] != "enable_bindings"@[0]);
    assert("highlight_style"@[0] != "enable_bindings"@[0]);
    assert("selected_highlight_style"@[0] != "enabled_builtin_patterns"@[0]);
}

proof fn lemma_setting_step(opts: Seq<(Seq<char>, Seq<char>)>, i: int)
    requires
        0 <= i < opts.len(),
    ensures
        forall|m: Seq<char>|
            #[trigger] setting(opts.take(i + 1), m) == if method_of(opts[i].0) == m {
                Some(opts[i].1)
            } else {
                setting(opts.take(i), m)
            },
{
    assert(opts.take(i + 1).drop_last() == opts.take(i));
    assert(opts.take(i + 1).last() == opts[i]);
}

proof fn lemma_first_bad_prefix(s: Seq<(Seq<char>, Seq<char>)>, n: int)
    requires
        0 <= n <= s.len(),
        first_bad_pattern(s.take(n)) >= 0,
    ensures
        first_bad_pattern(s) == first_bad_pattern(s.take(n)),
    decreases s.len() - n,
{
    if n < s.len() {
        assert(s.take(n + 1).drop_last() == s.take(n));
        lemma_first_bad_prefix(s, n + 1);
    } else {
        assert(s.take(n) == s);
    }
}

/// Reads the settings of the options over the defaults, and collects the
/// patterns they define; stops at the first pattern that does not compile,
/// with its option and the compiler's message.
fn read_settings(opts: &Vec<(String, String)>) -> (res: Result<(Config, Vec<(String, String)>), (String, String)>)
    ensures
        match res {
            Ok((c, user)) => first_bad_pattern(pattern_views(opts@)) == -1 && settings_applied(
                c,
                pattern_views(opts@),
            ) && pattern_views(user@) == user_patterns(pattern_views(opts@)) && c.tmux_version@ == "3.1"@,
            Err((option, _)) => first_bad_pattern(pattern_views(opts@)) >= 0 && option@ == pattern_views(
                opts@,
            )[first_bad_pattern(pattern_views(opts@))].0,
        },
{
    let ghost pv = pattern_views(opts@);
    let mut config = Config::default();
    let mut user: Vec<(String, String)> = Vec::new();
    let mut i: usize = 0;
    while i < opts.len()
        invariant
            pv == pattern_views(opts@),
            i <= opts.len(),
            settings_applied(config, pv.take(i as int)),
            pattern_views(user@) == user_patterns(pv.take(i as int)),
            first_bad_pattern(pv.take(i as int)) == -1,
            config.tmux_version@ == "3.1"@,
        decreases opts.len() - i,
    {
        proof {
            reveal_strlit("key");
            reveal_strlit("jump_key");
            reveal_strlit("words_key");
            reveal_strlit("jump_words_key");
            reveal_strlit("keyboard_layout");
            reveal_strlit("main_action");
            reveal_strlit("ctrl_action");
            reveal_strlit("alt_action");
            reveal_strlit("shift_action");
            reveal_strlit("use_system_clipboard");
            reveal_strlit("hint_position");
            reveal_strlit("hint_style");
            reveal_strlit("selected_hint_style");
            reveal_strlit("highlight_style");
            reveal_strlit("selected_highlight_style");
            reveal_strlit("backdrop_style");
            reveal_strlit("enabled_builtin_patterns");
            reveal_strlit("enable_bindings");
            reveal_strlit("pattern_");
            assert(pv.take(i + 1).drop_last() == pv.take(i as int));
            assert(pv.take(i + 1).last() == pv[i as int]);
            assert(pv[i as int] == (opts@[i as int].0@, opts@[i as int].1@));
            lemma_setting_step(pv, i as int);
            lemma_method_names_differ();
        }
        let option = &opts[i].0;
        let value = &opts[i].1;
        let method = option_to_method(option.as_str());
        let m = method.as_str();
        if str_eq(m, "key") {
            config.key = value.clone();
        } else if str_eq(m, "jump_key") {
            config.jump_key = value.clone();
        } else if str_eq(m, "words_key") {
            config.words_key = value.clone();
        } else if str_eq(m, "jump_words_key") {
            config.jump_words_key = value.clone();
        } else if str_eq(m, "keyboard_layout") {
            config.keyboard_layout = value.clone();
        } else if str_eq(m, "main_action") {
            config.main_action = value.clone();
        } else if str_eq(m, "ctrl_action") {
            config.ctrl_action = value.clone();
        } else if str_eq(m, "alt_action") {
            config.alt_action = value.clone();
        } else if str_eq(m, "shift_action") {
            config.shift_action = value.clone();
        } else if str_eq(m, "use_system_clipboard") {
            config.use_system_clipboard = str_eq(value.as_str(), "1");
        } else if str_eq(m, "hint_position") {
            config.hint_position = value.clone();
        } else if str_eq(m, "hint_style") {
            config.hint_style = parse_style(value.as_str());
        } else if str_eq(m, "selected_hint_style") {
            config.selected_hint_style = parse_style(value.as_str());
        } else if str_eq(m, "highlight_style") {
            config.highlight_style = parse_style(value.as_str());
        } else if str_eq(m, "selected_highlight_style") {
            config.selected_highlight_style = parse_style(value.as_str());
        } else if str_eq(m, "backdrop_style") {
            config.backdrop_style = parse_style(value.as_str());
        } else if str_eq(m, "enabled_builtin_patterns") {
            config.enabled_builtin_patterns = value.clone();
        } else if str_eq(m, "enable_bindings") {
            config.enable_bindings = str_eq(value.as_str(), "1");
        }
        if starts_with(m, "pattern_") && !value.as_str().is_empty() {
            let none: Vec<String> = Vec::new();
            match regex_scan(value.as_str(), &none) {
                Err(msg) => {
                    proof {
                        assert(first_bad_pattern(pv.take(i + 1)) == i);
                        lemma_first_bad_prefix(pv, i + 1);
                    }
                    return Err((option.clone(), msg));
                },
                Ok(_) => {},
            }
            let name = strip_leading_str(m, "pattern_");
            let ghost before = user@;
            let entry = (name, value.clone());
            let ghost ev = (entry.0@, entry.1@);
            user.push(entry);
            proof {
                assert(pattern_views(user@) =~= pattern_views(before).push(ev));
            }
        }
        i = i + 1;
    }
    proof {
        assert(pv.take(i as int) == pv);
    }
    Ok((config, user))
}


/// Puts each pair into the table in turn.
pub open spec fn put_all(table: Seq<(Seq<char>, Seq<char>)>, pairs: Seq<(Seq<char>, Seq<char>)>) -> Seq<
    (Seq<char>, Seq<char>),
>
    decreases pairs.len(),
{
    if pairs.len() == 0 {
        table
    } else {
        assoc_put(put_all(table, pairs.drop_last()), pairs.last().0, pairs.last().1)
    }
}

/// The enabled built-in pattern names: all of them for `all`, else the
/// comma-separated names, trimmed.
pub open spec fn enabled_builtin_names(enabled: Seq<char>) -> Seq<Seq<char>> {
    if enabled == "all"@ {
        builtin_pattern_list().map_values(|p: (Seq<char>, Seq<char>)| p.0)
    } else {
        split_by(enabled, |d: char| d == ',').map_values(|s: Seq<char>| trim(s))
    }
}

/// For each name that is a built-in pattern, that pattern is added unless
/// the name is taken.
pub open spec fn add_builtins(table: Seq<(Seq<char>, Seq<char>)>, names: Seq<Seq<char>>) -> Seq<
    (Seq<char>, Seq<char>),
>
    decreases names.len(),
{
    if names.len() == 0 {
        table
    } else {
        let t = add_builtins(table, names.drop_last());
        let n = names.last();
        match pattern_of(builtin_pattern_list(), n) {
            None => t,
            Some(p) => if assoc_find(t, n) >= 0 {
                t
            } else {
                t.push((n, p))
            },
        }
    }
}

/// The patterns of a configuration: the user's, then each enabled built-in
/// one whose name is not taken.
pub open spec fn configured_patterns(opts: Seq<(Seq<char>, Seq<char>)>) -> Seq<(Seq<char>, Seq<char>)> {
    add_builtins(
        put_all(seq![], user_patterns(opts)),
        enabled_builtin_names(text_setting(opts, "enabled_builtin_patterns"@, "all"@)),
    )
}

fn enabled_names(enabled: &str) -> (res: Vec<String>)
    ensures
        string_views(res@) == enabled_builtin_names(enabled@),
{
    if str_eq(enabled, "all") {
        let b = builtin_patterns();
        let mut out: Vec<String> = Vec::new();
        let mut i: usize = 0;
        while i < b.len()
            invariant
                pattern_views(b@) == builtin_pattern_list(),
                i <= b.len(),
                string_views(out@) == pattern_views(b@.take(i as int)).map_values(
                    |p: (Seq<char>, Seq<char>)| p.0,
                ),
            decreases b.len() - i,
        {
            let ghost before = out@;
            let n = b[i].0.clone();
            out.push(n);
            proof {
                assert(string_views(out@) =~= string_views(before).push(n@));
                assert(pattern_views(b@.take(i + 1)).map_values(|p: (Seq<char>, Seq<char>)| p.0)
                    =~= pattern_views(b@.take(i as int)).map_values(
                    |p: (Seq<char>, Seq<char>)| p.0,
                ).push(n@));
            }
            i = i + 1;
        }
        proof {
            assert(b@.take(i as int) == b@);
        }
        out
    } else {
        let parts = split_char(enabled, ',');
        let mut out: Vec<String> = Vec::new();
        let mut i: usize = 0;
        while i < parts.len()
            invariant
                string_views(parts@) == split_by(enabled@, |d: char| d == ','),
                i <= parts.len(),
                string_views(out@) == string_views(parts@.take(i as int)).map_values(|s: Seq<char>| trim(s)),
            decreases parts.len() - i,
        {
            let ghost before = out@;
            let t = trim_str(parts[i].as_str());
            out.push(t);
            proof {
                assert(string_views(out@) =~= string_views(before).push(t@));
                assert(string_views(parts@.take(i + 1)).map_values(|s: Seq<char>| trim(s)) =~= string_views(
                    parts@.take(i as int),
                ).map_values(|s: Seq<char>| trim(s)).push(t@));
            }
            i = i + 1;
        }
        proof {
            assert(parts@.take(i as int) == parts@);
        }
        out
    }
}

/// The user's patterns, then the enabled built-in ones whose names are not
/// taken.
fn assemble_patterns(user: &Vec<(String, String)>, enabled: &str) -> (res: Vec<(String, String)>)
    ensures
        pattern_views(res@) == add_builtins(
            put_all(seq![], pattern_views(user@)),
            enabled_builtin_names(enabled@),
        ),
        names_distinct(pattern_views(res@)),
{
    let ghost uv = pattern_views(user@);
    let mut table: Vec<(String, String)> = Vec::new();
    let mut i: usize = 0;
    proof {
        assert(pattern_views(table@) =~= Seq::<(Seq<char>, Seq<char>)>::empty());
    }
    while i < user.len()
        invariant
            uv == pattern_views(user@),
            i <= user.len(),
            pattern_views(table@) == put_all(seq![], uv.take(i as int)),
            names_distinct(pattern_views(table@)),
        decreases user.len() - i,
    {
        proof {
            assert(uv.take(i + 1).drop_last() == uv.take(i as int));
            assert(uv.take(i + 1).last() == uv[i as int]);
        }
        put_pattern(&mut table, user[i].0.clone(), user[i].1.clone());
        i = i + 1;
    }
    proof {
        assert(uv.take(i as int) == uv);
    }
    let ghost t0 = pattern_views(table@);
    let names = enabled_names(enabled);
    let ghost nv = string_views(names@);
    let builtins = builtin_patterns();
    let mut j: usize = 0;
    while j < names.len()
        invariant
            nv == string_views(names@),
            nv == enabled_builtin_names(enabled@),
            pattern_views(builtins@) == builtin_pattern_list(),
            j <= names.len(),
            pattern_views(table@) == add_builtins(t0, nv.take(j as int)),
            names_distinct(pattern_views(table@)),
        decreases names.len() - j,
    {
        proof {
            assert(nv.take(j + 1).drop_last() == nv.take(j as int));
            assert(nv.take(j + 1).last() == names@[j as int]@);
        }
        let found = crate::table::find_key(&builtins, names[j].as_str());
        proof {
            let bv = pattern_views(builtins@);
            let k: int = match found {
                Some(k) => k as int,
                None => -1,
            };
            assert forall|m: int| k < m < bv.len() implies (#[trigger] bv[m]).0 != names@[j as int]@ by {
                assert(bv[m].0 == builtins@[m].0@);
            }
            if k >= 0 {
                assert(bv[k].0 == builtins@[k].0@);
            }
            crate::table::lemma_assoc_find_last(bv, names@[j as int]@, k);
        }
        match found {
            Some(k) => {
                add_pattern(&mut table, names[j].clone(), builtins[k].1.clone());
            },
            None => {},
        }
        j = j + 1;
    }
    proof {
        assert(nv.take(j as int) == nv);
    }
    table
}

/// The configuration that the `@leap-*` options give over the defaults,
/// with the given tmux version, the user's and the enabled built-in
/// patterns, and the alphabet of the keyboard layout; or, when an option
/// defines a pattern that does not compile, the first such option and the
/// compiler's message.
pub fn config_from_options(opts: &Vec<(String, String)>, tmux_version: String) -> (res: Result<
    Config,
    (String, String),
>)
    ensures
        match res {
            Ok(c) => {
                &&& first_bad_pattern(pattern_views(opts@)) == -1
                &&& settings_applied(c, pattern_views(opts@))
                &&& c.tmux_version@ == tmux_version@
                &&& pattern_views(c.patterns@) == configured_patterns(pattern_views(opts@))
                &&& string_views(c.alphabet@) == hint_letters(layout_letters(c.keyboard_layout@))
                &&& c.wf()
            },
            Err((option, _)) => first_bad_pattern(pattern_views(opts@)) >= 0 && option@ == pattern_views(
                opts@,
            )[first_bad_pattern(pattern_views(opts@))].0,
        },
{
    match read_settings(opts) {
        Err(e) => Err(e),
        Ok((config, user)) => {
            let mut config = config;
            config.tmux_version = tmux_version;
            config.patterns = assemble_patterns(&user, config.enabled_builtin_patterns.as_str());
            config.alphabet = Config::alphabet_for_layout(config.keyboard_layout.as_str());
            Ok(config)
        },
    }
}


/// The shell command that sends a message to the running session.
pub open spec fn send_input(cli: Seq<char>, msg: Seq<char>) -> Seq<char> {
    cli + " send-input "@ + msg
}

/// The message of a hint key with a modifier.
pub open spec fn hint_msg(c: char, modifier: Seq<char>) -> Seq<char> {
    "hint:"@ + seq![c] + seq![':'] + modifier
}

/// The bindings of the first `n` letters of the alphabet that hints may
/// use: the letter, its capital, `C-` and `M-` with it, for the main,
/// shift, ctrl and alt modifiers.
pub open spec fn letter_bindings(cli: Seq<char>, n: nat) -> Seq<(Seq<char>, Seq<char>)>
    decreases n,
{
    if n == 0 {
        seq![]
    } else {
        let prev = letter_bindings(cli, (n - 1) as nat);
        let c = "abcdefghijklmnopqrstuvwxyz"@[n - 1];
        let u = "ABCDEFGHIJKLMNOPQRSTUVWXYZ"@[n - 1];
        if disallowed_hint_char(c) {
            prev
        } else {
            prev + seq![
                (seq![c], send_input(cli, hint_msg(c, "main"@))),
                (seq![u], send_input(cli, hint_msg(c, "shift"@))),
                ("C-"@ + seq![c], send_input(cli, hint_msg(c, "ctrl"@))),
                ("M-"@ + seq![c], send_input(cli, hint_msg(c, "alt"@))),
            ]
        }
    }
}

/// The key bindings of the `leap` table: the hint letters, then `Tab` to
/// switch multi-select mode, `C-c`, `q` and `Escape` to leave, and `Enter`
/// and any other key to do nothing.
pub open spec fn leap_mode_binding_list(cli: Seq<char>) -> Seq<(Seq<char>, Seq<char>)> {
    letter_bindings(cli, 26) + seq![
        ("Tab"@, send_input(cli, "toggle-multi-mode"@)),
        ("C-c"@, send_input(cli, "exit"@)),
        ("q"@, send_input(cli, "exit"@)),
        ("Escape"@, send_input(cli, "exit"@)),
        ("Enter"@, send_input(cli, "noop"@)),
        ("Any"@, send_input(cli, "noop"@)),
    ]
}

fn send_input_string(cli: &str, msg: &str) -> (res: String)
    ensures
        res@ == send_input(cli@, msg@),
{
    let mut s = to_string(cli);
    s.append(" send-input ");
    s.append(msg);
    s
}

fn hint_msg_string(c: char, modifier: &str) -> (res: String)
    ensures
        res@ == hint_msg(c, modifier@),
{
    let mut s = to_string("hint:");
    crate::outside::push_char(&mut s, c);
    crate::outside::push_char(&mut s, ':');
    s.append(modifier);
    proof {
        assert(s@ =~= hint_msg(c, modifier@));
    }
    s
}

fn key_with(prefix: &str, c: char) -> (res: String)
    ensures
        res@ == prefix@ + seq![c],
{
    let mut s = to_string(prefix);
    crate::outside::push_char(&mut s, c);
    s
}

fn one_char(c: char) -> (res: String)
    ensures
        res@ == seq![c],
{
    let mut s = String::new();
    crate::outside::push_char(&mut s, c);
    proof {
        assert(s@ =~= seq![c]);
    }
    s
}

/// The key bindings of the `leap` table, with the tool run as `cli`.
pub fn leap_mode_bindings(cli: &str) -> (res: Vec<(String, String)>)
    ensures
        pattern_views(res@) == leap_mode_binding_list(cli@),
{
    let lower = "abcdefghijklmnopqrstuvwxyz";
    let upper = "ABCDEFGHIJKLMNOPQRSTUVWXYZ";
    proof {
        reveal_strlit("abcdefghijklmnopqrstuvwxyz");
        reveal_strlit("ABCDEFGHIJKLMNOPQRSTUVWXYZ");
    }
    let mut bindings: Vec<(String, String)> = Vec::new();
    let mut i: usize = 0;
    while i < 26
        invariant
            lower@ == "abcdefghijklmnopqrstuvwxyz"@,
            upper@ == "ABCDEFGHIJKLMNOPQRSTUVWXYZ"@,
            lower@.len() == 26,
            upper@.len() == 26,
            i <= 26,
            pattern_views(bindings@) == letter_bindings(cli@, i as nat),
        decreases 26 - i,
    {
        let c = lower.get_char(i);
        let u = upper.get_char(i);
        if !crate::config::is_disallowed_hint_char(c) {
            let ghost before = bindings@;
            let b1 = (one_char(c), send_input_string(cli, hint_msg_string(c, "main").as_str()));
            let b2 = (one_char(u), send_input_string(cli, hint_msg_string(c, "shift").as_str()));
            let b3 = (key_with("C-", c), send_input_string(cli, hint_msg_string(c, "ctrl").as_str()));
            let b4 = (key_with("M-", c), send_input_string(cli, hint_msg_string(c, "alt").as_str()));
            let ghost added = seq![(b1.0@, b1.1@), (b2.0@, b2.1@), (b3.0@, b3.1@), (b4.0@, b4.1@)];
            bindings.push(b1);
            bindings.push(b2);
            bindings.push(b3);
            bindings.push(b4);
            proof {
                assert(pattern_views(bindings@) =~= pattern_views(before) + added);
            }
        }
        i = i + 1;
    }
    let tail = vec![
        (to_string("Tab"), send_input_string(cli, "toggle-multi-mode")),
        (to_string("C-c"), send_input_string(cli, "exit")),
        (to_string("q"), send_input_string(cli, "exit")),
        (to_string("Escape"), send_input_string(cli, "exit")),
        (to_string("Enter"), send_input_string(cli, "noop")),
        (to_string("Any"), send_input_string(cli, "noop")),
    ];
    let ghost before = bindings@;
    let mut tail = tail;
    bindings.append(&mut tail);
    proof {
        assert(pattern_views(bindings@) =~= leap_mode_binding_list(cli@));
    }
    bindings
}

/// The tmux arguments that bind a key in the `leap` table to a shell
/// command run in the foreground, so that inputs stay in order.
pub fn leap_bind_args(key: &str, cmd: &str) -> (res: Vec<String>)
    ensures
        string_views(res@) == seq!["bind-key"@, "-Tleap"@, key@, "run-shell"@, cmd@],
{
    let v = vec![to_string("bind-key"), to_string("-Tleap"), to_string(key), to_string("run-shell"), to_string(cmd)];
    proof {
        assert(string_views(v@) =~= seq!["bind-key"@, "-Tleap"@, key@, "run-shell"@, cmd@]);
    }
    v
}

/// The tmux commands that install the `leap` table, one per binding.
pub fn setup_leap_mode_bindings(cli: &str) -> (res: Vec<Vec<String>>)
    ensures
        res@.len() == leap_mode_binding_list(cli@).len(),
        forall|i: int|
            0 <= i < res@.len() ==> string_views((#[trigger] res@[i])@) == seq![
                "bind-key"@,
                "-Tleap"@,
                leap_mode_binding_list(cli@)[i].0,
                "run-shell"@,
                leap_mode_binding_list(cli@)[i].1,
            ],
{
    let bindings = leap_mode_bindings(cli);
    let mut out: Vec<Vec<String>> = Vec::new();
    let mut i: usize = 0;
    while i < bindings.len()
        invariant
            pattern_views(bindings@) == leap_mode_binding_list(cli@),
            i <= bindings.len(),
            out@.len() == i,
            forall|k: int|
                0 <= k < i ==> string_views((#[trigger] out@[k])@) == seq![
                    "bind-key"@,
                    "-Tleap"@,
                    leap_mode_binding_list(cli@)[k].0,
                    "run-shell"@,
                    leap_mode_binding_list(cli@)[k].1,
                ],
        decreases bindings.len() - i,
    {
        let args = leap_bind_args(bindings[i].0.as_str(), bindings[i].1.as_str());
        proof {
            assert(pattern_views(bindings@)[i as int] == (bindings@[i as int].0@, bindings@[i as int].1@));
        }
        out.push(args);
        i = i + 1;
    }
    out
}


/// A root binding that starts a session with the given flags, logging to
/// `log`.
pub open spec fn start_binding(key: Seq<char>, cli: Seq<char>, flags: Seq<char>, log: Seq<char>) -> Seq<Seq<char>> {
    seq![
        "bind-key"@,
        key,
        "run-shell"@,
        "-b"@,
        cli + " start "@ + flags + "\"#{pane_id}\" >>"@ + log + " 2>&1"@,
    ]
}

/// The root bindings: the hint key, the jump key, the words key and the
/// jump-words key, each starting a session in its mode.
pub open spec fn root_binding_list(cli: Seq<char>, c: Config, log: Seq<char>) -> Seq<Seq<Seq<char>>> {
    seq![
        start_binding(c.key@, cli, seq![], log),
        start_binding(c.jump_key@, cli, "--mode jump "@, log),
        start_binding(c.words_key@, cli, "--words "@, log),
        start_binding(c.jump_words_key@, cli, "--mode jump --words "@, log),
    ]
}

fn start_binding_args(key: &str, cli: &str, flags: &str, log: &str) -> (res: Vec<String>)
    ensures
        string_views(res@) == start_binding(key@, cli@, flags@, log@),
{
    let mut cmd = to_string(cli);
    cmd.append(" start ");
    cmd.append(flags);
    cmd.append("\"#{pane_id}\" >>");
    cmd.append(log);
    cmd.append(" 2>&1");
    let v = vec![to_string("bind-key"), to_string(key), to_string("run-shell"), to_string("-b"), cmd];
    proof {
        assert(string_views(v@) =~= start_binding(key@, cli@, flags@, log@));
    }
    v
}

/// The tmux commands of the root bindings, logging to `log`.
pub fn root_bindings(cli: &str, config: &Config, log: &str) -> (res: Vec<Vec<String>>)
    ensures
        res@.len() == 4,
        forall|i: int|
            0 <= i < 4 ==> string_views((#[trigger] res@[i])@) == root_binding_list(cli@, *config, log@)[i],
{
    proof {
        reveal_strlit("");
        assert(""@ =~= Seq::<char>::empty());
    }
    let v = vec![
        start_binding_args(config.key.as_str(), cli, "", log),
        start_binding_args(config.jump_key.as_str(), cli, "--mode jump ", log),
        start_binding_args(config.words_key.as_str(), cli, "--words ", log),
        start_binding_args(config.jump_words_key.as_str(), cli, "--mode jump --words ", log),
    ];
    v
}

/// The tmux commands of the root bindings, logging to `leap.log` in the
/// cache directory.
pub fn setup_root_bindings(cli: &str, config: &Config) -> (res: Vec<Vec<String>>)
    ensures
        exists|b: Option<Seq<char>>|
            {
                let log = crate::config::path_join(#[trigger] crate::config::cache_dir_at(b), "leap.log"@);
                &&& res@.len() == 4
                &&& forall|i: int|
                    0 <= i < 4 ==> string_views((#[trigger] res@[i])@) == root_binding_list(cli@, *config, log)[i]
            },
{
    let dir = crate::config::cache_dir();
    let ghost b = choose|b: Option<Seq<char>>| #[trigger] crate::config::cache_dir_at(b) == dir@;
    let log = crate::config::join_path(dir.as_str(), "leap.log");
    let res = root_bindings(cli, config, log.as_str());
    assert(log@ == crate::config::path_join(crate::config::cache_dir_at(b), "leap.log"@));
    res
}

} // verus!
