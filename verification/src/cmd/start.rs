//! `start`: the decisions of a hint session.  The program around the
//! library runs tmux, reads and writes terminals and waits for input; here
//! are the choices it makes between those steps.
use vstd::prelude::*;
use crate::config::{Config, builtin_patterns, pattern_of, pattern_views, names_distinct, put_pattern};
use crate::hinter::{Hinter, PaneInput, Target, TargetView};
use crate::match_formatter::MatchFormatter;
use crate::state::State;
use crate::table::assoc_find;
use crate::text::{
    lines, lines_of, opt_view, split_by, split_char, split_once, split_once_char, str_eq, string_views,
    to_string, trim, trim_str,
};
use crate::tmux::pane::{Pane, same_pane, select_command, swap_batch, batch};

verus! {

/// The position of the first pane with an id, or -1.
pub open spec fn first_with_id(panes: Seq<Pane>, id: Seq<char>) -> int
    decreases panes.len(),
{
    if panes.len() == 0 {
        -1
    } else if panes[0].pane_id@ == id {
        0
    } else if first_with_id(panes.drop_first(), id) < 0 {
        -1
    } else {
        first_with_id(panes.drop_first(), id) + 1
    }
}

proof fn lemma_first_with_id(panes: Seq<Pane>, id: Seq<char>, i: int)
    requires
        -1 <= i < panes.len(),
        i >= 0 ==> panes[i].pane_id@ == id,
        forall|j: int| 0 <= j < panes.len() && (i < 0 || j < i) ==> (#[trigger] panes[j]).pane_id@ != id,
    ensures
        first_with_id(panes, id) == i,
    decreases panes.len(),
{
    if panes.len() > 0 && panes[0].pane_id@ != id {
        assert forall|j: int|
            0 <= j < panes.drop_first().len() && (i - 1 < 0 || j < i - 1) implies (
            #[trigger] panes.drop_first()[j]).pane_id@ != id by {
            assert(panes.drop_first()[j] == panes[j + 1]);
        }
        if i >= 1 {
            assert(panes.drop_first()[i - 1] == panes[i]);
        }
        lemma_first_with_id(panes.drop_first(), id, if i < 0 {
            -1
        } else {
            i - 1
        });
    }
}

/// The first pane with an id.
fn find_by_id(panes: &Vec<Pane>, id: &str) -> (res: Option<usize>)
    ensures
        match res {
            Some(i) => i == first_with_id(panes@, id@) && i < panes@.len(),
            None => first_with_id(panes@, id@) == -1,
        },
{
    let mut i: usize = 0;
    while i < panes.len()
        invariant
            i <= panes.len(),
            forall|j: int| 0 <= j < i ==> (#[trigger] panes@[j]).pane_id@ != id@,
        decreases panes.len() - i,
    {
        if str_eq(panes[i].pane_id.as_str(), id) {
            proof {
                lemma_first_with_id(panes@, id@, i as int);
            }
            return Some(i);
        }
        i = i + 1;
    }
    proof {
        lemma_first_with_id(panes@, id@, -1);
    }
    None
}

/// A pane target that is a pane id (`%N`) rather than a tmux target token.
pub open spec fn is_pane_id(target: Seq<char>) -> bool {
    target.len() > 0 && target[0] == '%'
}

/// Whether a pane target is already a pane id, which needs no lookup.
pub fn pane_id_given(target: &str) -> (res: bool)
    ensures
        res == is_pane_id(target@),
{
    target.unicode_len() > 0 && target.get_char(0) == '%'
}

/// Jump mode: hints are not reused, wrapped lines are not joined, and the
/// session ends focused on the pane of the picked match.
pub fn is_jump_mode(mode: &str) -> (res: bool)
    ensures
        res == (mode@ == "jump"@),
{
    str_eq(mode, "jump")
}

/// The id of the pane that the start argument names: the argument itself
/// when it is a pane id (`%N`), else the id that tmux resolved it to.
pub open spec fn named_pane_id(pane_target: Seq<char>, pane_id: Seq<char>) -> Seq<char> {
    if is_pane_id(pane_target) {
        pane_target
    } else {
        pane_id
    }
}

/// Whether the pane that the start argument names is among the panes of
/// its window.
pub fn pane_listed(pane_target: &str, pane_id: &str, panes: &Vec<Pane>) -> (res: bool)
    ensures
        res == (first_with_id(panes@, named_pane_id(pane_target@, pane_id@)) >= 0),
{
    let id = if pane_id_given(pane_target) {
        pane_target
    } else {
        pane_id
    };
    find_by_id(panes, id).is_some()
}

/// The active and the target pane among the panes of the target's window:
/// both are the pane that the start argument names, either directly by its
/// id (`%N`) or as a tmux target that tmux resolved to `pane_id`.  That pane
/// must be among them (see [`pane_listed`]).
pub fn resolve_pane(pane_target: &str, pane_id: &str, panes: &Vec<Pane>) -> (res: (Pane, Pane))
    requires
        first_with_id(panes@, named_pane_id(pane_target@, pane_id@)) >= 0,
    ensures
        same_pane(res.0, panes@[first_with_id(panes@, named_pane_id(pane_target@, pane_id@))]),
        same_pane(res.1, panes@[first_with_id(panes@, named_pane_id(pane_target@, pane_id@))]),
{
    let id = if pane_id_given(pane_target) {
        pane_target
    } else {
        pane_id
    };
    let i = find_by_id(panes, id).unwrap();
    (panes[i].duplicate(), panes[i].duplicate())
}

/// The panes that get hints: in a zoomed window only the active one,
/// otherwise every pane of the window.
pub fn source_panes(zoomed: bool, active: &Pane, window_panes: Vec<Pane>) -> (res: Vec<Pane>)
    ensures
        zoomed ==> res@.len() == 1 && same_pane(res@[0], *active),
        !zoomed ==> res@ == window_panes@,
{
    if zoomed {
        vec![active.duplicate()]
    } else {
        window_panes
    }
}

/// The larger of two numbers.
pub open spec fn max_of(a: int, b: int) -> int {
    if a >= b {
        a
    } else {
        b
    }
}

/// The rightmost column and the lowest row that the panes reach.
pub open spec fn extent(panes: Seq<Pane>) -> (int, int)
    decreases panes.len(),
{
    if panes.len() == 0 {
        (0, 0)
    } else {
        let (w, h) = extent(panes.drop_last());
        let p = panes.last();
        (max_of(w, p.pane_left + p.pane_width), max_of(h, p.pane_top + p.pane_height))
    }
}

/// The edges of every pane fit in `u32`.
pub open spec fn edges_fit(panes: Seq<Pane>) -> bool {
    forall|i: int|
        0 <= i < panes.len() ==> (#[trigger] panes[i]).pane_left + panes[i].pane_width <= u32::MAX
            && panes[i].pane_top + panes[i].pane_height <= u32::MAX
}

/// The size of a window that holds the panes as they are placed; none for
/// no panes.
pub fn window_size(panes: &Vec<Pane>) -> (res: Option<(u32, u32)>)
    requires
        edges_fit(panes@),
    ensures
        match res {
            None => panes@.len() == 0,
            Some((w, h)) => panes@.len() > 0 && w == extent(panes@).0 && h == extent(panes@).1,
        },
{
    if panes.len() == 0 {
        return None;
    }
    let mut w: u32 = 0;
    let mut h: u32 = 0;
    let mut i: usize = 0;
    while i < panes.len()
        invariant
            edges_fit(panes@),
            i <= panes.len(),
            w == extent(panes@.take(i as int)).0,
            h == extent(panes@.take(i as int)).1,
        decreases panes.len() - i,
    {
        proof {
            assert(panes@.take(i + 1).drop_last() == panes@.take(i as int));
            assert(panes@.take(i + 1).last() == panes@[i as int]);
        }
        let p = &panes[i];
        let r = p.pane_left + p.pane_width;
        let b = p.pane_top + p.pane_height;
        if r > w {
            w = r;
        }
        if b > h {
            h = b;
        }
        i = i + 1;
    }
    proof {
        assert(panes@.take(i as int) == panes@);
    }
    Some((w, h))
}

/// The position of the last leap pane at a place, or -1 (the last one wins
/// when several share it).
pub open spec fn last_at(leap: Seq<Pane>, top: u32, left: u32) -> int
    decreases leap.len(),
{
    if leap.len() == 0 {
        -1
    } else if leap.last().pane_top == top && leap.last().pane_left == left {
        leap.len() - 1
    } else {
        last_at(leap.drop_last(), top, left)
    }
}

/// For each source pane, in order, that has a leap pane at its place: its
/// position and that leap pane's.
pub open spec fn pairing(source: Seq<Pane>, leap: Seq<Pane>) -> Seq<(int, int)>
    decreases source.len(),
{
    if source.len() == 0 {
        seq![]
    } else {
        let r = pairing(source.drop_last(), leap);
        let s = source.last();
        let j = last_at(leap, s.pane_top, s.pane_left);
        if j >= 0 {
            r.push((source.len() - 1, j))
        } else {
            r
        }
    }
}

fn find_at(leap: &Vec<Pane>, top: u32, left: u32) -> (res: Option<usize>)
    ensures
        match res {
            Some(j) => j == last_at(leap@, top, left) && j < leap@.len(),
            None => last_at(leap@, top, left) == -1,
        },
{
    proof {
        assert(leap@.take(leap@.len() as int) == leap@);
    }
    let mut j: usize = leap.len();
    while j > 0
        invariant
            j <= leap.len(),
            last_at(leap@.take(j as int), top, left) == last_at(leap@, top, left),
        decreases j,
    {
        proof {
            assert(leap@.take(j as int).drop_last() == leap@.take(j - 1));
            assert(leap@.take(j as int).last() == leap@[j - 1]);
        }
        if leap[j - 1].pane_top == top && leap[j - 1].pane_left == left {
            return Some(j - 1);
        }
        j = j - 1;
    }
    None
}

/// Pairs each source pane with the leap pane at the same place.
pub fn pair_by_position(source: &Vec<Pane>, leap: &Vec<Pane>) -> (res: Vec<(Pane, Pane)>)
    ensures
        res@.len() == pairing(source@, leap@).len(),
        forall|k: int|
            0 <= k < res@.len() ==> same_pane((#[trigger] res@[k]).0, source@[pairing(source@, leap@)[k].0])
                && same_pane(res@[k].1, leap@[pairing(source@, leap@)[k].1]),
{
    proof {
        assert(leap@.take(leap@.len() as int) == leap@);
    }
    let mut out: Vec<(Pane, Pane)> = Vec::new();
    let mut i: usize = 0;
    while i < source.len()
        invariant
            i <= source.len(),
            out@.len() == pairing(source@.take(i as int), leap@).len(),
            forall|k: int|
                0 <= k < out@.len() ==> same_pane(
                    (#[trigger] out@[k]).0,
                    source@[pairing(source@.take(i as int), leap@)[k].0],
                ) && same_pane(out@[k].1, leap@[pairing(source@.take(i as int), leap@)[k].1]),
            forall|k: int|
                0 <= k < pairing(source@.take(i as int), leap@).len() ==> 0 <= (#[trigger] pairing(
                    source@.take(i as int),
                    leap@,
                )[k]).0 < i && 0 <= pairing(source@.take(i as int), leap@)[k].1 < leap@.len(),
        decreases source.len() - i,
    {
        proof {
            assert(source@.take(i + 1).drop_last() == source@.take(i as int));
            assert(source@.take(i + 1).last() == source@[i as int]);
        }
        let s = &source[i];
        let ghost before = out@;
        match find_at(leap, s.pane_top, s.pane_left) {
            Some(j) => {
                out.push((s.duplicate(), leap[j].duplicate()));
                proof {
                    let pr = pairing(source@.take(i + 1), leap@);
                    assert(pr == pairing(source@.take(i as int), leap@).push((i as int, j as int)));
                    assert forall|k: int| 0 <= k < pr.len() implies 0 <= (#[trigger] pr[k]).0 < i + 1 && 0
                        <= pr[k].1 < leap@.len() by {
                        if k < pr.len() - 1 {
                            assert(pr[k] == pairing(source@.take(i as int), leap@)[k]);
                        }
                    }
                    assert forall|k: int|
                        0 <= k < out@.len() implies same_pane((#[trigger] out@[k]).0, source@[pr[k].0])
                            && same_pane(out@[k].1, leap@[pr[k].1]) by {
                        if k < before.len() {
                            assert(out@[k] == before[k]);
                        }
                    }
                }
            },
            None => {
                proof {
                    let pr = pairing(source@.take(i + 1), leap@);
                    assert(pr == pairing(source@.take(i as int), leap@));
                }
            },
        }
        i = i + 1;
    }
    proof {
        assert(source@.take(i as int) == source@);
    }
    out
}

/// The leap panes whose size differs from their source pane's, with the
/// source pane's size.
pub open spec fn resize_list(pairs: Seq<(Pane, Pane)>) -> Seq<(Seq<char>, u32, u32)>
    decreases pairs.len(),
{
    if pairs.len() == 0 {
        seq![]
    } else {
        let r = resize_list(pairs.drop_last());
        let (src, leap) = pairs.last();
        if src.pane_width != leap.pane_width || src.pane_height != leap.pane_height {
            r.push((leap.pane_id@, src.pane_width, src.pane_height))
        } else {
            r
        }
    }
}

/// The resizes that make each leap pane the size of its source pane.
pub fn resizes_for(pairs: &Vec<(Pane, Pane)>) -> (res: Vec<(String, u32, u32)>)
    ensures
        res@.map_values(|r: (String, u32, u32)| (r.0@, r.1, r.2)) == resize_list(pairs@),
{
    let mut out: Vec<(String, u32, u32)> = Vec::new();
    let mut i: usize = 0;
    while i < pairs.len()
        invariant
            i <= pairs.len(),
            out@.map_values(|r: (String, u32, u32)| (r.0@, r.1, r.2)) == resize_list(pairs@.take(i as int)),
        decreases pairs.len() - i,
    {
        proof {
            assert(pairs@.take(i + 1).drop_last() == pairs@.take(i as int));
            assert(pairs@.take(i + 1).last() == pairs@[i as int]);
        }
        let src = &pairs[i].0;
        let leap = &pairs[i].1;
        if src.pane_width != leap.pane_width || src.pane_height != leap.pane_height {
            let ghost before = out@;
            let entry = (leap.pane_id.clone(), src.pane_width, src.pane_height);
            out.push(entry);
            proof {
                assert(out@.map_values(|r: (String, u32, u32)| (r.0@, r.1, r.2)) =~= before.map_values(
                    |r: (String, u32, u32)| (r.0@, r.1, r.2),
                ).push((entry.0@, entry.1, entry.2)));
            }
        }
        i = i + 1;
    }
    proof {
        assert(pairs@.take(i as int) == pairs@);
    }
    out
}


/// The pattern of every word: a run of non-space characters.
pub open spec fn words_pattern() -> Seq<char> {
    r"\S+"@
}

/// For each name, in order, the configured pattern; and the names that
/// have none.
pub open spec fn named_patterns(config: Config, names: Seq<Seq<char>>) -> (Seq<Seq<char>>, Seq<Seq<char>>)
    decreases names.len(),
{
    if names.len() == 0 {
        (seq![], seq![])
    } else {
        let (found, unknown) = named_patterns(config, names.drop_last());
        match pattern_of(pattern_views(config.patterns@), trim(names.last())) {
            Some(p) => (found.push(p), unknown),
            None => (found, unknown.push(names.last())),
        }
    }
}

/// The patterns named in a comma-separated list (names trimmed), and the
/// names that are not configured.
pub fn patterns_from_option(option: &str, config: &Config) -> (res: (Vec<String>, Vec<String>))
    ensures
        (string_views(res.0@), string_views(res.1@)) == named_patterns(
            *config,
            split_by(option@, |d: char| d == ','),
        ),
{
    let names = split_char(option, ',');
    let ghost nv = string_views(names@);
    let mut found: Vec<String> = Vec::new();
    let mut unknown: Vec<String> = Vec::new();
    let mut i: usize = 0;
    while i < names.len()
        invariant
            nv == string_views(names@),
            nv == split_by(option@, |d: char| d == ','),
            i <= names.len(),
            (string_views(found@), string_views(unknown@)) == named_patterns(*config, nv.take(i as int)),
        decreases names.len() - i,
    {
        proof {
            assert(nv.take(i + 1).drop_last() == nv.take(i as int));
            assert(nv.take(i + 1).last() == names@[i as int]@);
        }
        let name = trim_str(names[i].as_str());
        let ghost f0 = found@;
        let ghost u0 = unknown@;
        match config.pattern(name.as_str()) {
            Some(p) => {
                let ghost pv = p@;
                found.push(p);
                proof {
                    assert(string_views(found@) =~= string_views(f0).push(pv));
                }
            },
            None => {
                let n = names[i].clone();
                let ghost v = n@;
                unknown.push(n);
                proof {
                    assert(string_views(unknown@) =~= string_views(u0).push(v));
                }
            },
        }
        i = i + 1;
    }
    proof {
        assert(nv.take(i as int) == nv);
    }
    (found, unknown)
}

/// The patterns of a session: every word with `--words`, else the named
/// ones with `--patterns`, else all configured ones; and the names given
/// that are not configured.
pub open spec fn chosen_patterns(words: bool, names: Option<Seq<char>>, config: Config) -> (Seq<Seq<char>>, Seq<
    Seq<char>,
>) {
    if words {
        (seq![words_pattern()], seq![])
    } else {
        match names {
            Some(n) => named_patterns(config, split_by(n, |d: char| d == ',')),
            None => (pattern_views(config.patterns@).map_values(|p: (Seq<char>, Seq<char>)| p.1), seq![]),
        }
    }
}

/// The patterns of a session, and the unknown names given.
pub fn select_patterns(words: bool, names: Option<&str>, config: &Config) -> (res: (Vec<String>, Vec<String>))
    ensures
        (string_views(res.0@), string_views(res.1@)) == chosen_patterns(words, opt_str(names), *config),
{
    if words {
        let v = vec![to_string(r"\S+")];
        let none: Vec<String> = Vec::new();
        proof {
            assert(string_views(v@) =~= seq![words_pattern()]);
            assert(string_views(none@) =~= Seq::<Seq<char>>::empty());
        }
        (v, none)
    } else {
        match names {
            Some(n) => patterns_from_option(n, config),
            None => {
                let v = config.pattern_values();
                let none: Vec<String> = Vec::new();
                proof {
                    assert(string_views(none@) =~= Seq::<Seq<char>>::empty());
                }
                (v, none)
            },
        }
    }
}

/// An optional text slice as an optional text.
pub open spec fn opt_str(o: Option<&str>) -> Option<Seq<char>> {
    match o {
        Some(s) => Some(s@),
        None => None,
    }
}

/// Fills what `load-config` would have set: the alphabet of the keyboard
/// layout when there is none, and the built-in patterns when there are no
/// patterns.
pub fn bootstrap(config: &mut Config)
    requires
        old(config).wf(),
    ensures
        final(config).wf(),
        old(config).alphabet@.len() == 0 ==> string_views(final(config).alphabet@)
            == crate::config::hint_letters(crate::config::layout_letters(old(config).keyboard_layout@)),
        old(config).alphabet@.len() > 0 ==> final(config).alphabet@ == old(config).alphabet@,
        old(config).patterns@.len() == 0 ==> pattern_views(final(config).patterns@)
            == crate::config::builtin_pattern_list(),
        old(config).patterns@.len() > 0 ==> final(config).patterns@ == old(config).patterns@,
        final(config).keyboard_layout == old(config).keyboard_layout,
{
    if config.alphabet.len() == 0 {
        config.alphabet = Config::alphabet_for_layout(config.keyboard_layout.as_str());
    }
    if config.patterns.len() == 0 {
        let b = builtin_patterns();
        proof {
            crate::config::lemma_builtin_names_distinct();
        }
        config.patterns = b;
    }
}


/// The input of one pane pair: the source pane's captured lines, id and
/// width, and the terminal of the leap pane that shows them.
pub fn pane_input(src: &Pane, leap: &Pane, content: &str) -> (res: PaneInput)
    ensures
        string_views(res.lines@) == lines(content@),
        res.pane_id@ == src.pane_id@,
        res.width == src.pane_width as usize,
        res.tty_path@ == leap.pane_tty@,
{
    PaneInput {
        lines: lines_of(content),
        pane_id: src.pane_id.clone(),
        width: src.pane_width as usize,
        tty_path: leap.pane_tty.clone(),
    }
}

/// The styles and hint position of a configuration.
pub fn formatter_for(config: &Config) -> (res: MatchFormatter)
    ensures
        res.hint_style@ == config.hint_style@,
        res.selected_hint_style@ == config.selected_hint_style@,
        res.highlight_style@ == config.highlight_style@,
        res.selected_highlight_style@ == config.selected_highlight_style@,
        res.backdrop_style@ == config.backdrop_style@,
        res.hint_position@ == config.hint_position@,
{
    MatchFormatter::new(
        config.hint_style.clone(),
        config.selected_hint_style.clone(),
        config.highlight_style.clone(),
        config.selected_highlight_style.clone(),
        config.backdrop_style.clone(),
        config.hint_position.clone(),
    )
}

/// The hinter of a session: the panes' inputs, the patterns, the
/// configured alphabet and styles; hints are reused for equal texts except
/// in jump mode, where each match is a place of its own.
pub fn build_hinter(config: &Config, patterns: Vec<String>, inputs: Vec<PaneInput>, mode: &str) -> (res: Hinter)
    ensures
        res.pane_inputs@ == inputs@,
        string_views(res.patterns@) == string_views(patterns@).map_values(
            |p: Seq<char>| crate::hinter::scan::smart_case(p),
        ),
        string_views(res.alphabet@) == string_views(config.alphabet@),
        res.formatter.hint_style@ == config.hint_style@,
        res.formatter.selected_hint_style@ == config.selected_hint_style@,
        res.formatter.highlight_style@ == config.highlight_style@,
        res.formatter.selected_highlight_style@ == config.selected_highlight_style@,
        res.formatter.backdrop_style@ == config.backdrop_style@,
        res.formatter.hint_position@ == config.hint_position@,
        res.reuse_hints == (mode@ != "jump"@),
        res.backdrop_style@ == config.backdrop_style@,
        res.target_by_hint@.len() == 0,
        res.matches is None,
        res.cache is None,
        res.wf(),
{
    let mut alphabet: Vec<String> = Vec::new();
    let mut i: usize = 0;
    while i < config.alphabet.len()
        invariant
            i <= config.alphabet.len(),
            string_views(alphabet@) == string_views(config.alphabet@.take(i as int)),
        decreases config.alphabet.len() - i,
    {
        let ghost before = alphabet@;
        let letter = config.alphabet[i].clone();
        alphabet.push(letter);
        proof {
            assert(string_views(alphabet@) =~= string_views(before).push(letter@));
            assert(string_views(config.alphabet@.take(i + 1)) =~= string_views(config.alphabet@.take(i as int)).push(
                config.alphabet@[i as int]@,
            ));
        }
        i = i + 1;
    }
    proof {
        assert(config.alphabet@.take(i as int) == config.alphabet@);
    }
    let reuse = !str_eq(mode, "jump");
    Hinter::new(
        inputs,
        patterns,
        alphabet,
        formatter_for(config),
        reuse,
        config.backdrop_style.clone(),
        &State::default(),
    )
}

/// The tmux state saved before a session: the last pane, the client's key
/// table and the two prefix keys.
pub struct SavedState {
    pub last_pane_id: String,
    pub last_key_table: String,
    pub prefix: String,
    pub prefix2: String,
}

/// The arguments that print the state to save, separated by `;`.
pub fn saved_state_args() -> (res: Vec<String>)
    ensures
        string_views(res@) == seq![
            "display-message"@,
            "-t"@,
            "{last}"@,
            "-p"@,
            "#{pane_id};#{client_key_table};#{prefix};#{prefix2}"@,
        ],
{
    let v = vec![
        to_string("display-message"),
        to_string("-t"),
        to_string("{last}"),
        to_string("-p"),
        to_string("#{pane_id};#{client_key_table};#{prefix};#{prefix2}"),
    ];
    proof {
        assert(string_views(v@) =~= seq![
            "display-message"@,
            "-t"@,
            "{last}"@,
            "-p"@,
            "#{pane_id};#{client_key_table};#{prefix};#{prefix2}"@,
        ]);
    }
    v
}

/// Up to four fields of a text, cut at its first three semicolons.
pub open spec fn four_fields(s: Seq<char>) -> Seq<Seq<char>> {
    match split_once(s, ';') {
        None => seq![s],
        Some((a, r)) => match split_once(r, ';') {
            None => seq![a, r],
            Some((b, r2)) => match split_once(r2, ';') {
                None => seq![a, b, r2],
                Some((c, d)) => seq![a, b, c, d],
            },
        },
    }
}

/// A field, or nothing when there are fewer.
pub open spec fn field_or_empty(f: Seq<Seq<char>>, i: int) -> Seq<char> {
    if i < f.len() {
        f[i]
    } else {
        seq![]
    }
}

/// The saved state in the printed text: the fields in order, with the key
/// table `root` when it is empty.
pub fn parse_saved_state(out: &str) -> (res: SavedState)
    ensures
        res.last_pane_id@ == field_or_empty(four_fields(out@), 0),
        res.last_key_table@ == if field_or_empty(four_fields(out@), 1).len() == 0 {
            "root"@
        } else {
            field_or_empty(four_fields(out@), 1)
        },
        res.prefix@ == field_or_empty(four_fields(out@), 2),
        res.prefix2@ == field_or_empty(four_fields(out@), 3),
{
    let mut fields: Vec<String> = Vec::new();
    match split_once_char(out, ';') {
        None => {
            fields.push(to_string(out));
        },
        Some((a, r)) => {
            fields.push(a);
            match split_once_char(r.as_str(), ';') {
                None => {
                    fields.push(r);
                },
                Some((b, r2)) => {
                    fields.push(b);
                    match split_once_char(r2.as_str(), ';') {
                        None => {
                            fields.push(r2);
                        },
                        Some((c, d)) => {
                            fields.push(c);
                            fields.push(d);
                        },
                    }
                },
            }
        },
    }
    let ghost fv = string_views(fields@);
    assert(fv =~= four_fields(out@));
    let last_pane_id = if fields.len() > 0 {
        fields[0].clone()
    } else {
        String::new()
    };
    let table = if fields.len() > 1 && fields[1].as_str().unicode_len() > 0 {
        fields[1].clone()
    } else {
        to_string("root")
    };
    let prefix = if fields.len() > 2 {
        fields[2].clone()
    } else {
        String::new()
    };
    let prefix2 = if fields.len() > 3 {
        fields[3].clone()
    } else {
        String::new()
    };
    SavedState { last_pane_id, last_key_table: table, prefix, prefix2 }
}

/// The arguments of the one tmux invocation that hands keys to the leap
/// table: both prefixes off, the window's and the client's key table
/// `leap`.
pub fn enter_leap_mode() -> (res: Vec<String>)
    ensures
        string_views(res@) == batch(
            seq![
                seq!["set-option"@, "-g"@, "prefix"@, "None"@],
                seq!["set-option"@, "-g"@, "prefix2"@, "None"@],
                seq!["set-window-option"@, "key-table"@, "leap"@],
                seq!["switch-client"@, "-T"@, "leap"@],
            ],
        ),
{
    let mut cmds = crate::tmux::pane::disable_prefix();
    let mut table = crate::tmux::pane::set_key_table("leap");
    cmds.append(&mut table);
    proof {
        assert(cmds@.map_values(|c: Vec<String>| string_views(c@)) =~= seq![
            seq!["set-option"@, "-g"@, "prefix"@, "None"@],
            seq!["set-option"@, "-g"@, "prefix2"@, "None"@],
            seq!["set-window-option"@, "key-table"@, "leap"@],
            seq!["switch-client"@, "-T"@, "leap"@],
        ]);
    }
    crate::tmux::exec_batch(&cmds)
}

/// The picked target and the result, once a session ended with a result.
pub fn matched_result(state: &State) -> (res: Option<(Target, String)>)
    ensures
        match res {
            Some((t, r)) => state.result@.len() > 0 && r@ == state.result@ && (state.matched_target matches Some(
                m) && t@ == m@),
            None => state.result@.len() == 0 || state.matched_target is None,
        },
{
    if state.result.as_str().unicode_len() == 0 {
        return None;
    }
    match &state.matched_target {
        Some(t) => Some((t.duplicate(), state.result.clone())),
        None => None,
    }
}


/// The swaps that put the leap panes in place of their source panes.
pub open spec fn swap_pairs(pairs: Seq<(Pane, Pane)>) -> Seq<(Seq<char>, Seq<char>)> {
    pairs.map_values(|p: (Pane, Pane)| (p.1.pane_id@, p.0.pane_id@))
}

/// The swaps, one per pair, leap pane first.
pub fn swap_list(pairs: &Vec<(Pane, Pane)>) -> (res: Vec<(String, String)>)
    ensures
        pattern_views(res@) == swap_pairs(pairs@),
{
    let mut out: Vec<(String, String)> = Vec::new();
    let mut i: usize = 0;
    while i < pairs.len()
        invariant
            i <= pairs.len(),
            pattern_views(out@) == swap_pairs(pairs@.take(i as int)),
        decreases pairs.len() - i,
    {
        let ghost before = out@;
        let e = (pairs[i].1.pane_id.clone(), pairs[i].0.pane_id.clone());
        let ghost ev = (e.0@, e.1@);
        out.push(e);
        proof {
            assert(pattern_views(out@) =~= pattern_views(before).push(ev));
            assert(swap_pairs(pairs@.take(i + 1)) =~= swap_pairs(pairs@.take(i as int)).push(ev));
        }
        i = i + 1;
    }
    proof {
        assert(pairs@.take(i as int) == pairs@);
    }
    out
}

/// The pane in each slot after tmux swaps panes `a` and `b`: the two
/// exchange places.
pub open spec fn swap_in(layout: Seq<Seq<char>>, a: Seq<char>, b: Seq<char>) -> Seq<Seq<char>> {
    layout.map_values(|x: Seq<char>| if x == a { b } else if x == b { a } else { x })
}

/// The pane in each slot after a list of swaps, in order.
pub open spec fn swap_all(layout: Seq<Seq<char>>, swaps: Seq<(Seq<char>, Seq<char>)>) -> Seq<Seq<char>>
    decreases swaps.len(),
{
    if swaps.len() == 0 {
        layout
    } else {
        swap_in(swap_all(layout, swaps.drop_last()), swaps.last().0, swaps.last().1)
    }
}

proof fn lemma_swap_twice(layout: Seq<Seq<char>>, a: Seq<char>, b: Seq<char>)
    ensures
        swap_in(swap_in(layout, a, b), a, b) == layout,
{
    assert(swap_in(swap_in(layout, a, b), a, b) =~= layout);
}

proof fn lemma_swap_all_append(layout: Seq<Seq<char>>, p: Seq<(Seq<char>, Seq<char>)>, q: Seq<(Seq<char>, Seq<char>)>)
    ensures
        swap_all(layout, p + q) == swap_all(swap_all(layout, p), q),
    decreases q.len(),
{
    if q.len() == 0 {
        assert(p + q =~= p);
    } else {
        assert((p + q).drop_last() =~= p + q.drop_last());
        assert((p + q).last() == q.last());
        lemma_swap_all_append(layout, p, q.drop_last());
    }
}

proof fn lemma_swaps_undone(layout: Seq<Seq<char>>, s: Seq<(Seq<char>, Seq<char>)>)
    ensures
        swap_all(swap_all(layout, s), s.reverse()) == layout,
    decreases s.len(),
{
    if s.len() > 0 {
        let x = s.last();
        let d = s.drop_last();
        let inner = swap_all(layout, d);
        assert(s.reverse() =~= seq![x] + d.reverse());
        lemma_swap_all_append(swap_in(inner, x.0, x.1), seq![x], d.reverse());
        assert(swap_all(swap_in(inner, x.0, x.1), seq![x]) == swap_in(swap_in(inner, x.0, x.1), x.0, x.1)) by {
            let m = swap_in(inner, x.0, x.1);
            assert(seq![x].drop_last() =~= Seq::<(Seq<char>, Seq<char>)>::empty());
            assert(swap_all(m, seq![x].drop_last()) == m);
            assert(seq![x].last() == x);
        }
        lemma_swap_twice(inner, x.0, x.1);
        lemma_swaps_undone(layout, d);
    }
}

/// Law: the swaps that end a session, the drawing's swaps in reverse
/// order, give every slot back the pane it showed before the session.
pub proof fn law_teardown_swaps_undo_render(pairs: Seq<(Pane, Pane)>, layout: Seq<Seq<char>>)
    ensures
        swap_all(swap_all(layout, swap_pairs(pairs)), swap_pairs(pairs).reverse()) == layout,
{
    lemma_swaps_undone(layout, swap_pairs(pairs));
}

/// The one invocation that restores the saved key table and prefixes.
pub open spec fn restore_batch(saved: SavedState) -> Seq<Seq<char>> {
    batch(
        seq![
            seq!["set-window-option"@, "key-table"@, saved.last_key_table@],
            seq!["switch-client"@, "-T"@, saved.last_key_table@],
            seq!["set-option"@, "-g"@, "prefix"@, saved.prefix@],
            seq!["set-option"@, "-g"@, "prefix2"@, saved.prefix2@],
        ],
    )
}

/// The focus after a session: in jump mode with a pick, the active pane
/// and then the pane of the match; otherwise the last pane (unless zoomed,
/// where only one pane shows) and then the active one.
pub open spec fn focus_plan(zoomed: bool, mode: Seq<char>, jump_to: Option<Seq<char>>, last_pane: Seq<char>, active: Seq<char>) -> Seq<
    Seq<Seq<char>>,
> {
    if mode == "jump"@ && jump_to is Some {
        seq![select_command(active, zoomed), select_command(jump_to->0, zoomed)]
    } else if !zoomed {
        seq![select_command(last_pane, false), select_command(active, zoomed)]
    } else {
        seq![select_command(active, zoomed)]
    }
}

/// The commands that end a session: swap the pairs back, last pair first;
/// kill the leap window; restore the focus; restore key tables and
/// prefixes.
pub open spec fn teardown_plan(
    pairs: Seq<(Pane, Pane)>,
    zoomed: bool,
    leap_window: Seq<char>,
    mode: Seq<char>,
    jump_to: Option<Seq<char>>,
    saved: SavedState,
    active: Seq<char>,
) -> Seq<Seq<Seq<char>>> {
    let swap_cmds = match swap_batch(swap_pairs(pairs).reverse(), zoomed) {
        Some(a) => seq![a],
        None => seq![],
    };
    swap_cmds + seq![seq!["kill-window"@, "-t"@, leap_window]] + focus_plan(
        zoomed,
        mode,
        jump_to,
        saved.last_pane_id@,
        active,
    ) + seq![restore_batch(saved)]
}

/// The tmux invocations that end a session.
pub fn teardown_commands(
    pairs: &Vec<(Pane, Pane)>,
    zoomed: bool,
    leap_window_id: &str,
    mode: &str,
    jump_to: Option<&str>,
    saved: &SavedState,
    active_pane_id: &str,
) -> (res: Vec<Vec<String>>)
    ensures
        res@.map_values(|c: Vec<String>| string_views(c@)) == teardown_plan(
            pairs@,
            zoomed,
            leap_window_id@,
            mode@,
            opt_str(jump_to),
            *saved,
            active_pane_id@,
        ),
{
    let forward = swap_list(pairs);
    let mut back: Vec<(String, String)> = Vec::new();
    let mut i: usize = forward.len();
    while i > 0
        invariant
            i <= forward.len(),
            pattern_views(back@) == pattern_views(forward@).subrange(i as int, forward@.len() as int).reverse(),
        decreases i,
    {
        let ghost before = back@;
        let e = (forward[i - 1].0.clone(), forward[i - 1].1.clone());
        let ghost ev = (e.0@, e.1@);
        back.push(e);
        proof {
            assert(pattern_views(back@) =~= pattern_views(before).push(ev));
            assert(pattern_views(forward@)[i - 1] == ev);
            assert(pattern_views(forward@).subrange(i - 1, forward@.len() as int).reverse() =~= pattern_views(
                forward@,
            ).subrange(i as int, forward@.len() as int).reverse().push(ev));
        }
        i = i - 1;
    }
    proof {
        assert(pattern_views(forward@).subrange(0, forward@.len() as int) == pattern_views(forward@));
    }
    let mut out: Vec<Vec<String>> = Vec::new();
    match crate::tmux::pane::swap_panes_batch(&back, zoomed) {
        Some(a) => {
            out.push(a);
        },
        None => {},
    }
    let ghost after_swaps = out@;
    out.push(crate::tmux::pane::kill_window(leap_window_id));
    let jump = str_eq(mode, "jump");
    match jump_to {
        Some(src) if jump => {
            out.push(crate::tmux::pane::select_pane(active_pane_id, zoomed));
            out.push(crate::tmux::pane::select_pane(src, zoomed));
        },
        _ => {
            if !zoomed {
                out.push(crate::tmux::pane::select_pane(saved.last_pane_id.as_str(), false));
            }
            out.push(crate::tmux::pane::select_pane(active_pane_id, zoomed));
        },
    }
    let t = saved.last_key_table.as_str();
    let restore = vec![
        vec![to_string("set-window-option"), to_string("key-table"), to_string(t)],
        vec![to_string("switch-client"), to_string("-T"), to_string(t)],
        crate::tmux::pane::set_global_option("prefix", saved.prefix.as_str()),
        crate::tmux::pane::set_global_option("prefix2", saved.prefix2.as_str()),
    ];
    proof {
        assert(string_views(restore@[0]@) =~= seq!["set-window-option"@, "key-table"@, saved.last_key_table@]);
        assert(string_views(restore@[1]@) =~= seq!["switch-client"@, "-T"@, saved.last_key_table@]);
        assert(restore@.map_values(|c: Vec<String>| string_views(c@)) =~= seq![
            seq!["set-window-option"@, "key-table"@, saved.last_key_table@],
            seq!["switch-client"@, "-T"@, saved.last_key_table@],
            seq!["set-option"@, "-g"@, "prefix"@, saved.prefix@],
            seq!["set-option"@, "-g"@, "prefix2"@, saved.prefix2@],
        ]);
    }
    out.push(crate::tmux::exec_batch(&restore));
    proof {
        assert(out@.map_values(|c: Vec<String>| string_views(c@)) =~= teardown_plan(
            pairs@,
            zoomed,
            leap_window_id@,
            mode@,
            opt_str(jump_to),
            *saved,
            active_pane_id@,
        ));
    }
    out
}

} // verus!
