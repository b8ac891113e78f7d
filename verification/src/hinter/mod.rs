//! Finding matches in pane text, giving them hints, and rendering the
//! overlays.
pub mod scan;
pub mod assign;
pub mod render;
pub mod laws;

use vstd::prelude::*;
use crate::hint::huffman::{generate_hints, huffman_hints};
use crate::match_formatter::MatchFormatter;
use crate::state::State;
use crate::text::{str_eq, string_views};
use crate::table::{assoc_find, lemma_assoc_find_last};
use crate::display_width::fits;
use scan::{
    PreMatch, PreView, all_matches, line_matches, nested_views, ordered, pane_lines, pre_ok, pre_views, scan_pane,
    smart_case,
};
use assign::{
    AssignState, CachedMatch, CachedView, assign_all, cache_ok, hint_count,
    assign_hints, cached_ok, cached_ordered, cached_views, matches_ok, needed_hints, nested_cached, pane_ids,
    target_views,
};
use render::{pane_frame, pane_output, rendered_line};
pub use scan::{apply_smart_case, trim_trailing};
pub use assign::char_pos_to_byte;
pub use render::{compute_padding, expand_tabs};

verus! {

/// The lines of one pane and where its overlay is drawn.
pub struct PaneInput {
    pub lines: Vec<String>,
    pub pane_id: String,
    pub width: usize,
    pub tty_path: String,
}

/// What a hint selects: the matched text, where it starts (line index, and
/// the byte offset of the match plus the character offset of a named group),
/// and the pane it came from.
pub struct Target {
    pub text: String,
    pub offset: (usize, usize),
    pub source_pane_id: String,
}

/// A target as values.
pub type TargetView = (Seq<char>, (usize, usize), Seq<char>);

impl View for Target {
    type V = TargetView;

    open spec fn view(&self) -> TargetView {
        (self.text@, self.offset, self.source_pane_id@)
    }
}

impl Target {
    /// A copy of the target.
    pub fn duplicate(&self) -> (res: Target)
        ensures
            res@ == self@,
    {
        Target {
            text: self.text.clone(),
            offset: self.offset,
            source_pane_id: self.source_pane_id.clone(),
        }
    }
}


/// The hint pool for `n` matches: the Huffman hints over the alphabet, or
/// none when the alphabet cannot spell that many (one letter for more than
/// one match) or `n` is beyond what hint generation handles.
pub open spec fn pool_for(alphabet: Seq<Seq<char>>, n: nat) -> Seq<Seq<char>> {
    if n <= usize::MAX / 4 && !(alphabet.len() == 1 && n > 1) {
        huffman_hints(alphabet, n)
    } else {
        seq![]
    }
}

/// The pool that hint assignment starts from: the hints read from the
/// cache when there are any, else the generated ones.
pub open spec fn chosen_pool(cached: Option<Vec<String>>, alphabet: Seq<Seq<char>>, n: nat) -> Seq<Seq<char>> {
    match cached {
        Some(p) => string_views(p@),
        None => pool_for(alphabet, n),
    }
}

/// A copy of a list of strings.
fn copy_strings(v: &Vec<String>) -> (res: Vec<String>)
    ensures
        string_views(res@) == string_views(v@),
{
    let mut out: Vec<String> = Vec::new();
    let mut i: usize = 0;
    while i < v.len()
        invariant
            i <= v.len(),
            string_views(out@) == string_views(v@.take(i as int)),
        decreases v.len() - i,
    {
        let ghost before = out@;
        let c = v[i].clone();
        out.push(c);
        proof {
            assert(string_views(out@) =~= string_views(before).push(c@));
            assert(string_views(v@.take(i + 1)) =~= string_views(v@.take(i as int)).push(v@[i as int]@));
        }
        i = i + 1;
    }
    proof {
        assert(v@.take(i as int) == v@);
    }
    out
}

/// Finds matches in the lines of several panes, gives them hints, and
/// renders the overlays.  Matches and hints are computed once, on first
/// use, and kept for every later render.
pub struct Hinter {
    pub pane_inputs: Vec<PaneInput>,
    /// The patterns, smart-cased.  Those that do not compile find nothing.
    pub patterns: Vec<String>,
    pub alphabet: Vec<String>,
    pub formatter: MatchFormatter,
    pub reuse_hints: bool,
    pub backdrop_style: String,
    /// The target of each hint, in the order hints were first given.
    pub target_by_hint: Vec<(String, Target)>,
    /// The matches of each line of each pane, once scanned.
    pub matches: Option<Vec<Vec<Vec<PreMatch>>>>,
    /// The matches of each line of each pane with their hints, once given.
    pub cache: Option<Vec<Vec<Vec<CachedMatch>>>>,
}

impl Hinter {
    /// The lines of each pane.
    pub open spec fn lines_view(&self) -> Seq<Seq<Seq<char>>> {
        pane_lines(self.pane_inputs@)
    }

    /// The matches of every line of every pane.
    pub open spec fn found(&self) -> Seq<Seq<Seq<PreView>>> {
        all_matches(string_views(self.patterns@), self.lines_view())
    }

    /// How many hints the matches need.
    pub open spec fn needed(&self) -> nat {
        hint_count(self.found(), self.reuse_hints)
    }

    /// Hint assignment over all matches from a pool.
    pub open spec fn assigned(&self, pool: Seq<Seq<char>>) -> (AssignState, Seq<Seq<Seq<CachedView>>>) {
        assign_all(
            (pool, seq![], seq![]),
            self.found(),
            pane_ids(self.pane_inputs@),
            self.lines_view(),
            self.reuse_hints,
        )
    }

    /// Kept matches are those of the panes, and kept hints can be rendered.
    pub open spec fn wf(&self) -> bool {
        &&& self.matches matches Some(m) ==> nested_views(m@) == self.found() && matches_ok(
            self.found(),
            self.lines_view(),
        )
        &&& self.cache matches Some(c) ==> cache_ok(nested_cached(c@), self.lines_view())
    }

    /// The panes, patterns, alphabet, styles and reuse setting are those of
    /// `other`.
    pub open spec fn same_setup(&self, other: &Hinter) -> bool {
        &&& self.pane_inputs@ == other.pane_inputs@
        &&& self.patterns@ == other.patterns@
        &&& self.alphabet@ == other.alphabet@
        &&& self.formatter == other.formatter
        &&& self.reuse_hints == other.reuse_hints
        &&& self.backdrop_style@ == other.backdrop_style@
    }

    /// What is written to the terminal of pane `pi` for the typed input and
    /// the hints picked so far.
    pub open spec fn frame_of(&self, pi: int, input: Seq<char>, selected: Seq<Seq<char>>) -> Seq<char> {
        let lines = self.pane_inputs@[pi].lines@;
        let cache = nested_cached(self.cache->0@)[pi];
        pane_frame(
            Seq::new(
                lines.len(),
                |l: int|
                    rendered_line(
                        self.formatter,
                        self.backdrop_style@,
                        lines[l]@,
                        cache[l],
                        input,
                        selected,
                    ),
            ),
            string_views(lines),
            self.pane_inputs@[pi].width as int,
        )
    }

    /// `self` is `before` after rendering `frames` for the typed input and
    /// the picked hints: hints given on first use (from a generated pool)
    /// and kept afterwards, and one frame per pane.
    pub open spec fn rendered_by(
        &self,
        before: &Hinter,
        frames: Seq<String>,
        input: Seq<char>,
        selected: Seq<Seq<char>>,
    ) -> bool {
        &&& self.wf()
        &&& self.same_setup(before)
        &&& self.cache is Some
        &&& before.cache is Some ==> self.cache == before.cache && self.target_by_hint == before.target_by_hint
        &&& before.cache is None ==> nested_cached(self.cache->0@) == before.assigned(
            pool_for(string_views(before.alphabet@), before.needed()),
        ).1 && target_views(self.target_by_hint@) == before.assigned(
            pool_for(string_views(before.alphabet@), before.needed()),
        ).0.2
        &&& frames.len() == before.pane_inputs@.len()
        &&& forall|pi: int| 0 <= pi < frames.len() ==> (#[trigger] frames[pi])@ == self.frame_of(pi, input, selected)
    }

    /// A hinter over the given panes and patterns; patterns are smart-cased
    /// (one with no ASCII capital matches case-insensitively).
    pub fn new(
        pane_inputs: Vec<PaneInput>,
        patterns: Vec<String>,
        alphabet: Vec<String>,
        formatter: MatchFormatter,
        reuse_hints: bool,
        backdrop_style: String,
        _state: &State,
    ) -> (h: Hinter)
        ensures
            h.pane_inputs@ == pane_inputs@,
            string_views(h.patterns@) == string_views(patterns@).map_values(|p: Seq<char>| smart_case(p)),
            h.alphabet@ == alphabet@,
            h.formatter == formatter,
            h.reuse_hints == reuse_hints,
            h.backdrop_style@ == backdrop_style@,
            h.target_by_hint@.len() == 0,
            h.matches is None,
            h.cache is None,
            h.wf(),
    {
        let mut sources: Vec<String> = Vec::new();
        let mut i: usize = 0;
        while i < patterns.len()
            invariant
                i <= patterns.len(),
                string_views(sources@) == string_views(patterns@.take(i as int)).map_values(
                    |p: Seq<char>| smart_case(p),
                ),
            decreases patterns.len() - i,
        {
            let ghost before = sources@;
            let src = apply_smart_case(patterns[i].as_str());
            sources.push(src);
            proof {
                assert(string_views(sources@) =~= string_views(before).push(src@));
                assert(string_views(patterns@.take(i + 1)) =~= string_views(patterns@.take(i as int)).push(
                    patterns@[i as int]@,
                ));
                assert(string_views(sources@) =~= string_views(patterns@.take(i + 1)).map_values(
                    |p: Seq<char>| smart_case(p),
                ));
            }
            i = i + 1;
        }
        proof {
            assert(patterns@.take(i as int) == patterns@);
        }
        Hinter {
            pane_inputs,
            patterns: sources,
            alphabet,
            formatter,
            reuse_hints,
            backdrop_style,
            target_by_hint: Vec::new(),
            matches: None,
            cache: None,
        }
    }

    /// The matches of every line of every pane.
    fn scan_all(patterns: &Vec<String>, panes: &Vec<PaneInput>) -> (res: Vec<Vec<Vec<PreMatch>>>)
        ensures
            nested_views(res@) == all_matches(string_views(patterns@), pane_lines(panes@)),
            matches_ok(all_matches(string_views(patterns@), pane_lines(panes@)), pane_lines(panes@)),
    {
        let ghost pv = string_views(patterns@);
        let ghost pl = pane_lines(panes@);
        let mut out: Vec<Vec<Vec<PreMatch>>> = Vec::new();
        let mut p: usize = 0;
        while p < panes.len()
            invariant
                pv == string_views(patterns@),
                pl == pane_lines(panes@),
                p <= panes.len(),
                out@.len() == p,
                forall|q: int|
                    0 <= q < p ==> (#[trigger] out@[q])@.map_values(|l: Vec<PreMatch>| pre_views(l@))
                        == pl[q].map_values(|line: Seq<char>| line_matches(pv, line)),
                forall|q: int, i: int, k: int|
                    0 <= q < p && 0 <= i < out@[q]@.len() && 0 <= k < out@[q]@[i]@.len() ==> pre_ok(
                        pl[q][i],
                        #[trigger] out@[q]@[i]@[k]@,
                    ),
                forall|q: int, i: int|
                    0 <= q < p && 0 <= i < out@[q]@.len() ==> ordered(pre_views(#[trigger] out@[q]@[i]@)),
            decreases panes.len() - p,
        {
            let ghost before = out@;
            let per_line = scan_pane(patterns, &panes[p].lines);
            out.push(per_line);
            proof {
                assert(pl[p as int] == string_views(panes@[p as int].lines@));
                assert forall|q: int|
                    0 <= q < p + 1 implies (#[trigger] out@[q])@.map_values(|l: Vec<PreMatch>| pre_views(l@))
                        == pl[q].map_values(|line: Seq<char>| line_matches(pv, line)) by {
                    if q < p {
                        assert(out@[q] == before[q]);
                    }
                }
                assert forall|q: int, i: int, k: int|
                    0 <= q < p + 1 && 0 <= i < out@[q]@.len() && 0 <= k < out@[q]@[i]@.len() implies pre_ok(
                        pl[q][i],
                        #[trigger] out@[q]@[i]@[k]@,
                    ) by {
                    if q < p {
                        assert(out@[q] == before[q]);
                    } else {
                        assert(out@[q] == per_line);
                        assert(per_line@.map_values(|l: Vec<PreMatch>| pre_views(l@)).len() == per_line@.len());
                        assert(string_views(panes@[p as int].lines@).map_values(
                            |line: Seq<char>| line_matches(pv, line),
                        ).len() == panes@[p as int].lines@.len());
                        assert(pl[q][i] == panes@[p as int].lines@[i]@);
                    }
                }
                assert forall|q: int, i: int|
                    0 <= q < p + 1 && 0 <= i < out@[q]@.len() implies ordered(
                        pre_views(#[trigger] out@[q]@[i]@),
                    ) by {
                    if q < p {
                        assert(out@[q] == before[q]);
                    }
                }
            }
            p = p + 1;
        }
        proof {
            let all = all_matches(pv, pl);
            assert forall|q: int| 0 <= q < out@.len() implies (#[trigger] nested_views(out@)[q]) == all[q] by {
                assert(nested_views(out@)[q] == out@[q]@.map_values(|l: Vec<PreMatch>| pre_views(l@)));
            }
            assert(nested_views(out@) =~= all);
            assert forall|q: int| 0 <= q < all.len() implies (#[trigger] all[q]).len() == pl[q].len() by {}
            assert forall|q: int, i: int, k: int|
                0 <= q < all.len() && 0 <= i < all[q].len() && 0 <= k < all[q][i].len() implies pre_ok(
                    pl[q][i],
                    #[trigger] all[q][i][k],
                ) by {
                assert(all[q] == nested_views(out@)[q]);
                assert(nested_views(out@)[q] == out@[q]@.map_values(|l: Vec<PreMatch>| pre_views(l@)));
                assert(all[q][i] == pre_views(out@[q]@[i]@));
                assert(all[q][i][k] == out@[q]@[i]@[k]@);
            }
            assert forall|q: int, i: int| 0 <= q < all.len() && 0 <= i < all[q].len() implies ordered(
                #[trigger] all[q][i],
            ) by {
                assert(all[q] == nested_views(out@)[q]);
                assert(nested_views(out@)[q] == out@[q]@.map_values(|l: Vec<PreMatch>| pre_views(l@)));
                assert(all[q][i] == pre_views(out@[q]@[i]@));
            }
            assert forall|q: int, i: int|
                0 <= q < all.len() && 0 <= i < all[q].len() && (#[trigger] all[q][i]).len() > 0 implies fits(
                    pl[q][i],
                ) by {
                assert(all[q][i] == line_matches(pv, pl[q][i]));
            }
        }
        out
    }

    /// Scans the panes once; later calls keep the matches found.
    fn ensure_scanned(&mut self)
        requires
            old(self).wf(),
        ensures
            final(self).wf(),
            final(self).same_setup(old(self)),
            final(self).matches is Some,
            final(self).cache == old(self).cache,
            final(self).target_by_hint == old(self).target_by_hint,
    {
        if self.matches.is_none() {
            let found = Hinter::scan_all(&self.patterns, &self.pane_inputs);
            self.matches = Some(found);
        }
    }

    /// How many hints the matches need: one per distinct text when hints
    /// are reused, else one per match.  Scans the panes on first use.
    pub fn hint_count(&mut self) -> (n: usize)
        requires
            old(self).wf(),
        ensures
            n == old(self).needed(),
            final(self).wf(),
            final(self).same_setup(old(self)),
            final(self).matches is Some,
            final(self).cache == old(self).cache,
            final(self).target_by_hint == old(self).target_by_hint,
    {
        self.ensure_scanned();
        match &self.matches {
            Some(m) => needed_hints(m, self.reuse_hints),
            None => 0,
        }
    }

    /// Gives hints to all matches, from the cached pool when there is one,
    /// else from a freshly generated one, which is handed back so that it
    /// can be cached.
    pub fn precompute(&mut self, cached: Option<Vec<String>>) -> (generated: Option<Vec<String>>)
        requires
            old(self).wf(),
        ensures
            final(self).wf(),
            final(self).same_setup(old(self)),
            final(self).matches is Some,
            final(self).cache is Some,
            nested_cached(final(self).cache->0@) == old(self).assigned(
                chosen_pool(cached, string_views(old(self).alphabet@), old(self).needed()),
            ).1,
            target_views(final(self).target_by_hint@) == old(self).assigned(
                chosen_pool(cached, string_views(old(self).alphabet@), old(self).needed()),
            ).0.2,
            match generated {
                Some(g) => cached is None && string_views(g@) == pool_for(
                    string_views(old(self).alphabet@),
                    old(self).needed(),
                ),
                None => cached is Some,
            },
    {
        let n = self.hint_count();
        let ghost alph = string_views(self.alphabet@);
        let (pool, generated) = match cached {
            Some(p) => (p, None),
            None => {
                let g = if n <= usize::MAX / 4 && !(self.alphabet.len() == 1 && n > 1) {
                    generate_hints(self.alphabet.as_slice(), n)
                } else {
                    Vec::new()
                };
                let copy = copy_strings(&g);
                (g, Some(copy))
            },
        };
        assert(string_views(pool@) == chosen_pool(cached, alph, n as nat));
        match &self.matches {
            Some(m) => {
                let (cache, targets) = assign_hints(pool, m, &self.pane_inputs, self.reuse_hints);
                self.cache = Some(cache);
                self.target_by_hint = targets;
            },
            None => {},
        }
        generated
    }

    /// The text to write to each pane's terminal: the lines with their hint
    /// overlays for the typed input and the hints picked so far.  Matches
    /// and hints are computed on first use and reused afterwards.
    pub fn run(&mut self, state: &State) -> (frames: Vec<String>)
        requires
            old(self).wf(),
        ensures
            final(self).rendered_by(old(self), frames@, state.input@, string_views(state.selected_hints@)),
    {
        if self.cache.is_none() {
            let _ = self.precompute(None);
        }
        let mut frames: Vec<String> = Vec::new();
        match &self.cache {
            Some(cache) => {
                let ghost nc = nested_cached(cache@);
                let ghost lv = self.lines_view();
                let mut pi: usize = 0;
                while pi < self.pane_inputs.len()
                    invariant
                        self.cache == Some(*cache),
                        nc == nested_cached(cache@),
                        lv == self.lines_view(),
                        cache_ok(nc, lv),
                        pi <= self.pane_inputs.len(),
                        frames@.len() == pi,
                        forall|q: int|
                            0 <= q < pi ==> (#[trigger] frames@[q])@ == self.frame_of(
                                q,
                                state.input@,
                                string_views(state.selected_hints@),
                            ),
                    decreases self.pane_inputs.len() - pi,
                {
                    let input = &self.pane_inputs[pi];
                    proof {
                        assert(lv[pi as int] == string_views(input.lines@));
                        assert(nc[pi as int] == cache@[pi as int]@.map_values(
                            |x: Vec<CachedMatch>| cached_views(x@),
                        ));
                        assert forall|l: int, k: int|
                            0 <= l < cache@[pi as int]@.len() && 0 <= k < cache@[pi as int]@[l]@.len() implies cached_ok(
                                input.lines@[l]@,
                                #[trigger] cache@[pi as int]@[l]@[k]@,
                            ) by {
                            assert(nc[pi as int][l] == cached_views(cache@[pi as int]@[l]@));
                            assert(nc[pi as int][l][k] == cache@[pi as int]@[l]@[k]@);
                            assert(lv[pi as int][l] == input.lines@[l]@);
                        }
                        assert forall|l: int| 0 <= l < cache@[pi as int]@.len() implies cached_ordered(
                            cached_views(#[trigger] cache@[pi as int]@[l]@),
                        ) by {
                            assert(nc[pi as int][l] == cached_views(cache@[pi as int]@[l]@));
                        }
                    }
                    let f = pane_output(
                        &self.formatter,
                        self.backdrop_style.as_str(),
                        &input.lines,
                        input.width,
                        &cache[pi],
                        state.input.as_str(),
                        &state.selected_hints,
                    );
                    proof {
                        let lines = input.lines@;
                        let a = Seq::new(
                            lines.len(),
                            |l: int|
                                rendered_line(
                                    self.formatter,
                                    self.backdrop_style@,
                                    lines[l]@,
                                    cached_views(cache@[pi as int]@[l]@),
                                    state.input@,
                                    string_views(state.selected_hints@),
                                ),
                        );
                        let b = Seq::new(
                            lines.len(),
                            |l: int|
                                rendered_line(
                                    self.formatter,
                                    self.backdrop_style@,
                                    lines[l]@,
                                    nc[pi as int][l],
                                    state.input@,
                                    string_views(state.selected_hints@),
                                ),
                        );
                        assert forall|l: int| 0 <= l < lines.len() implies a[l] == b[l] by {
                            assert(nc[pi as int][l] == cached_views(cache@[pi as int]@[l]@));
                        }
                        assert(a =~= b);
                    }
                    frames.push(f);
                    pi = pi + 1;
                }
            },
            None => {},
        }
        frames
    }

    /// The target that a hint selects, if any.
    pub fn lookup(&self, hint: &str) -> (res: Option<&Target>)
        ensures
            match res {
                Some(t) => assoc_find(target_views(self.target_by_hint@), hint@) >= 0 && t@ == target_views(
                    self.target_by_hint@,
                )[assoc_find(target_views(self.target_by_hint@), hint@)].1,
                None => assoc_find(target_views(self.target_by_hint@), hint@) == -1,
            },
    {
        let mut i: usize = self.target_by_hint.len();
        let ghost tv = target_views(self.target_by_hint@);
        while i > 0
            invariant
                tv == target_views(self.target_by_hint@),
                i <= tv.len(),
                forall|j: int| i <= j < tv.len() ==> (#[trigger] tv[j]).0 != hint@,
            decreases i,
        {
            proof {
                assert(tv[i - 1].0 == self.target_by_hint@[i - 1].0@);
            }
            if str_eq(self.target_by_hint[i - 1].0.as_str(), hint) {
                proof {
                    lemma_assoc_find_last(tv, hint@, i - 1);
                }
                return Some(&self.target_by_hint[i - 1].1);
            }
            i = i - 1;
        }
        proof {
            lemma_assoc_find_last(tv, hint@, -1);
        }
        None
    }
}

} // verus!
