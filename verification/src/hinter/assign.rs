//! Giving hints to matches: how many are needed, and which match gets which.
use vstd::prelude::*;
use vstd::utf8::{encode_utf8, is_char_boundary, valid_utf8};
use vstd::string::StringSliceAdditionalSpecFns;
use crate::display_width::{fits, of_str, str_cols};
use crate::outside::match_range_ok;
use crate::text::{chars_of, str_eq, string_views, substr};
use crate::table::{assoc_find, assoc_put, find_key, lemma_assoc_find_last, put_key};
use super::{PaneInput, Target, TargetView};
use super::scan::{PreMatch, PreView, nested_views, ordered, pre_ok, pre_views};

verus! {

/// The captured texts of all matches, pane by pane and line by line.
pub open spec fn pane_texts(lines: Seq<Seq<PreView>>) -> Seq<Seq<char>>
    decreases lines.len(),
{
    if lines.len() == 0 {
        seq![]
    } else {
        pane_texts(lines.drop_last()) + lines.last().map_values(|m: PreView| m.2)
    }
}

pub open spec fn all_texts(all: Seq<Seq<Seq<PreView>>>) -> Seq<Seq<char>>
    decreases all.len(),
{
    if all.len() == 0 {
        seq![]
    } else {
        all_texts(all.drop_last()) + pane_texts(all.last())
    }
}

/// Each text at its first occurrence, in order.
pub open spec fn first_occurrences(s: Seq<Seq<char>>) -> Seq<Seq<char>>
    decreases s.len(),
{
    if s.len() == 0 {
        seq![]
    } else if first_occurrences(s.drop_last()).contains(s.last()) {
        first_occurrences(s.drop_last())
    } else {
        first_occurrences(s.drop_last()).push(s.last())
    }
}

/// How many hints the matches need: one per distinct text when hints are
/// reused for equal texts, else one per match.
pub open spec fn hint_count(all: Seq<Seq<Seq<PreView>>>, reuse: bool) -> nat {
    if reuse {
        first_occurrences(all_texts(all)).len()
    } else {
        all_texts(all).len()
    }
}

/// A match after hint assignment: byte range, the byte offset and length of
/// the overlay part within the match, and the hint (none when the hint
/// would be wider than the text; the match is then shown as it is).
pub struct CachedMatch {
    pub start: usize,
    pub end: usize,
    pub fmt_offset: Option<(usize, usize)>,
    pub hint: Option<String>,
}

pub type CachedView = (usize, usize, Option<(usize, usize)>, Option<Seq<char>>);

impl View for CachedMatch {
    type V = CachedView;

    open spec fn view(&self) -> CachedView {
        (
            self.start,
            self.end,
            self.fmt_offset,
            match &self.hint {
                Some(h) => Some(h@),
                None => None,
            },
        )
    }
}

/// Assignment state: the hint pool (taken from its end), the hints given to
/// texts, and the target of each hint.
pub type AssignState = (
    Seq<Seq<char>>,
    Seq<(Seq<char>, Seq<char>)>,
    Seq<(Seq<char>, TargetView)>,
);

/// The hint for a text: the one given to an equal text when hints are
/// reused, else the next one from the pool, or `?` when the pool is empty.
/// Also whether it came from the pool, and the pool left.
pub open spec fn choose_hint(st: AssignState, text: Seq<char>, reuse: bool) -> (bool, Seq<char>, Seq<Seq<char>>) {
    let i = assoc_find(st.1, text);
    if reuse && i >= 0 {
        (false, st.1[i].1, st.0)
    } else if st.0.len() > 0 {
        (true, st.0.last(), st.0.drop_last())
    } else {
        (true, seq!['?'], st.0)
    }
}

/// A hint that is too wide for its text is not shown.
pub open spec fn too_wide(hint: Seq<char>, text: Seq<char>) -> bool {
    !fits(hint) || str_cols(hint) > str_cols(text)
}

/// The overlay part of a match, as byte offset and length within the
/// match, from its character offset and length.
pub open spec fn overlay_bytes(full: Seq<char>, off: Option<(usize, usize)>) -> Option<(usize, usize)> {
    match off {
        None => None,
        Some((sc, lc)) => {
            let k = if (sc as int) < full.len() {
                sc as int
            } else {
                full.len() as int
            };
            Some(
                (
                    crate::text::char_pos_to_byte(full, sc as int) as usize,
                    crate::text::char_pos_to_byte(full.skip(k), lc as int) as usize,
                ),
            )
        },
    }
}

/// The target of a match: its text, its line and its column (the start
/// of the match plus the offset of the named group), and its pane.
pub open spec fn match_target(m: PreView, li: usize, pane_id: Seq<char>) -> TargetView {
    let col = m.0 + match m.3 {
        Some(o) => o.0 as int,
        None => 0,
    };
    (m.2, (li, col as usize), pane_id)
}

/// One match through hint assignment.
pub open spec fn assign_step(
    st: AssignState,
    m: PreView,
    li: usize,
    pane_id: Seq<char>,
    line: Seq<char>,
    reuse: bool,
) -> (AssignState, CachedView) {
    let (popped, hint, pool) = choose_hint(st, m.2, reuse);
    if too_wide(hint, m.2) {
        (
            (
                if popped {
                    pool.push(hint)
                } else {
                    pool
                },
                st.1,
                st.2,
            ),
            (m.0, m.1, None, None),
        )
    } else {
        let full = chars_of(encode_utf8(line), m.0 as int, m.1 as int);
        let col = m.0 + match m.3 {
            Some(o) => o.0 as int,
            None => 0,
        };
        let target = (m.2, (li, col as usize), pane_id);
        let by_text = if reuse && popped {
            assoc_put(st.1, m.2, hint)
        } else {
            st.1
        };
        ((pool, by_text, assoc_put(st.2, hint, target)), (m.0, m.1, overlay_bytes(full, m.3), Some(hint)))
    }
}

/// Hint assignment over the matches of one line, in order.
pub open spec fn assign_line(
    st: AssignState,
    ms: Seq<PreView>,
    li: usize,
    pane_id: Seq<char>,
    line: Seq<char>,
    reuse: bool,
) -> (AssignState, Seq<CachedView>)
    decreases ms.len(),
{
    if ms.len() == 0 {
        (st, seq![])
    } else {
        let (s1, done) = assign_line(st, ms.drop_last(), li, pane_id, line, reuse);
        let (s2, c) = assign_step(s1, ms.last(), li, pane_id, line, reuse);
        (s2, done.push(c))
    }
}

/// Hint assignment over the lines of one pane, in order.
pub open spec fn assign_pane(
    st: AssignState,
    ms: Seq<Seq<PreView>>,
    pane_id: Seq<char>,
    lines: Seq<Seq<char>>,
    reuse: bool,
) -> (AssignState, Seq<Seq<CachedView>>)
    decreases ms.len(),
{
    if ms.len() == 0 {
        (st, seq![])
    } else {
        let li = ms.len() - 1;
        let (s1, done) = assign_pane(st, ms.drop_last(), pane_id, lines, reuse);
        let (s2, c) = assign_line(s1, ms.last(), li as usize, pane_id, lines[li], reuse);
        (s2, done.push(c))
    }
}

/// Hint assignment over all panes, in order.
pub open spec fn assign_all(
    st: AssignState,
    all: Seq<Seq<Seq<PreView>>>,
    pane_ids: Seq<Seq<char>>,
    panes: Seq<Seq<Seq<char>>>,
    reuse: bool,
) -> (AssignState, Seq<Seq<Seq<CachedView>>>)
    decreases all.len(),
{
    if all.len() == 0 {
        (st, seq![])
    } else {
        let pi = all.len() - 1;
        let (s1, done) = assign_all(st, all.drop_last(), pane_ids, panes, reuse);
        let (s2, c) = assign_pane(s1, all.last(), pane_ids[pi], panes[pi], reuse);
        (s2, done.push(c))
    }
}

pub open spec fn pair_views(v: Seq<(String, String)>) -> Seq<(Seq<char>, Seq<char>)> {
    v.map_values(|p: (String, String)| (p.0@, p.1@))
}

pub open spec fn target_views(v: Seq<(String, Target)>) -> Seq<(Seq<char>, TargetView)> {
    v.map_values(|p: (String, Target)| (p.0@, p.1@))
}

pub open spec fn cached_views(v: Seq<CachedMatch>) -> Seq<CachedView> {
    v.map_values(|c: CachedMatch| c@)
}

/// A cached match that can be rendered: within its line, with an overlay
/// that marks whole characters and a hint narrow enough to count.
pub open spec fn cached_ok(line: Seq<char>, c: CachedView) -> bool {
    &&& match_range_ok(line, c.0, c.1)
    &&& (c.3 is Some ==> fits(c.3->0) && crate::match_formatter::offset_ok(
        chars_of(encode_utf8(line), c.0 as int, c.1 as int),
        c.2,
    ))
}

/// Cached matches in display order.
pub open spec fn cached_ordered(cs: Seq<CachedView>) -> bool {
    forall|i: int| 0 <= i < cs.len() - 1 ==> (#[trigger] cs[i]).1 <= cs[i + 1].0
}


broadcast use vstd::utf8::encode_utf8_valid_utf8, vstd::utf8::encode_utf8_decode_utf8;

/// The captured texts of all matches, in order.
fn collect_texts(all: &Vec<Vec<Vec<PreMatch>>>) -> (res: Vec<String>)
    ensures
        string_views(res@) == all_texts(nested_views(all@)),
{
    let ghost nv = nested_views(all@);
    let mut out: Vec<String> = Vec::new();
    let mut p: usize = 0;
    while p < all.len()
        invariant
            nv == nested_views(all@),
            p <= all.len(),
            string_views(out@) == all_texts(nv.take(p as int)),
        decreases all.len() - p,
    {
        proof {
            assert(nv.take(p + 1).drop_last() == nv.take(p as int));
            assert(nv.take(p + 1).last() == nv[p as int]);
        }
        let pane = &all[p];
        let ghost pv = nv[p as int];
        let ghost base = string_views(out@);
        let mut l: usize = 0;
        while l < pane.len()
            invariant
                nv == nested_views(all@),
                p < all.len(),
                pane == all@[p as int],
                pv == nv[p as int],
                pv == pane@.map_values(|l: Vec<PreMatch>| pre_views(l@)),
                l <= pane.len(),
                string_views(out@) == base + pane_texts(pv.take(l as int)),
            decreases pane.len() - l,
        {
            proof {
                assert(pv.take(l + 1).drop_last() == pv.take(l as int));
                assert(pv.take(l + 1).last() == pv[l as int]);
            }
            let line = &pane[l];
            let ghost lv = pv[l as int];
            let ghost base2 = string_views(out@);
            let mut k: usize = 0;
            while k < line.len()
                invariant
                    l < pane.len(),
                    line == pane@[l as int],
                    lv == pre_views(line@),
                    k <= line.len(),
                    string_views(out@) == base2 + lv.take(k as int).map_values(|m: PreView| m.2),
                decreases line.len() - k,
            {
                let t = line[k].captured_text.clone();
                let ghost before = out@;
                out.push(t);
                proof {
                    assert(string_views(out@) =~= string_views(before).push(t@));
                    assert(lv[k as int] == line@[k as int]@);
                    assert(lv.take(k + 1).map_values(|m: PreView| m.2) == lv.take(k as int).map_values(
                        |m: PreView| m.2,
                    ).push(lv[k as int].2));
                    assert(string_views(out@) == base2 + lv.take(k + 1).map_values(|m: PreView| m.2));
                }
                k = k + 1;
            }
            proof {
                assert(lv.take(k as int) == lv);
                assert(string_views(out@) == base + pane_texts(pv.take(l + 1)));
            }
            l = l + 1;
        }
        proof {
            assert(pv.take(l as int) == pv);
        }
        p = p + 1;
    }
    proof {
        assert(nv.take(p as int) == nv);
    }
    out
}

/// Whether a list of strings holds one equal to `s`.
fn holds_string(v: &Vec<String>, s: &str) -> (res: bool)
    ensures
        res == string_views(v@).contains(s@),
{
    let mut i: usize = 0;
    while i < v.len()
        invariant
            i <= v.len(),
            forall|j: int| 0 <= j < i ==> v@[j]@ != s@,
        decreases v.len() - i,
    {
        if str_eq(v[i].as_str(), s) {
            proof {
                assert(string_views(v@)[i as int] == s@);
            }
            return true;
        }
        i = i + 1;
    }
    proof {
        if string_views(v@).contains(s@) {
            let j = choose|j: int| 0 <= j < string_views(v@).len() && string_views(v@)[j] == s@;
            assert(v@[j]@ == s@);
        }
    }
    false
}

/// Each text at its first occurrence.
fn distinct_texts(texts: &Vec<String>) -> (res: Vec<String>)
    ensures
        string_views(res@) == first_occurrences(string_views(texts@)),
{
    let ghost tv = string_views(texts@);
    let mut out: Vec<String> = Vec::new();
    let mut i: usize = 0;
    while i < texts.len()
        invariant
            tv == string_views(texts@),
            i <= texts.len(),
            string_views(out@) == first_occurrences(tv.take(i as int)),
        decreases texts.len() - i,
    {
        proof {
            assert(tv.take(i + 1).drop_last() == tv.take(i as int));
            assert(tv.take(i + 1).last() == texts@[i as int]@);
        }
        if !holds_string(&out, texts[i].as_str()) {
            let ghost before = out@;
            out.push(texts[i].clone());
            proof {
                assert(string_views(out@) =~= string_views(before).push(texts@[i as int]@));
                assert(string_views(out@) == first_occurrences(tv.take(i as int)).push(texts@[i as int]@));
            }
        }
        i = i + 1;
    }
    proof {
        assert(tv.take(i as int) == tv);
    }
    out
}

/// How many hints the matches need: one per distinct captured text when
/// hints are reused for equal texts, else one per match.
pub fn needed_hints(all: &Vec<Vec<Vec<PreMatch>>>, reuse: bool) -> (n: usize)
    ensures
        n == hint_count(nested_views(all@), reuse),
{
    let texts = collect_texts(all);
    if reuse {
        distinct_texts(&texts).len()
    } else {
        texts.len()
    }
}


/// The assignment state that three lists hold.
pub open spec fn state_view(
    pool: Seq<String>,
    by_text: Seq<(String, String)>,
    targets: Seq<(String, Target)>,
) -> AssignState {
    (string_views(pool), pair_views(by_text), target_views(targets))
}

/// The byte offset of the character at position `char_pos`, or the byte
/// length of `s` when it has fewer characters.
pub fn char_pos_to_byte(s: &str, char_pos: usize) -> (res: usize)
    requires
        fits(s@),
    ensures
        res == crate::text::char_pos_to_byte(s@, char_pos as int),
{
    let n = s.unicode_len();
    let k = if char_pos < n {
        char_pos
    } else {
        n
    };
    let head = s.substring_char(0, k);
    proof {
        assert(head@ =~= s@.take(k as int));
        crate::text::lemma_encode_len(head@);
    }
    head.len()
}

/// Byte offsets of a named group mark whole characters of the match.
proof fn lemma_overlay_ok(full: Seq<char>, off: Option<(usize, usize)>)
    requires
        fits(full),
    ensures
        crate::match_formatter::offset_ok(full, overlay_bytes(full, off)),
{
    if let Some((sc, lc)) = off {
        let k = if (sc as int) < full.len() {
            sc as int
        } else {
            full.len() as int
        };
        let a = full.take(k);
        let rest = full.skip(k);
        let k2 = if (lc as int) < rest.len() {
            lc as int
        } else {
            rest.len() as int
        };
        let b2 = rest.take(k2);
        let tail = rest.skip(k2);
        assert(a + rest == full);
        assert(b2 + tail == rest);
        assert((a + b2) + tail == full);
        crate::text::lemma_encode_concat(a, rest);
        crate::text::lemma_encode_concat(b2, tail);
        crate::text::lemma_encode_concat(a, b2);
        crate::text::lemma_encode_boundary(a, rest);
        crate::text::lemma_encode_boundary(a + b2, tail);
        crate::text::lemma_encode_len(full);
    }
}

/// The overlay part of a match in bytes, from its character offset.
fn overlay_offset(full: &str, off: Option<(usize, usize)>) -> (res: Option<(usize, usize)>)
    requires
        fits(full@),
    ensures
        res == overlay_bytes(full@, off),
{
    match off {
        None => None,
        Some((sc, lc)) => {
            let byte_start = char_pos_to_byte(full, sc);
            let n = full.unicode_len();
            let k = if sc < n {
                sc
            } else {
                n
            };
            let rest = full.substring_char(k, n);
            proof {
                assert(rest@ == full@.skip(k as int));
            }
            let byte_len = char_pos_to_byte(rest, lc);
            Some((byte_start, byte_len))
        },
    }
}

/// One match through hint assignment.
fn assign_one(
    pool: &mut Vec<String>,
    by_text: &mut Vec<(String, String)>,
    targets: &mut Vec<(String, Target)>,
    m: &PreMatch,
    li: usize,
    pane_id: &String,
    line: &String,
    reuse: bool,
) -> (c: CachedMatch)
    requires
        pre_ok(line@, m@),
        fits(line@),
    ensures
        (state_view(final(pool)@, final(by_text)@, final(targets)@), c@) == assign_step(
            state_view(old(pool)@, old(by_text)@, old(targets)@),
            m@,
            li,
            pane_id@,
            line@,
            reuse,
        ),
        cached_ok(line@, c@),
{
    let ghost st = state_view(pool@, by_text@, targets@);
    let text = m.captured_text.as_str();
    let found = if reuse {
        find_key(by_text, text)
    } else {
        None
    };
    proof {
        if reuse {
            let i: int = match found {
                Some(i) => i as int,
                None => -1,
            };
            assert forall|j: int| i < j < pair_views(by_text@).len() implies (#[trigger] pair_views(
                by_text@,
            )[j]).0 != m@.2 by {
                assert(pair_views(by_text@)[j].0 == by_text@[j].0@);
            }
            lemma_assoc_find_last(pair_views(by_text@), m@.2, i);
        }
    }
    let popped: bool;
    let hint: String;
    let ghost pool0 = pool@;
    match found {
        Some(i) => {
            popped = false;
            hint = by_text[i].1.clone();
        },
        None => {
            popped = true;
            match pool.pop() {
                Some(h) => {
                    hint = h;
                    proof {
                        assert(string_views(pool@) =~= string_views(pool0).drop_last());
                    }
                },
                None => {
                    let mut q = String::new();
                    crate::outside::push_char(&mut q, '?');
                    hint = q;
                },
            }
        },
    }
    assert(choose_hint(st, m@.2, reuse) == (popped, hint@, string_views(pool@)));
    let wide = if hint.unicode_len() > usize::MAX / 8 {
        true
    } else {
        of_str(hint.as_str()) > of_str(text)
    };
    if wide {
        if popped {
            let ghost pool1 = pool@;
            pool.push(hint);
            proof {
                assert(string_views(pool@) =~= string_views(pool1).push(hint@));
            }
        }
        return CachedMatch { start: m.start, end: m.end, fmt_offset: None, hint: None };
    }
    let full = substr(line.as_str(), m.start, m.end);
    proof {
        crate::text::lemma_decode_parts(encode_utf8(line@), m.start as int, m.end as int);
        lemma_overlay_ok(full@, m.captured_offset);
        crate::text::lemma_encode_len(line@);
    }
    let fmt_offset = overlay_offset(full, m.captured_offset);
    let shift = match m.captured_offset {
        Some((s, _)) => s,
        None => 0,
    };
    let col = m.start + shift;
    let target = Target {
        text: m.captured_text.clone(),
        offset: (li, col),
        source_pane_id: pane_id.clone(),
    };
    let ghost t0 = targets@;
    let ghost tv = target@;
    let ti = put_key(targets, hint.clone(), target);
    proof {
        let i: int = match ti {
            Some(i) => i as int,
            None => -1,
        };
        assert forall|j: int| i < j < target_views(t0).len() implies (#[trigger] target_views(t0)[j]).0
            != hint@ by {
            assert(target_views(t0)[j].0 == t0[j].0@);
        }
        lemma_assoc_find_last(target_views(t0), hint@, i);
        assert(target_views(targets@) =~= assoc_put(target_views(t0), hint@, tv));
    }
    if reuse && popped {
        let ghost b0 = by_text@;
        let bi = put_key(by_text, m.captured_text.clone(), hint.clone());
        proof {
            let i: int = match bi {
                Some(i) => i as int,
                None => -1,
            };
            assert forall|j: int| i < j < pair_views(b0).len() implies (#[trigger] pair_views(b0)[j]).0
                != m@.2 by {
                assert(pair_views(b0)[j].0 == b0[j].0@);
            }
            lemma_assoc_find_last(pair_views(b0), m@.2, i);
            assert(pair_views(by_text@) =~= assoc_put(pair_views(b0), m@.2, hint@));
        }
    }
    CachedMatch { start: m.start, end: m.end, fmt_offset, hint: Some(hint) }
}


/// The id of each pane.
pub open spec fn pane_ids(panes: Seq<PaneInput>) -> Seq<Seq<char>> {
    panes.map_values(|p: PaneInput| p.pane_id@)
}

/// Views of nested cached match lists.
pub open spec fn nested_cached(v: Seq<Vec<Vec<CachedMatch>>>) -> Seq<Seq<Seq<CachedView>>> {
    v.map_values(|p: Vec<Vec<CachedMatch>>| p@.map_values(|l: Vec<CachedMatch>| cached_views(l@)))
}

/// Matches shaped like the panes' lines: each is cut from its line, they
/// come in display order, and only lines short enough to measure have any.
pub open spec fn matches_ok(all: Seq<Seq<Seq<PreView>>>, panes: Seq<Seq<Seq<char>>>) -> bool {
    &&& all.len() == panes.len()
    &&& forall|p: int| 0 <= p < all.len() ==> (#[trigger] all[p]).len() == panes[p].len()
    &&& forall|p: int, l: int, k: int|
        0 <= p < all.len() && 0 <= l < all[p].len() && 0 <= k < all[p][l].len() ==> pre_ok(
            panes[p][l],
            #[trigger] all[p][l][k],
        )
    &&& forall|p: int, l: int| 0 <= p < all.len() && 0 <= l < all[p].len() ==> ordered(#[trigger] all[p][l])
    &&& forall|p: int, l: int|
        0 <= p < all.len() && 0 <= l < all[p].len() && (#[trigger] all[p][l]).len() > 0 ==> fits(
            panes[p][l],
        )
}

/// Cached matches shaped like the panes' lines, each renderable, in display
/// order.
pub open spec fn cache_ok(cache: Seq<Seq<Seq<CachedView>>>, panes: Seq<Seq<Seq<char>>>) -> bool {
    &&& cache.len() == panes.len()
    &&& forall|p: int| 0 <= p < cache.len() ==> (#[trigger] cache[p]).len() == panes[p].len()
    &&& forall|p: int, l: int, k: int|
        0 <= p < cache.len() && 0 <= l < cache[p].len() && 0 <= k < cache[p][l].len() ==> cached_ok(
            panes[p][l],
            #[trigger] cache[p][l][k],
        )
    &&& forall|p: int, l: int|
        0 <= p < cache.len() && 0 <= l < cache[p].len() ==> cached_ordered(#[trigger] cache[p][l])
}

/// Hint assignment over the matches of one line.
fn assign_line_matches(
    pool: &mut Vec<String>,
    by_text: &mut Vec<(String, String)>,
    targets: &mut Vec<(String, Target)>,
    ms: &Vec<PreMatch>,
    li: usize,
    pane_id: &String,
    line: &String,
    reuse: bool,
) -> (res: Vec<CachedMatch>)
    requires
        forall|k: int| 0 <= k < ms@.len() ==> pre_ok(line@, #[trigger] ms@[k]@),
        ordered(pre_views(ms@)),
        ms@.len() > 0 ==> fits(line@),
    ensures
        (state_view(final(pool)@, final(by_text)@, final(targets)@), cached_views(res@)) == assign_line(
            state_view(old(pool)@, old(by_text)@, old(targets)@),
            pre_views(ms@),
            li,
            pane_id@,
            line@,
            reuse,
        ),
        forall|k: int| 0 <= k < res@.len() ==> cached_ok(line@, #[trigger] res@[k]@),
        cached_ordered(cached_views(res@)),
{
    let ghost st0 = state_view(pool@, by_text@, targets@);
    let ghost mv = pre_views(ms@);
    let mut out: Vec<CachedMatch> = Vec::new();
    let mut k: usize = 0;
    while k < ms.len()
        invariant
            mv == pre_views(ms@),
            forall|j: int| 0 <= j < ms@.len() ==> pre_ok(line@, #[trigger] ms@[j]@),
            ordered(mv),
            ms@.len() > 0 ==> fits(line@),
            k <= ms.len(),
            (state_view(pool@, by_text@, targets@), cached_views(out@)) == assign_line(
                st0,
                mv.take(k as int),
                li,
                pane_id@,
                line@,
                reuse,
            ),
            out@.len() == k,
            forall|j: int| 0 <= j < k ==> cached_ok(line@, #[trigger] out@[j]@),
            forall|j: int| 0 <= j < k ==> (#[trigger] out@[j]@).0 == mv[j].0 && out@[j]@.1 == mv[j].1,
        decreases ms.len() - k,
    {
        proof {
            assert(mv.take(k + 1).drop_last() == mv.take(k as int));
            assert(mv.take(k + 1).last() == ms@[k as int]@);
        }
        let ghost before = out@;
        let c = assign_one(pool, by_text, targets, &ms[k], li, pane_id, line, reuse);
        out.push(c);
        proof {
            assert(cached_views(out@) =~= cached_views(before).push(c@));
            assert forall|j: int| 0 <= j < k + 1 implies cached_ok(line@, #[trigger] out@[j]@) by {
                if j < k {
                    assert(out@[j] == before[j]);
                }
            }
            assert forall|j: int| 0 <= j < k + 1 implies (#[trigger] out@[j]@).0 == mv[j].0 && out@[j]@.1
                == mv[j].1 by {
                if j < k {
                    assert(out@[j] == before[j]);
                }
            }
        }
        k = k + 1;
    }
    proof {
        assert(mv.take(k as int) == mv);
        assert forall|i: int| 0 <= i < cached_views(out@).len() - 1 implies (#[trigger] cached_views(
            out@,
        )[i]).1 <= cached_views(out@)[i + 1].0 by {
            assert(cached_views(out@)[i] == out@[i]@);
            assert(cached_views(out@)[i + 1] == out@[i + 1]@);
        }
    }
    out
}


/// Hint assignment over every line of every pane, in order, starting from
/// the given pool: the cached matches of each line and the target of
/// each hint.
#[verifier::rlimit(40)]
pub fn assign_hints(pool: Vec<String>, all: &Vec<Vec<Vec<PreMatch>>>, panes: &Vec<PaneInput>, reuse: bool) -> (res: (
    Vec<Vec<Vec<CachedMatch>>>,
    Vec<(String, Target)>,
))
    requires
        matches_ok(nested_views(all@), crate::hinter::scan::pane_lines(panes@)),
    ensures
        nested_cached(res.0@) == assign_all(
            (string_views(pool@), seq![], seq![]),
            nested_views(all@),
            pane_ids(panes@),
            crate::hinter::scan::pane_lines(panes@),
            reuse,
        ).1,
        target_views(res.1@) == assign_all(
            (string_views(pool@), seq![], seq![]),
            nested_views(all@),
            pane_ids(panes@),
            crate::hinter::scan::pane_lines(panes@),
            reuse,
        ).0.2,
        cache_ok(nested_cached(res.0@), crate::hinter::scan::pane_lines(panes@)),
{
    let ghost nv = nested_views(all@);
    let ghost ids = pane_ids(panes@);
    let ghost pl = crate::hinter::scan::pane_lines(panes@);
    let ghost st0: AssignState = (string_views(pool@), seq![], seq![]);
    let mut pool = pool;
    let mut by_text: Vec<(String, String)> = Vec::new();
    let mut targets: Vec<(String, Target)> = Vec::new();
    let mut cache: Vec<Vec<Vec<CachedMatch>>> = Vec::new();
    proof {
        assert(state_view(pool@, by_text@, targets@) =~= st0);
    }
    let mut p: usize = 0;
    while p < all.len()
        invariant
            nv == nested_views(all@),
            ids == pane_ids(panes@),
            pl == crate::hinter::scan::pane_lines(panes@),
            matches_ok(nv, pl),
            p <= all.len(),
            (state_view(pool@, by_text@, targets@), nested_cached(cache@)) == assign_all(
                st0,
                nv.take(p as int),
                ids,
                pl,
                reuse,
            ),
            cache@.len() == p,
            forall|q: int| 0 <= q < p ==> (#[trigger] cache@[q])@.len() == pl[q].len(),
            forall|q: int, l: int, k: int|
                0 <= q < p && 0 <= l < cache@[q]@.len() && 0 <= k < cache@[q]@[l]@.len() ==> cached_ok(
                    pl[q][l],
                    #[trigger] cache@[q]@[l]@[k]@,
                ),
            forall|q: int, l: int|
                0 <= q < p && 0 <= l < cache@[q]@.len() ==> cached_ordered(
                    cached_views(#[trigger] cache@[q]@[l]@),
                ),
        decreases all.len() - p,
    {
        proof {
            assert(nv.take(p + 1).drop_last() == nv.take(p as int));
            assert(nv.take(p + 1).last() == nv[p as int]);
        }
        let pane = &all[p];
        let input = &panes[p];
        let ghost sp = state_view(pool@, by_text@, targets@);
        let ghost pv = nv[p as int];
        let mut pane_cache: Vec<Vec<CachedMatch>> = Vec::new();
        let mut l: usize = 0;
        while l < pane.len()
            invariant
                nv == nested_views(all@),
                ids == pane_ids(panes@),
                pl == crate::hinter::scan::pane_lines(panes@),
                matches_ok(nv, pl),
                p < all.len(),
                pane == all@[p as int],
                input == panes@[p as int],
                pv == nv[p as int],
                pv == pane@.map_values(|l: Vec<PreMatch>| pre_views(l@)),
                pv.len() == pl[p as int].len(),
                pl[p as int] == string_views(input.lines@),
                ids[p as int] == input.pane_id@,
                l <= pane.len(),
                (state_view(pool@, by_text@, targets@), pane_cache@.map_values(
                    |x: Vec<CachedMatch>| cached_views(x@),
                )) == assign_pane(sp, pv.take(l as int), ids[p as int], pl[p as int], reuse),
                pane_cache@.len() == l,
                forall|j: int, k: int|
                    0 <= j < l && 0 <= k < pane_cache@[j]@.len() ==> cached_ok(
                        pl[p as int][j],
                        #[trigger] pane_cache@[j]@[k]@,
                    ),
                forall|j: int| 0 <= j < l ==> cached_ordered(cached_views(#[trigger] pane_cache@[j]@)),
            decreases pane.len() - l,
        {
            proof {
                assert(pv.take(l + 1).drop_last() == pv.take(l as int));
                assert(pv.take(l + 1).last() == pv[l as int]);
                assert(pv[l as int] == pre_views(pane@[l as int]@));
                assert(pl[p as int][l as int] == input.lines@[l as int]@);
                assert forall|k: int| 0 <= k < pane@[l as int]@.len() implies pre_ok(
                    input.lines@[l as int]@,
                    #[trigger] pane@[l as int]@[k]@,
                ) by {
                    assert(nv[p as int][l as int][k] == pane@[l as int]@[k]@);
                }
                assert(ordered(nv[p as int][l as int]));
            }
            let ghost before = pane_cache@;
            let lc = assign_line_matches(
                &mut pool,
                &mut by_text,
                &mut targets,
                &pane[l],
                l,
                &input.pane_id,
                &input.lines[l],
                reuse,
            );
            pane_cache.push(lc);
            proof {
                assert(pane_cache@.map_values(|x: Vec<CachedMatch>| cached_views(x@)) =~= before.map_values(
                    |x: Vec<CachedMatch>| cached_views(x@),
                ).push(cached_views(lc@)));
                assert forall|j: int, k: int|
                    0 <= j < l + 1 && 0 <= k < pane_cache@[j]@.len() implies cached_ok(
                        pl[p as int][j],
                        #[trigger] pane_cache@[j]@[k]@,
                    ) by {
                    if j < l {
                        assert(pane_cache@[j] == before[j]);
                    }
                }
                assert forall|j: int| 0 <= j < l + 1 implies cached_ordered(
                    cached_views(#[trigger] pane_cache@[j]@),
                ) by {
                    if j < l {
                        assert(pane_cache@[j] == before[j]);
                    }
                }
            }
            l = l + 1;
        }
        proof {
            assert(pv.take(l as int) == pv);
        }
        let ghost cbefore = cache@;
        cache.push(pane_cache);
        proof {
            assert(nested_cached(cache@) =~= nested_cached(cbefore).push(
                pane_cache@.map_values(|x: Vec<CachedMatch>| cached_views(x@)),
            ));
            assert forall|q: int| 0 <= q < p + 1 implies (#[trigger] cache@[q])@.len() == pl[q].len() by {
                if q < p {
                    assert(cache@[q] == cbefore[q]);
                }
            }
            assert forall|q: int, l2: int, k: int|
                0 <= q < p + 1 && 0 <= l2 < cache@[q]@.len() && 0 <= k < cache@[q]@[l2]@.len() implies cached_ok(
                    pl[q][l2],
                    #[trigger] cache@[q]@[l2]@[k]@,
                ) by {
                if q < p {
                    assert(cache@[q] == cbefore[q]);
                }
            }
            assert forall|q: int, l2: int|
                0 <= q < p + 1 && 0 <= l2 < cache@[q]@.len() implies cached_ordered(
                    cached_views(#[trigger] cache@[q]@[l2]@),
                ) by {
                if q < p {
                    assert(cache@[q] == cbefore[q]);
                }
            }
        }
        p = p + 1;
    }
    proof {
        assert(nv.take(p as int) == nv);
        let nc = nested_cached(cache@);
        assert forall|q: int| 0 <= q < nc.len() implies (#[trigger] nc[q]).len() == pl[q].len() by {
            assert(nc[q] == cache@[q]@.map_values(|x: Vec<CachedMatch>| cached_views(x@)));
        }
        assert forall|q: int, l2: int, k: int|
            0 <= q < nc.len() && 0 <= l2 < nc[q].len() && 0 <= k < nc[q][l2].len() implies cached_ok(
                pl[q][l2],
                #[trigger] nc[q][l2][k],
            ) by {
            assert(nc[q] == cache@[q]@.map_values(|x: Vec<CachedMatch>| cached_views(x@)));
            assert(nc[q][l2] == cached_views(cache@[q]@[l2]@));
            assert(nc[q][l2][k] == cache@[q]@[l2]@[k]@);
        }
        assert forall|q: int, l2: int| 0 <= q < nc.len() && 0 <= l2 < nc[q].len() implies cached_ordered(
            #[trigger] nc[q][l2],
        ) by {
            assert(nc[q] == cache@[q]@.map_values(|x: Vec<CachedMatch>| cached_views(x@)));
            assert(nc[q][l2] == cached_views(cache@[q]@[l2]@));
        }
    }
    (cache, targets)
}

} // verus!
