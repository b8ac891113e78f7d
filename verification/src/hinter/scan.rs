//! Finding the matches of the patterns in pane text.
use vstd::prelude::*;
use vstd::utf8::{encode_utf8, is_char_boundary, valid_utf8};
use vstd::string::StringSliceAdditionalSpecFns;
use crate::display_width::fits;
use crate::outside::{Capture, match_range_ok, regex_captures, regex_scan, regex_valid};
use crate::sort::{sort_by_key, insert_pos, lemma_insert_is_insert_at, lemma_sort_len_and_elems};
use crate::text::{chars_of, split_str, str_chars, to_string, string_views};
use super::PaneInput;

verus! {

broadcast use vstd::utf8::encode_utf8_valid_utf8, vstd::utf8::encode_utf8_decode_utf8;

/// A match before hints are given: byte range in its line, the text that a
/// hint selects, and the character offset and length of a named group.
pub struct PreMatch {
    pub start: usize,
    pub end: usize,
    pub captured_text: String,
    pub captured_offset: Option<(usize, usize)>,
}

/// A match as [`PreMatch`] holds it.
pub type PreView = (usize, usize, Seq<char>, Option<(usize, usize)>);

impl View for PreMatch {
    type V = PreView;

    open spec fn view(&self) -> PreView {
        (self.start, self.end, self.captured_text@, self.captured_offset)
    }
}

/// A trailing byte that is always trimmed: sentence punctuation.
pub open spec fn is_trailing_punct(b: u8) -> bool {
    b == 0x2E || b == 0x2C || b == 0x3B || b == 0x3A || b == 0x3F || b == 0x21
}

/// The opening bracket of a closing one.
pub open spec fn opener_of(b: u8) -> Option<u8> {
    if b == 0x29 {
        Some(0x28u8)
    } else if b == 0x5D {
        Some(0x5Bu8)
    } else if b == 0x7D {
        Some(0x7Bu8)
    } else if b == 0x3E {
        Some(0x3Cu8)
    } else {
        None
    }
}

/// How often a byte occurs.
pub open spec fn count_byte(s: Seq<u8>, x: u8) -> nat
    decreases s.len(),
{
    if s.len() == 0 {
        0
    } else {
        count_byte(s.drop_last(), x) + if s.last() == x {
            1nat
        } else {
            0nat
        }
    }
}

/// The length that remains after trailing sentence punctuation and closing
/// brackets without a matching opener are stripped, one byte at a time.
pub open spec fn trimmed_len(b: Seq<u8>) -> nat
    decreases b.len(),
{
    if b.len() == 0 {
        0
    } else if is_trailing_punct(b.last()) {
        trimmed_len(b.drop_last())
    } else if opener_of(b.last()) is Some && count_byte(b.drop_last(), b.last()) >= count_byte(
        b.drop_last(),
        opener_of(b.last())->0,
    ) {
        trimmed_len(b.drop_last())
    } else {
        b.len()
    }
}

proof fn lemma_trimmed_len(b: Seq<u8>)
    ensures
        trimmed_len(b) <= b.len(),
        trimmed_len(b) < b.len() ==> b[trimmed_len(b) as int] < 0x80,
    decreases b.len(),
{
    if b.len() > 0 {
        lemma_trimmed_len(b.drop_last());
        if trimmed_len(b) < b.len() && trimmed_len(b) < b.len() - 1 {
            assert(b[trimmed_len(b) as int] == b.drop_last()[trimmed_len(b) as int]);
        }
    }
}

fn count_in(bytes: &[u8], n: usize, x: u8) -> (c: usize)
    requires
        n <= bytes@.len(),
    ensures
        c == count_byte(bytes@.take(n as int), x),
{
    let mut c: usize = 0;
    let mut i: usize = 0;
    while i < n
        invariant
            i <= n <= bytes@.len(),
            c == count_byte(bytes@.take(i as int), x),
            c <= i,
        decreases n - i,
    {
        proof {
            assert(bytes@.take(i + 1).drop_last() == bytes@.take(i as int));
        }
        if bytes[i] == x {
            c = c + 1;
        }
        i = i + 1;
    }
    c
}

/// Strip trailing sentence punctuation and unbalanced closing brackets from
/// a match. Operates byte-wise on ASCII; non-ASCII bytes never match a trim
/// target, so multi-byte sequences are preserved.
pub fn trim_trailing(text: &str) -> (res: &str)
    ensures
        res.spec_bytes() == text.spec_bytes().take(trimmed_len(text.spec_bytes()) as int),
        res@ == chars_of(text.spec_bytes(), 0, trimmed_len(text.spec_bytes()) as int),
{
    let bytes = text.as_bytes();
    let ghost b = text.spec_bytes();
    let mut n: usize = bytes.len();
    assert(bytes@ == b);
    assert(b.take(b.len() as int) == b);
    while n > 0
        invariant
            bytes@ == b,
            n <= b.len(),
            trimmed_len(b.take(n as int)) == trimmed_len(b),
        ensures
            trimmed_len(b.take(n as int)) == n,
        decreases n,
    {
        let last = bytes[n - 1];
        proof {
            assert(b.take(n as int).drop_last() == b.take(n - 1));
            assert(b.take(n as int).last() == last);
        }
        if last == 0x2E || last == 0x2C || last == 0x3B || last == 0x3A || last == 0x3F || last == 0x21 {
            n = n - 1;
            continue;
        }
        let opener: u8 = if last == 0x29 {
            0x28
        } else if last == 0x5D {
            0x5B
        } else if last == 0x7D {
            0x7B
        } else if last == 0x3E {
            0x3C
        } else {
            proof {
                assert(opener_of(last) is None);
            }
            break;
        };
        let opens = count_in(bytes, n - 1, opener);
        let closes = count_in(bytes, n - 1, last);
        if closes >= opens {
            n = n - 1;
        } else {
            break;
        }
    }
    proof {
        lemma_trimmed_len(b);
        crate::text::lemma_str_bytes(text);
        if n < b.len() {
            vstd::utf8::is_char_boundary_iff_not_is_continuation_byte(b, n as int);
        } else {
            vstd::utf8::is_char_boundary_start_end_of_seq(b);
        }
    }
    let (head, _) = split_str(text, n);
    head
}


/// The match that a capture yields: for a group named `match` that starts
/// within the whole match, the group's text with its character offset and
/// length; otherwise the whole match with trailing punctuation trimmed.
/// Empty results yield nothing.
pub open spec fn capture_view(line: Seq<char>, cap: Capture) -> Option<PreView> {
    let b = encode_utf8(line);
    let ms = cap.0;
    let me = cap.1;
    let g = cap.2.unwrap();
    if cap.2 is Some && ms <= g.0 && g.0 <= me {
        let gs = g.0;
        let ge = g.1;
        let text = chars_of(b, gs as int, ge as int);
        if me > ms {
            Some(
                (
                    ms,
                    me,
                    text,
                    Some((chars_of(b, ms as int, gs as int).len() as usize, text.len() as usize)),
                ),
            )
        } else {
            None
        }
    } else {
        let tl = trimmed_len(b.subrange(ms as int, me as int));
        if tl > 0 {
            Some((ms, (ms + tl) as usize, chars_of(b, ms as int, ms + tl), None))
        } else {
            None
        }
    }
}

/// The matches of one pattern's captures in a line, in order.
pub open spec fn capture_items(line: Seq<char>, caps: Seq<Capture>) -> Seq<PreView>
    decreases caps.len(),
{
    if caps.len() == 0 {
        seq![]
    } else {
        capture_items(line, caps.drop_last()) + match capture_view(line, caps.last()) {
            Some(m) => seq![m],
            None => seq![],
        }
    }
}

/// The matches of all patterns that compile, pattern by pattern.
pub open spec fn line_raw(patterns: Seq<Seq<char>>, line: Seq<char>) -> Seq<PreView>
    decreases patterns.len(),
{
    if patterns.len() == 0 {
        seq![]
    } else {
        line_raw(patterns.drop_last(), line) + if regex_valid(patterns.last()) {
            capture_items(line, regex_captures(patterns.last(), line))
        } else {
            seq![]
        }
    }
}

/// Sort key: start ascending, then end descending, so that the longest
/// match wins at the same start.
pub open spec fn match_key(m: PreView) -> int {
    m.0 * (usize::MAX + 1) + (usize::MAX - m.1)
}

/// Keeps, in order, each match that starts at or after the end of the last
/// kept one.
pub open spec fn resolve(s: Seq<PreView>, last_end: int) -> Seq<PreView>
    decreases s.len(),
{
    if s.len() == 0 {
        seq![]
    } else if (s[0].0 as int) < last_end {
        resolve(s.drop_first(), last_end)
    } else {
        seq![s[0]] + resolve(s.drop_first(), s[0].1 as int)
    }
}

/// The non-overlapping matches of a line, in display order.  A line too
/// long for column arithmetic has none.
pub open spec fn line_matches(patterns: Seq<Seq<char>>, line: Seq<char>) -> Seq<PreView> {
    if !fits(line) {
        seq![]
    } else {
        resolve(sort_by_key(line_raw(patterns, line), |m: PreView| match_key(m)), 0)
    }
}

/// Every capture's ranges lie within the line, on character boundaries.
pub open spec fn captures_ok(line: Seq<char>, caps: Seq<Capture>) -> bool {
    forall|k: int|
        0 <= k < caps.len() ==> match_range_ok(line, (#[trigger] caps[k]).0, caps[k].1) && (
        caps[k].2 matches Some((gs, ge)) ==> match_range_ok(line, gs, ge))
}

/// The views of a list of matches.
pub open spec fn pre_views(v: Seq<PreMatch>) -> Seq<PreView> {
    v.map_values(|m: PreMatch| m@)
}

fn capture_item(line: &str, cap: &Capture) -> (res: Option<PreMatch>)
    requires
        match_range_ok(line@, cap.0, cap.1),
        cap.2 matches Some((gs, ge)) ==> match_range_ok(line@, gs, ge),
    ensures
        match res {
            Some(m) => capture_view(line@, *cap) == Some(m@),
            None => capture_view(line@, *cap) is None,
        },
{
    let ghost b = encode_utf8(line@);
    let ms = cap.0;
    let me = cap.1;
    proof {
        assert(line.spec_bytes() == b);
    }
    match cap.2 {
        Some((gs, ge)) => {
            if ms <= gs && gs <= me {
                if me <= ms {
                    return None;
                }
                let text = crate::text::substr(line, gs, ge);
                let lead = crate::text::substr(line, ms, gs);
                let start_chars = lead.unicode_len();
                let len_chars = text.unicode_len();
                return Some(
                    PreMatch {
                        start: ms,
                        end: me,
                        captured_text: to_string(text),
                        captured_offset: Some((start_chars, len_chars)),
                    },
                );
            }
        },
        None => {},
    }
    let full = crate::text::substr(line, ms, me);
    let trimmed = trim_trailing(full);
    let tl = trimmed.len();
    proof {
        lemma_trimmed_len(b.subrange(ms as int, me as int));
        assert(tl == trimmed_len(b.subrange(ms as int, me as int)));
        assert(b.subrange(ms as int, me as int).subrange(0, tl as int) == b.subrange(
            ms as int,
            ms + tl,
        ));
    }
    if tl == 0 {
        return None;
    }
    Some(PreMatch { start: ms, end: ms + tl, captured_text: to_string(trimmed), captured_offset: None })
}

fn collect_items(line: &str, caps: &Vec<Capture>, out: &mut Vec<PreMatch>)
    requires
        captures_ok(line@, caps@),
    ensures
        pre_views(final(out)@) == pre_views(old(out)@) + capture_items(line@, caps@),
{
    let ghost start = pre_views(out@);
    let mut k: usize = 0;
    while k < caps.len()
        invariant
            captures_ok(line@, caps@),
            k <= caps.len(),
            pre_views(out@) == start + capture_items(line@, caps@.take(k as int)),
        decreases caps.len() - k,
    {
        proof {
            assert(caps@.take(k + 1).drop_last() == caps@.take(k as int));
            assert(caps@.take(k + 1).last() == caps@[k as int]);
        }
        let item = capture_item(line, &caps[k]);
        match item {
            Some(m) => {
                let ghost before = pre_views(out@);
                out.push(m);
                proof {
                    assert(pre_views(out@) == before.push(m@));
                }
            },
            None => {},
        }
        k = k + 1;
    }
    proof {
        assert(caps@.take(caps@.len() as int) == caps@);
    }
}

proof fn lemma_key_order(a: PreView, x: PreView)
    ensures
        (match_key(a) > match_key(x)) == ((a.0 > x.0) || (a.0 == x.0 && a.1 < x.1)),
{
    let m: int = usize::MAX + 1;
    assert(0 <= a.1 < m && 0 <= x.1 < m);
    if a.0 > x.0 {
        assert(a.0 * m >= x.0 * m + m) by (nonlinear_arith)
            requires
                a.0 > x.0,
                m > 0,
        ;
    } else if a.0 < x.0 {
        assert(x.0 * m >= a.0 * m + m) by (nonlinear_arith)
            requires
                a.0 < x.0,
                m > 0,
        ;
    }
}

proof fn lemma_match_insert_pos(s: Seq<PreView>, x: PreView, j: int)
    requires
        0 <= j <= s.len(),
        forall|k: int| j <= k < s.len() ==> match_key(x) < #[trigger] match_key(s[k]),
        j == 0 || match_key(s[j - 1]) <= match_key(x),
    ensures
        insert_pos(s, x, |m: PreView| match_key(m)) == j,
    decreases s.len(),
{
    if s.len() > 0 {
        if match_key(s.last()) <= match_key(x) {
            assert(j == s.len());
        } else {
            lemma_match_insert_pos(s.drop_last(), x, j);
        }
    }
}

/// Stable sort of matches by start, then by end descending.
fn sort_matches(v: &Vec<PreMatch>) -> (r: Vec<PreMatch>)
    ensures
        pre_views(r@) == sort_by_key(pre_views(v@), |m: PreView| match_key(m)),
{
    let ghost key = |m: PreView| match_key(m);
    let mut r: Vec<PreMatch> = Vec::new();
    let mut i: usize = 0;
    while i < v.len()
        invariant
            i <= v.len(),
            key == (|m: PreView| match_key(m)),
            pre_views(r@) == sort_by_key(pre_views(v@).take(i as int), key),
        decreases v.len() - i,
    {
        let x = PreMatch {
            start: v[i].start,
            end: v[i].end,
            captured_text: v[i].captured_text.clone(),
            captured_offset: v[i].captured_offset,
        };
        let mut j: usize = r.len();
        while j > 0 && (r[j - 1].start > x.start || (r[j - 1].start == x.start && r[j - 1].end
            < x.end))
            invariant
                j <= r.len(),
                forall|k: int| j <= k < r.len() ==> match_key(x@) < #[trigger] match_key(r@[k]@),
            decreases j,
        {
            proof {
                lemma_key_order(r@[j - 1]@, x@);
            }
            j = j - 1;
        }
        proof {
            let s = pre_views(r@);
            assert forall|k: int| j <= k < s.len() implies match_key(x@) < #[trigger] match_key(s[k]) by {
                assert(s[k] == r@[k]@);
            }
            if j > 0 {
                assert(s[j - 1] == r@[j - 1]@);
                lemma_key_order(r@[j - 1]@, x@);
            }
            lemma_match_insert_pos(s, x@, j as int);
            lemma_insert_is_insert_at(s, x@, key);
            let t = pre_views(v@).take(i + 1);
            assert(t.drop_last() == pre_views(v@).take(i as int));
            assert(t.last() == x@);
        }
        let ghost before = pre_views(r@);
        r.insert(j, x);
        proof {
            assert(pre_views(r@) == before.insert(j as int, x@));
        }
        i = i + 1;
    }
    proof {
        assert(pre_views(v@).take(i as int) == pre_views(v@));
    }
    r
}

/// Keeps each match that does not start inside the previous kept one.
fn resolve_sorted(sorted: &Vec<PreMatch>) -> (r: Vec<PreMatch>)
    ensures
        pre_views(r@) == resolve(pre_views(sorted@), 0),
{
    let ghost s = pre_views(sorted@);
    let mut r: Vec<PreMatch> = Vec::new();
    let mut last_end: usize = 0;
    let mut i: usize = 0;
    proof {
        assert(s.skip(0) == s);
    }
    while i < sorted.len()
        invariant
            s == pre_views(sorted@),
            i <= sorted.len(),
            resolve(s, 0) == pre_views(r@) + resolve(s.skip(i as int), last_end as int),
        decreases sorted.len() - i,
    {
        let m = &sorted[i];
        proof {
            assert(s.skip(i as int)[0] == m@);
            assert(s.skip(i as int).drop_first() == s.skip(i + 1));
        }
        if m.start < last_end {
            i = i + 1;
            continue;
        }
        last_end = m.end;
        let ghost before = pre_views(r@);
        r.push(
            PreMatch {
                start: m.start,
                end: m.end,
                captured_text: m.captured_text.clone(),
                captured_offset: m.captured_offset,
            },
        );
        proof {
            assert(pre_views(r@) == before.push(m@));
            assert(before.push(m@) + resolve(s.skip(i + 1), last_end as int) == before + (seq![m@]
                + resolve(s.skip(i + 1), last_end as int)));
        }
        i = i + 1;
    }
    proof {
        assert(s.skip(i as int).len() == 0);
        assert(pre_views(r@) + Seq::<PreView>::empty() == pre_views(r@));
    }
    r
}


/// A match that can be cut out of its line: a non-empty byte range on
/// character boundaries, with a text, and a named group's character offset,
/// no longer than the line.
pub open spec fn pre_ok(line: Seq<char>, m: PreView) -> bool {
    &&& match_range_ok(line, m.0, m.1)
    &&& m.0 < m.1
    &&& m.2.len() <= line.len()
    &&& (m.3 matches Some((sc, lc)) ==> sc <= line.len())
}

/// Matches in display order: each one starts at or after the end of the
/// previous one.
pub open spec fn ordered(ms: Seq<PreView>) -> bool {
    forall|i: int| 0 <= i < ms.len() - 1 ==> (#[trigger] ms[i]).1 <= ms[i + 1].0
}

proof fn lemma_capture_ok(line: Seq<char>, cap: Capture)
    requires
        match_range_ok(line, cap.0, cap.1),
        cap.2 matches Some((gs, ge)) ==> match_range_ok(line, gs, ge),
        capture_view(line, cap) is Some,
    ensures
        pre_ok(line, capture_view(line, cap)->0),
{
    let b = encode_utf8(line);
    let m = capture_view(line, cap)->0;
    let g = cap.2.unwrap();
    if cap.2 is Some && cap.0 <= g.0 && g.0 <= cap.1 {
        crate::text::lemma_decode_parts(b, g.0 as int, g.1 as int);
        crate::text::lemma_decode_parts(b, cap.0 as int, g.0 as int);
    } else {
        let sub = b.subrange(cap.0 as int, cap.1 as int);
        lemma_trimmed_len(sub);
        let tl = trimmed_len(sub);
        let e = cap.0 + tl;
        if tl < sub.len() {
            assert(sub[tl as int] == b[e]);
            vstd::utf8::is_char_boundary_iff_not_is_continuation_byte(b, e);
        }
        crate::text::lemma_decode_parts(b, cap.0 as int, e);
    }
}

proof fn lemma_items_ok(line: Seq<char>, caps: Seq<Capture>)
    requires
        captures_ok(line, caps),
    ensures
        forall|i: int| 0 <= i < capture_items(line, caps).len() ==> pre_ok(line, #[trigger] capture_items(line, caps)[i]),
    decreases caps.len(),
{
    if caps.len() > 0 {
        assert(captures_ok(line, caps.drop_last())) by {
            assert forall|k: int| 0 <= k < caps.drop_last().len() implies match_range_ok(
                line,
                (#[trigger] caps.drop_last()[k]).0,
                caps.drop_last()[k].1,
            ) && (caps.drop_last()[k].2 matches Some((gs, ge)) ==> match_range_ok(line, gs, ge)) by {
                assert(caps.drop_last()[k] == caps[k]);
            }
        }
        lemma_items_ok(line, caps.drop_last());
        assert(caps.last() == caps[caps.len() - 1]);
        let prefix = capture_items(line, caps.drop_last());
        let items = capture_items(line, caps);
        if capture_view(line, caps.last()) is Some {
            lemma_capture_ok(line, caps.last());
        }
        assert forall|i: int| 0 <= i < items.len() implies pre_ok(line, #[trigger] items[i]) by {
            if i < prefix.len() {
                assert(items[i] == prefix[i]);
            } else {
                assert(items[i] == capture_view(line, caps.last())->0);
            }
        }
    }
}

proof fn lemma_resolve_shape(s: Seq<PreView>, last_end: int, line: Seq<char>)
    requires
        forall|i: int| 0 <= i < s.len() ==> pre_ok(line, #[trigger] s[i]),
    ensures
        forall|i: int| 0 <= i < resolve(s, last_end).len() ==> pre_ok(line, #[trigger] resolve(s, last_end)[i]),
        ordered(resolve(s, last_end)),
        resolve(s, last_end).len() > 0 ==> resolve(s, last_end)[0].0 >= last_end,
    decreases s.len(),
{
    if s.len() > 0 {
        assert forall|i: int| 0 <= i < s.drop_first().len() implies pre_ok(line, #[trigger] s.drop_first()[i]) by {
            assert(s.drop_first()[i] == s[i + 1]);
        }
        lemma_resolve_shape(s.drop_first(), last_end, line);
        lemma_resolve_shape(s.drop_first(), s[0].1 as int, line);
        if (s[0].0 as int) >= last_end {
            let r = seq![s[0]] + resolve(s.drop_first(), s[0].1 as int);
            assert(pre_ok(line, s[0]));
            assert forall|i: int| 0 <= i < r.len() implies pre_ok(line, #[trigger] r[i]) by {
                if i > 0 {
                    assert(r[i] == resolve(s.drop_first(), s[0].1 as int)[i - 1]);
                }
            }
            assert forall|i: int| 0 <= i < r.len() - 1 implies (#[trigger] r[i]).1 <= r[i + 1].0 by {
                if i > 0 {
                    assert(r[i] == resolve(s.drop_first(), s[0].1 as int)[i - 1]);
                    assert(r[i + 1] == resolve(s.drop_first(), s[0].1 as int)[i]);
                }
            }
        }
    }
}

/// The pane inputs as values: for each pane, its lines.
pub open spec fn pane_lines(panes: Seq<PaneInput>) -> Seq<Seq<Seq<char>>> {
    panes.map_values(|p: PaneInput| string_views(p.lines@))
}

/// The resolved matches of every line of every pane.
pub open spec fn all_matches(patterns: Seq<Seq<char>>, panes: Seq<Seq<Seq<char>>>) -> Seq<Seq<Seq<PreView>>> {
    panes.map_values(
        |lines: Seq<Seq<char>>| lines.map_values(|line: Seq<char>| line_matches(patterns, line)),
    )
}

/// Views of nested match lists.
pub open spec fn nested_views(v: Seq<Vec<Vec<PreMatch>>>) -> Seq<Seq<Seq<PreView>>> {
    v.map_values(|p: Vec<Vec<PreMatch>>| p@.map_values(|l: Vec<PreMatch>| pre_views(l@)))
}

/// Prefix `(?i)` to a pattern that contains no ASCII-uppercase letter.
pub open spec fn smart_case(p: Seq<char>) -> Seq<char> {
    if exists|i: int| 0 <= i < p.len() && 'A' <= #[trigger] p[i] && p[i] <= 'Z' {
        p
    } else {
        "(?i)"@ + p
    }
}

/// Prefix `(?i)` to a pattern that contains no ASCII-uppercase letter, so
/// that `URL`/`Sha`/etc. match alongside their lowercase form. Patterns the
/// user wrote with explicit capitals are left case-sensitive.
pub fn apply_smart_case(p: &str) -> (res: String)
    ensures
        res@ == smart_case(p@),
{
    let cs = str_chars(p);
    let mut i: usize = 0;
    while i < cs.len()
        invariant
            cs@ == p@,
            i <= cs.len(),
            forall|k: int| 0 <= k < i ==> !('A' <= #[trigger] cs@[k] && cs@[k] <= 'Z'),
        decreases cs.len() - i,
    {
        if 'A' <= cs[i] && cs[i] <= 'Z' {
            return to_string(p);
        }
        i = i + 1;
    }
    let mut out = to_string("(?i)");
    out.append(p);
    out
}

/// Scans the lines of a pane with every pattern: the resolved matches of
/// each line.
pub(crate) fn scan_pane(patterns: &Vec<String>, lines: &Vec<String>) -> (res: Vec<Vec<PreMatch>>)
    ensures
        res@.map_values(|l: Vec<PreMatch>| pre_views(l@)) == string_views(lines@).map_values(
            |line: Seq<char>| line_matches(string_views(patterns@), line),
        ),
        forall|i: int, k: int|
            0 <= i < res@.len() && 0 <= k < res@[i]@.len() ==> pre_ok(
                lines@[i]@,
                #[trigger] res@[i]@[k]@,
            ),
        forall|i: int| 0 <= i < res@.len() ==> ordered(#[trigger] pre_views(res@[i]@)),
{
    let ghost pv = string_views(patterns@);
    let mut scans: Vec<Option<Vec<Vec<Capture>>>> = Vec::new();
    let mut p: usize = 0;
    while p < patterns.len()
        invariant
            p <= patterns.len(),
            scans.len() == p,
            forall|q: int|
                0 <= q < p ==> ((#[trigger] scans@[q]).is_some() == regex_valid(patterns@[q]@)),
            forall|q: int|
                0 <= q < p && (#[trigger] scans@[q]).is_some() ==> scans@[q].unwrap().len() == lines.len(),
            forall|q: int, i: int|
                0 <= q < p && scans@[q].is_some() && 0 <= i < lines.len() ==> (
                #[trigger] scans@[q].unwrap()[i])@ == regex_captures(patterns@[q]@, lines@[i]@)
                    && captures_ok(lines@[i]@, scans@[q].unwrap()[i]@),
        decreases patterns.len() - p,
    {
        let r = match regex_scan(patterns[p].as_str(), lines) {
            Ok(v) => Some(v),
            Err(_) => None,
        };
        proof {
            if r.is_some() {
                assert forall|i: int| 0 <= i < lines.len() implies captures_ok(
                    lines@[i]@,
                    r.unwrap()[i]@,
                ) by {
                    assert forall|k: int| 0 <= k < r.unwrap()[i]@.len() implies match_range_ok(
                        lines@[i]@,
                        (#[trigger] r.unwrap()[i]@[k]).0,
                        r.unwrap()[i]@[k].1,
                    ) && (r.unwrap()[i]@[k].2 matches Some((gs, ge)) ==> match_range_ok(
                        lines@[i]@,
                        gs,
                        ge,
                    )) by {
                        assert(r.unwrap()[i]@[k] == r.unwrap()[i][k]);
                    }
                }
            }
        }
        scans.push(r);
        p = p + 1;
    }
    let mut out: Vec<Vec<PreMatch>> = Vec::new();
    let mut li: usize = 0;
    while li < lines.len()
        invariant
            pv == string_views(patterns@),
            scans.len() == patterns.len(),
            li <= lines.len(),
            out.len() == li,
            forall|q: int|
                0 <= q < scans.len() ==> ((#[trigger] scans@[q]).is_some() == regex_valid(patterns@[q]@)),
            forall|q: int|
                0 <= q < scans.len() && (#[trigger] scans@[q]).is_some() ==> scans@[q].unwrap().len()
                    == lines.len(),
            forall|q: int, i: int|
                0 <= q < scans.len() && scans@[q].is_some() && 0 <= i < lines.len() ==> (
                #[trigger] scans@[q].unwrap()[i])@ == regex_captures(patterns@[q]@, lines@[i]@)
                    && captures_ok(lines@[i]@, scans@[q].unwrap()[i]@),
            forall|i: int|
                0 <= i < li ==> pre_views((#[trigger] out@[i])@) == line_matches(pv, lines@[i]@),
            forall|i: int, k: int|
                0 <= i < li && 0 <= k < out@[i]@.len() ==> pre_ok(lines@[i]@, #[trigger] out@[i]@[k]@),
            forall|i: int| 0 <= i < li ==> ordered(#[trigger] pre_views(out@[i]@)),
        decreases lines.len() - li,
    {
        let line = lines[li].as_str();
        let resolved = if line.unicode_len() > usize::MAX / 8 {
            Vec::new()
        } else {
            let mut raw: Vec<PreMatch> = Vec::new();
            let mut q: usize = 0;
            while q < scans.len()
                invariant
                    pv == string_views(patterns@),
                    scans.len() == patterns.len(),
                    q <= scans.len(),
                    li < lines.len(),
                    line@ == lines@[li as int]@,
                    forall|q2: int|
                        0 <= q2 < scans.len() ==> ((#[trigger] scans@[q2]).is_some() == regex_valid(
                            patterns@[q2]@,
                        )),
                    forall|q2: int|
                        0 <= q2 < scans.len() && (#[trigger] scans@[q2]).is_some() ==> scans@[q2].unwrap().len()
                            == lines.len(),
                    forall|q2: int, i: int|
                        0 <= q2 < scans.len() && scans@[q2].is_some() && 0 <= i < lines.len() ==> (
                        #[trigger] scans@[q2].unwrap()[i])@ == regex_captures(patterns@[q2]@, lines@[i]@)
                            && captures_ok(lines@[i]@, scans@[q2].unwrap()[i]@),
                    pre_views(raw@) == line_raw(pv.take(q as int), line@),
                    forall|k: int| 0 <= k < raw@.len() ==> pre_ok(line@, #[trigger] raw@[k]@),
                decreases scans.len() - q,
            {
                proof {
                    assert(pv.take(q + 1).drop_last() == pv.take(q as int));
                    assert(pv.take(q + 1).last() == patterns@[q as int]@);
                }
                match &scans[q] {
                    Some(per_line) => {
                        let ghost before = raw@;
                        proof {
                            assert(per_line[li as int]@ == regex_captures(patterns@[q as int]@, line@));
                            lemma_items_ok(line@, per_line[li as int]@);
                        }
                        collect_items(line, &per_line[li], &mut raw);
                        proof {
                            let items = capture_items(line@, per_line[li as int]@);
                            assert(pre_views(raw@).len() == raw@.len());
                            assert(pre_views(before).len() == before.len());
                            assert(raw@.len() == before.len() + items.len());
                            assert forall|k: int| 0 <= k < raw@.len() implies pre_ok(line@, #[trigger] raw@[k]@) by {
                                if k < before.len() {
                                    assert(pre_views(before)[k] == before[k]@);
                                    assert(pre_views(raw@)[k] == raw@[k]@);
                                } else {
                                    assert(pre_views(raw@)[k] == raw@[k]@);
                                    assert(pre_views(raw@)[k] == capture_items(line@, per_line[li as int]@)[k - before.len()]);
                                }
                            }
                        }
                    },
                    None => {},
                }
                q = q + 1;
            }
            let sorted = sort_matches(&raw);
            proof {
                assert(pv.take(q as int) == pv);
                let key = |m: PreView| match_key(m);
                lemma_sort_len_and_elems(pre_views(raw@), key);
                assert forall|k: int| 0 <= k < pre_views(sorted@).len() implies pre_ok(
                    line@,
                    #[trigger] pre_views(sorted@)[k],
                ) by {
                    let x = pre_views(sorted@)[k];
                    assert(sort_by_key(pre_views(raw@), key).contains(x));
                    assert(pre_views(raw@).contains(x));
                    let j = choose|j: int| 0 <= j < pre_views(raw@).len() && pre_views(raw@)[j] == x;
                    assert(pre_views(raw@)[j] == raw@[j]@);
                }
                lemma_resolve_shape(pre_views(sorted@), 0, line@);
            }
            resolve_sorted(&sorted)
        };
        proof {
            assert forall|k: int| 0 <= k < resolved@.len() implies pre_ok(line@, #[trigger] resolved@[k]@) by {
                assert(pre_views(resolved@)[k] == resolved@[k]@);
            }
        }
        out.push(resolved);
        li = li + 1;
    }
    proof {
        assert(out@.map_values(|l: Vec<PreMatch>| pre_views(l@)) =~= string_views(lines@).map_values(
            |line: Seq<char>| line_matches(pv, line),
        ));
    }
    out
}


/// Law: the matches of a line do not overlap.  Each is a non-empty range
/// of whole characters of the line, and each starts at or after the end of
/// the one before it; where patterns found overlapping ranges, the earlier
/// start, and at the same start the longer range, was kept.
pub proof fn law_line_matches_disjoint(patterns: Seq<Seq<char>>, line: Seq<char>)
    requires
        forall|i: int|
            0 <= i < patterns.len() && regex_valid(#[trigger] patterns[i]) ==> captures_ok(
                line,
                regex_captures(patterns[i], line),
            ),
    ensures
        ordered(line_matches(patterns, line)),
        forall|k: int|
            0 <= k < line_matches(patterns, line).len() ==> pre_ok(line, #[trigger] line_matches(patterns, line)[k]),
{
    if fits(line) {
        lemma_line_raw_ok(patterns, line);
        let raw = line_raw(patterns, line);
        let key = |m: PreView| match_key(m);
        lemma_sort_len_and_elems(raw, key);
        let sorted = sort_by_key(raw, key);
        assert forall|k: int| 0 <= k < sorted.len() implies pre_ok(line, #[trigger] sorted[k]) by {
            assert(sorted.contains(sorted[k]));
            assert(raw.contains(sorted[k]));
        }
        lemma_resolve_shape(sorted, 0, line);
    }
}

proof fn lemma_line_raw_ok(patterns: Seq<Seq<char>>, line: Seq<char>)
    requires
        forall|i: int|
            0 <= i < patterns.len() && regex_valid(#[trigger] patterns[i]) ==> captures_ok(
                line,
                regex_captures(patterns[i], line),
            ),
    ensures
        forall|k: int| 0 <= k < line_raw(patterns, line).len() ==> pre_ok(line, #[trigger] line_raw(patterns, line)[k]),
    decreases patterns.len(),
{
    if patterns.len() > 0 {
        assert forall|i: int|
            0 <= i < patterns.drop_last().len() && regex_valid(#[trigger] patterns.drop_last()[i]) implies captures_ok(
                line,
                regex_captures(patterns.drop_last()[i], line),
            ) by {
            assert(patterns.drop_last()[i] == patterns[i]);
        }
        lemma_line_raw_ok(patterns.drop_last(), line);
        let prev = line_raw(patterns.drop_last(), line);
        let all = line_raw(patterns, line);
        if regex_valid(patterns.last()) {
            let caps = regex_captures(patterns.last(), line);
            assert(patterns.last() == patterns[patterns.len() - 1]);
            lemma_items_ok(line, caps);
            let items = capture_items(line, caps);
            assert forall|k: int| 0 <= k < all.len() implies pre_ok(line, #[trigger] all[k]) by {
                if k < prev.len() {
                    assert(all[k] == prev[k]);
                } else {
                    assert(all[k] == items[k - prev.len()]);
                }
            }
        } else {
            assert(all == prev);
        }
    }
}


/// Law: a match that ends in sentence punctuation (`.` `,` `;` `:` `?` `!`)
/// is trimmed exactly as it would be without that last byte.
pub proof fn law_trailing_punct_is_dropped(b: Seq<u8>, p: u8)
    requires
        p == 0x2E || p == 0x2C || p == 0x3B || p == 0x3A || p == 0x3F || p == 0x21,
    ensures
        trimmed_len(b.push(p)) == trimmed_len(b),
{
    assert(b.push(p).drop_last() == b);
}

/// Law: what is left after trimming never ends in sentence punctuation.
pub proof fn law_trimmed_ends_without_punct(b: Seq<u8>)
    ensures
        trimmed_len(b) <= b.len(),
        trimmed_len(b) > 0 ==> {
            let last = b[trimmed_len(b) - 1];
            !(last == 0x2E || last == 0x2C || last == 0x3B || last == 0x3A || last == 0x3F || last == 0x21)
        },
    decreases b.len(),
{
    if b.len() > 0 {
        law_trimmed_ends_without_punct(b.drop_last());
        if trimmed_len(b) < b.len() && trimmed_len(b) > 0 {
            assert(b[trimmed_len(b) - 1] == b.drop_last()[trimmed_len(b) - 1]);
        }
    }
}

} // verus!
