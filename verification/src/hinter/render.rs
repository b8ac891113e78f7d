//! Rendering pane lines with their hint overlays.
use vstd::prelude::*;
use vstd::utf8::{encode_utf8, is_char_boundary, valid_utf8};
use vstd::string::StringSliceAdditionalSpecFns;
use crate::display_width::{char_cols, fits, of_char, of_str_with_tabs, str_cols_tabs};
use crate::match_formatter::{MatchFormatter, spaces, spaces_string};
use crate::outside::push_char;
use crate::text::{chars_of, decimal, decimal_string, split_str, starts_with, str_chars, str_eq, string_views, substr, to_string};
use super::assign::{CachedMatch, CachedView, cached_ok, cached_ordered, cached_views};

verus! {

broadcast use vstd::utf8::encode_utf8_valid_utf8, vstd::utf8::encode_utf8_decode_utf8;

/// Spaces after a line of `line_w` columns in a pane `width` columns wide:
/// up to the pane's width, or, for a line that wraps, up to the end of its
/// last row.
pub open spec fn padding(line_w: int, width: int) -> int {
    if width == 0 {
        0
    } else if line_w >= width {
        if line_w % width == 0 {
            0
        } else {
            width - line_w % width
        }
    } else {
        width - line_w
    }
}

/// Spaces that fill the rest of the last row a line takes.
pub fn compute_padding(raw_line: &str, width: usize) -> (res: usize)
    requires
        fits(raw_line@),
    ensures
        res == padding(str_cols_tabs(raw_line@), width as int),
{
    if width == 0 {
        return 0;
    }
    let line_w = of_str_with_tabs(raw_line);
    if line_w >= width {
        let remainder = line_w % width;
        if remainder == 0 {
            0
        } else {
            width - remainder
        }
    } else {
        width - line_w
    }
}

/// Tab expansion state after a prefix: the text so far and the column
/// reached.  A tab moves to the next multiple of 8; any other character
/// adds its width.
pub open spec fn expand_scan(s: Seq<char>) -> (Seq<char>, int)
    decreases s.len(),
{
    if s.len() == 0 {
        (seq![], 0)
    } else {
        let (out, col) = expand_scan(s.drop_last());
        let c = s.last();
        if c == '\t' {
            (out + spaces(8 - col % 8), col + (8 - col % 8))
        } else {
            (out.push(c), col + char_cols(c))
        }
    }
}

/// A text with each tab replaced by the spaces up to the next tab stop.
pub open spec fn expanded(s: Seq<char>) -> Seq<char> {
    expand_scan(s).0
}

proof fn lemma_expand_col(s: Seq<char>)
    ensures
        expand_scan(s).1 >= 0,
    decreases s.len(),
{
    if s.len() > 0 {
        lemma_expand_col(s.drop_last());
    }
}

/// Replaces each tab with spaces up to the next multiple of 8 columns.
pub fn expand_tabs(s: &str) -> (res: String)
    ensures
        res@ == expanded(s@),
{
    let cs = str_chars(s);
    let mut out = String::new();
    let mut col8: usize = 0;
    let mut i: usize = 0;
    while i < cs.len()
        invariant
            cs@ == s@,
            i <= cs.len(),
            out@ == expand_scan(s@.take(i as int)).0,
            col8 == expand_scan(s@.take(i as int)).1 % 8,
        decreases cs.len() - i,
    {
        let c = cs[i];
        let ghost col = expand_scan(s@.take(i as int)).1;
        proof {
            assert(s@.take(i + 1).drop_last() == s@.take(i as int));
            assert(s@.take(i + 1).last() == c);
            lemma_expand_col(s@.take(i as int));
        }
        if c == '\t' {
            let pad = spaces_string(8 - col8);
            out.append(pad.as_str());
            proof {
                assert((col + (8 - col % 8)) % 8 == 0) by (nonlinear_arith)
                    requires
                        col >= 0,
                ;
            }
            col8 = 0;
        } else {
            push_char(&mut out, c);
            let w = of_char(c);
            proof {
                assert((col + w) % 8 == (col % 8 + w) % 8) by (nonlinear_arith)
                    requires
                        col >= 0,
                        w >= 0,
                ;
            }
            col8 = (col8 + w) % 8;
        }
        i = i + 1;
    }
    proof {
        assert(s@.take(cs.len() as int) == s@);
    }
    out
}


/// How a match is shown: with its hint overlay when it has a hint and the
/// typed input is empty or begins that hint, else as it is.
pub open spec fn shown_match(
    fmt: MatchFormatter,
    line: Seq<char>,
    m: CachedView,
    input: Seq<char>,
    selected: Seq<Seq<char>>,
) -> Seq<char> {
    let full = chars_of(encode_utf8(line), m.0 as int, m.1 as int);
    match m.3 {
        None => full,
        Some(hint) => if input.len() != 0 && !input.is_prefix_of(hint) {
            full
        } else {
            fmt.formatted(hint, full, selected.contains(hint), m.2)
        },
    }
}

/// Rendering state after some matches of a line: the text so far and the
/// byte offset where the last match ended.
pub open spec fn render_scan(
    fmt: MatchFormatter,
    line: Seq<char>,
    ms: Seq<CachedView>,
    input: Seq<char>,
    selected: Seq<Seq<char>>,
) -> (Seq<char>, int)
    decreases ms.len(),
{
    if ms.len() == 0 {
        (seq![], 0)
    } else {
        let (r, last) = render_scan(fmt, line, ms.drop_last(), input, selected);
        let m = ms.last();
        (
            r + chars_of(encode_utf8(line), last, m.0 as int) + shown_match(
                fmt,
                line,
                m,
                input,
                selected,
            ),
            m.1 as int,
        )
    }
}

/// A rendered line: the backdrop style, the text between matches as it is,
/// each match as shown, and tabs expanded.
pub open spec fn rendered_line(
    fmt: MatchFormatter,
    backdrop: Seq<char>,
    line: Seq<char>,
    ms: Seq<CachedView>,
    input: Seq<char>,
    selected: Seq<Seq<char>>,
) -> Seq<char> {
    let (r, last) = render_scan(fmt, line, ms, input, selected);
    expanded(backdrop + r + chars_of(encode_utf8(line), last, encode_utf8(line).len() as int))
}

fn holds_str(v: &Vec<String>, s: &str) -> (res: bool)
    ensures
        res == string_views(v@).contains(s@),
{
    let mut i: usize = 0;
    while i < v.len()
        invariant
            i <= v.len(),
            forall|j: int| 0 <= j < i ==> v@[j]@ != s@,
        decreases v.len() - i,
    {
        if str_eq(v[i].as_str(), s) {
            proof {
                assert(string_views(v@)[i as int] == s@);
            }
            return true;
        }
        i = i + 1;
    }
    proof {
        if string_views(v@).contains(s@) {
            let j = choose|j: int| 0 <= j < string_views(v@).len() && string_views(v@)[j] == s@;
            assert(v@[j]@ == s@);
        }
    }
    false
}

fn show_match(
    fmt: &MatchFormatter,
    line: &str,
    m: &CachedMatch,
    input: &str,
    selected: &Vec<String>,
) -> (res: String)
    requires
        cached_ok(line@, m@),
    ensures
        res@ == shown_match(*fmt, line@, m@, input@, string_views(selected@)),
{
    let full = substr(line, m.start, m.end);
    match &m.hint {
        None => to_string(full),
        Some(hint) => {
            if !input.is_empty() && !starts_with(hint.as_str(), input) {
                to_string(full)
            } else {
                let sel = holds_str(selected, hint.as_str());
                fmt.format(hint.as_str(), full, sel, m.fmt_offset)
            }
        },
    }
}

/// Renders one line: the backdrop style, then the line with each match
/// shown, tabs expanded.
pub fn render_line(
    fmt: &MatchFormatter,
    backdrop: &str,
    line: &str,
    ms: &Vec<CachedMatch>,
    input: &str,
    selected: &Vec<String>,
) -> (res: String)
    requires
        forall|k: int| 0 <= k < ms@.len() ==> cached_ok(line@, #[trigger] ms@[k]@),
        cached_ordered(cached_views(ms@)),
    ensures
        res@ == rendered_line(*fmt, backdrop@, line@, cached_views(ms@), input@, string_views(selected@)),
{
    let ghost cv = cached_views(ms@);
    let ghost sel = string_views(selected@);
    let ghost b = encode_utf8(line@);
    let mut result = String::new();
    let mut last_end: usize = 0;
    let mut k: usize = 0;
    proof {
        vstd::utf8::is_char_boundary_start_end_of_seq(b);
        assert(line.spec_bytes() == b);
    }
    while k < ms.len()
        invariant
            cv == cached_views(ms@),
            sel == string_views(selected@),
            b == encode_utf8(line@),
            b == line.spec_bytes(),
            forall|j: int| 0 <= j < ms@.len() ==> cached_ok(line@, #[trigger] ms@[j]@),
            cached_ordered(cv),
            k <= ms.len(),
            (result@, last_end as int) == render_scan(*fmt, line@, cv.take(k as int), input@, sel),
            last_end <= b.len(),
            is_char_boundary(b, last_end as int),
            k == 0 ==> last_end == 0,
            k > 0 ==> last_end == cv[k - 1].1,
        decreases ms.len() - k,
    {
        proof {
            assert(cv.take(k + 1).drop_last() == cv.take(k as int));
            assert(cv.take(k + 1).last() == cv[k as int]);
            assert(cv[k as int] == ms@[k as int]@);
            if k > 0 {
                assert(cv[k - 1].1 <= cv[k as int].0);
            }
        }
        let m = &ms[k];
        let before = substr(line, last_end, m.start);
        result.append(before);
        let shown = show_match(fmt, line, m, input, selected);
        result.append(shown.as_str());
        last_end = m.end;
        k = k + 1;
    }
    proof {
        assert(cv.take(k as int) == cv);
    }
    let (_, rest) = split_str(line, last_end);
    let mut styled = to_string(backdrop);
    styled.append(result.as_str());
    styled.append(rest);
    expand_tabs(styled.as_str())
}


/// `ESC [ H`, `ESC [ J` and `ESC [ ? 25 l`: cursor home, clear the screen,
/// hide the cursor.
pub open spec fn clear_and_hide() -> Seq<char> {
    seq!['\x1b', '[', 'H', '\x1b', '[', 'J', '\x1b', '[', '?', '2', '5', 'l']
}

/// `ESC [ row ; 1 H`: the cursor to the start of a row.
pub open spec fn cup(row: nat) -> Seq<char> {
    seq!['\x1b', '['] + decimal(row) + seq![';', '1', 'H']
}

/// Rows a line takes in a pane `width` columns wide: its columns divided by
/// the width, rounded up, and at least one.  A line too long to measure
/// counts one row.
pub open spec fn line_rows(line: Seq<char>, width: int) -> int {
    if !fits(line) || width == 0 {
        1
    } else {
        let w = str_cols_tabs(line);
        let q = w / width + if w % width == 0 {
            0int
        } else {
            1int
        };
        if q < 1 {
            1
        } else {
            q
        }
    }
}

/// Spaces after a line; none after a line too long to measure.
pub open spec fn line_pad(line: Seq<char>, width: int) -> int {
    if fits(line) {
        padding(str_cols_tabs(line), width)
    } else {
        0
    }
}

/// The row after a line, held at `usize::MAX`.
pub open spec fn next_row(row: int, rows: int) -> int {
    if row + rows > usize::MAX {
        usize::MAX as int
    } else {
        row + rows
    }
}

/// Output for the first lines of a pane, and the row where the next line
/// goes: each line at the start of its row, rendered, then padded.
pub open spec fn frame_scan(rendered: Seq<Seq<char>>, lines: Seq<Seq<char>>, width: int) -> (Seq<char>, int)
    decreases lines.len(),
{
    if lines.len() == 0 {
        (seq![], 1)
    } else {
        let (out, row) = frame_scan(rendered, lines.drop_last(), width);
        let i = lines.len() - 1;
        (
            out + cup(row as nat) + rendered[i] + spaces(line_pad(lines[i], width)),
            next_row(row, line_rows(lines[i], width)),
        )
    }
}

/// What is written to a pane's terminal: clear and hide the cursor, then,
/// when there are lines, each rendered line on its rows and the cursor
/// parked at home.
pub open spec fn pane_frame(rendered: Seq<Seq<char>>, lines: Seq<Seq<char>>, width: int) -> Seq<char> {
    clear_and_hide() + if lines.len() == 0 {
        seq![]
    } else {
        frame_scan(rendered, lines, width).0 + cup(1)
    }
}

proof fn lemma_frame_row(rendered: Seq<Seq<char>>, lines: Seq<Seq<char>>, width: int)
    ensures
        1 <= frame_scan(rendered, lines, width).1 <= usize::MAX,
    decreases lines.len(),
{
    if lines.len() > 0 {
        lemma_frame_row(rendered, lines.drop_last(), width);
    }
}

fn cup_string(row: usize) -> (res: String)
    ensures
        res@ == cup(row as nat),
{
    let mut s = String::new();
    push_char(&mut s, '\x1b');
    push_char(&mut s, '[');
    let digits = decimal_string(row);
    s.append(digits.as_str());
    push_char(&mut s, ';');
    push_char(&mut s, '1');
    push_char(&mut s, 'H');
    proof {
        assert(s@ =~= cup(row as nat));
    }
    s
}

/// Rows a line takes, as [`line_rows`] counts them.
fn rows_taken(line: &str, width: usize) -> (res: usize)
    ensures
        res == line_rows(line@, width as int),
{
    if line.unicode_len() > usize::MAX / 8 || width == 0 {
        return 1;
    }
    let w = of_str_with_tabs(line);
    let q = w / width + if w % width == 0 {
        0
    } else {
        1
    };
    if q < 1 {
        1
    } else {
        q
    }
}

/// The text written to one pane's terminal: each line rendered with its
/// cached matches, placed at the start of its row and padded to the end of
/// its last row.
pub fn pane_output(
    fmt: &MatchFormatter,
    backdrop: &str,
    lines: &Vec<String>,
    width: usize,
    cache: &Vec<Vec<CachedMatch>>,
    typed: &str,
    selected: &Vec<String>,
) -> (res: String)
    requires
        cache@.len() == lines@.len(),
        forall|l: int, k: int|
            0 <= l < cache@.len() && 0 <= k < cache@[l]@.len() ==> cached_ok(
                lines@[l]@,
                #[trigger] cache@[l]@[k]@,
            ),
        forall|l: int| 0 <= l < cache@.len() ==> cached_ordered(cached_views(#[trigger] cache@[l]@)),
    ensures
        res@ == pane_frame(
            Seq::new(
                lines@.len(),
                |l: int|
                    rendered_line(
                        *fmt,
                        backdrop@,
                        lines@[l]@,
                        cached_views(cache@[l]@),
                        typed@,
                        string_views(selected@),
                    ),
            ),
            string_views(lines@),
            width as int,
        ),
{
    let ghost rendered = Seq::new(
        lines@.len(),
        |l: int|
            rendered_line(
                *fmt,
                backdrop@,
                lines@[l]@,
                cached_views(cache@[l]@),
                typed@,
                string_views(selected@),
            ),
    );
    let ghost lv = string_views(lines@);
    let mut out = String::new();
    push_char(&mut out, '\x1b');
    push_char(&mut out, '[');
    push_char(&mut out, 'H');
    push_char(&mut out, '\x1b');
    push_char(&mut out, '[');
    push_char(&mut out, 'J');
    push_char(&mut out, '\x1b');
    push_char(&mut out, '[');
    push_char(&mut out, '?');
    push_char(&mut out, '2');
    push_char(&mut out, '5');
    push_char(&mut out, 'l');
    proof {
        assert(out@ =~= clear_and_hide());
    }
    if lines.len() == 0 {
        proof {
            assert(out@ =~= pane_frame(rendered, lv, width as int));
        }
        return out;
    }
    let mut row: usize = 1;
    let mut li: usize = 0;
    while li < lines.len()
        invariant
            lv == string_views(lines@),
            rendered == Seq::new(
                lines@.len(),
                |l: int|
                    rendered_line(
                        *fmt,
                        backdrop@,
                        lines@[l]@,
                        cached_views(cache@[l]@),
                        typed@,
                        string_views(selected@),
                    ),
            ),
            cache@.len() == lines@.len(),
            forall|l: int, k: int|
                0 <= l < cache@.len() && 0 <= k < cache@[l]@.len() ==> cached_ok(
                    lines@[l]@,
                    #[trigger] cache@[l]@[k]@,
                ),
            forall|l: int| 0 <= l < cache@.len() ==> cached_ordered(cached_views(#[trigger] cache@[l]@)),
            li <= lines.len(),
            out@ == clear_and_hide() + frame_scan(rendered, lv.take(li as int), width as int).0,
            row as int == frame_scan(rendered, lv.take(li as int), width as int).1,
        decreases lines.len() - li,
    {
        proof {
            assert(lv.take(li + 1).drop_last() == lv.take(li as int));
            assert(lv.take(li + 1).last() == lines@[li as int]@);
            assert(lv.take(li + 1).len() - 1 == li);
            lemma_frame_row(rendered, lv.take(li as int), width as int);
        }
        let ghost out0 = out@;
        let ghost prev = frame_scan(rendered, lv.take(li as int), width as int);
        let line = lines[li].as_str();
        let rendered_text = render_line(fmt, backdrop, line, &cache[li], typed, selected);
        assert(rendered_text@ == rendered[li as int]);
        let pad = if line.unicode_len() > usize::MAX / 8 {
            0
        } else {
            compute_padding(line, width)
        };
        let head = cup_string(row);
        out.append(head.as_str());
        out.append(rendered_text.as_str());
        let pad_text = spaces_string(pad);
        out.append(pad_text.as_str());
        let rows = rows_taken(line, width);
        row = if row > usize::MAX - rows {
            usize::MAX
        } else {
            row + rows
        };
        proof {
            let cur = frame_scan(rendered, lv.take(li + 1), width as int);
            assert(pad == line_pad(lv[li as int], width as int));
            assert(cur.0 == prev.0 + cup(prev.1 as nat) + rendered[li as int] + spaces(pad as int));
            assert(out@ =~= clear_and_hide() + cur.0);
            assert(row == cur.1);
        }
        li = li + 1;
    }
    proof {
        assert(lv.take(li as int) == lv);
    }
    let home = cup_string(1);
    out.append(home.as_str());
    proof {
        assert(out@ =~= pane_frame(rendered, lv, width as int));
    }
    out
}


proof fn lemma_expand_no_tabs(s: Seq<char>)
    ensures
        forall|i: int| 0 <= i < expanded(s).len() ==> expanded(s)[i] != '\t',
    decreases s.len(),
{
    if s.len() > 0 {
        lemma_expand_no_tabs(s.drop_last());
        let prev = expand_scan(s.drop_last());
        let out = expanded(s);
        if s.last() == '\t' {
            assert(out == prev.0 + spaces(8 - prev.1 % 8));
        } else {
            assert(out == prev.0.push(s.last()));
        }
        assert forall|i: int| 0 <= i < out.len() implies out[i] != '\t' by {
            if i < prev.0.len() {
                assert(out[i] == prev.0[i]);
                assert(expanded(s.drop_last()) == prev.0);
                assert(prev.0[i] != '\t');
            } else if s.last() == '\t' {
                let n = 8 - prev.1 % 8;
                assert(0 < n <= 8);
                assert(spaces(n)[i - prev.0.len()] == ' ');
                assert(out[i] == spaces(n)[i - prev.0.len()]);
            } else {
                assert(out[i] == s.last());
            }
        }
    }
}

/// Law: tab expansion leaves no tab behind.
pub proof fn law_expanded_has_no_tabs(s: Seq<char>)
    ensures
        !expanded(s).contains('\t'),
{
    lemma_expand_no_tabs(s);
}

/// Law: padding fills the last row a line takes.  In a pane of some
/// width, the line's columns and its padding make whole rows; a line that
/// is not empty is padded by less than a row, an empty one by a whole row.
pub proof fn law_padding_fills_rows(line_w: int, width: int)
    requires
        width > 0,
        line_w >= 0,
    ensures
        0 <= padding(line_w, width) <= width,
        (line_w + padding(line_w, width)) % width == 0,
        line_w > 0 ==> padding(line_w, width) < width,
{
    let q = line_w / width;
    let r = line_w % width;
    vstd::arithmetic::div_mod::lemma_fundamental_div_mod(line_w, width);
    vstd::arithmetic::div_mod::lemma_mod_pos_bound(line_w, width);
    if line_w >= width {
        if r != 0 {
            assert(line_w + (width - r) == (q + 1) * width) by (nonlinear_arith)
                requires
                    line_w == width * q + r,
            ;
            vstd::arithmetic::div_mod::lemma_mod_multiples_basic(q + 1, width);
        } else {
            assert(line_w == q * width) by (nonlinear_arith)
                requires
                    line_w == width * q + r,
                    r == 0,
            ;
            vstd::arithmetic::div_mod::lemma_mod_multiples_basic(q, width);
        }
    } else {
        vstd::arithmetic::div_mod::lemma_mod_multiples_basic(1, width);
    }
}


/// Law: a match with a hint is drawn with its hint overlay while the typed
/// input is empty or spells the first letters of the hint, and as its plain
/// text once the input is something the hint does not begin with.
pub proof fn law_overlay_follows_typed_prefix(
    fmt: MatchFormatter,
    line: Seq<char>,
    m: CachedView,
    input: Seq<char>,
    selected: Seq<Seq<char>>,
)
    requires
        m.3 is Some,
    ensures
        (exists|k: int| 0 <= k <= m.3->0.len() && input == #[trigger] m.3->0.take(k)) ==> shown_match(
            fmt,
            line,
            m,
            input,
            selected,
        ) == fmt.formatted(
            m.3->0,
            chars_of(encode_utf8(line), m.0 as int, m.1 as int),
            selected.contains(m.3->0),
            m.2,
        ),
        (forall|k: int| 0 <= k <= m.3->0.len() ==> input != #[trigger] m.3->0.take(k)) ==> shown_match(
            fmt,
            line,
            m,
            input,
            selected,
        ) == chars_of(encode_utf8(line), m.0 as int, m.1 as int),
{
    let h = m.3->0;
    if exists|k: int| 0 <= k <= h.len() && input == #[trigger] h.take(k) {
        let k = choose|k: int| 0 <= k <= h.len() && input == #[trigger] h.take(k);
        assert(input.is_prefix_of(h)) by {
            assert(h.subrange(0, input.len() as int) =~= h.take(k));
        }
    }
    if forall|k: int| 0 <= k <= h.len() ==> input != #[trigger] h.take(k) {
        assert(input != h.take(0));
        assert(input.len() != 0) by {
            if input.len() == 0 {
                assert(input =~= h.take(0));
            }
        }
        if input.is_prefix_of(h) {
            assert(input =~= h.take(input.len() as int));
        }
    }
}

} // verus!
