//! Styling of one match with its hint overlay.
use vstd::prelude::*;
use vstd::utf8::{encode_utf8, is_char_boundary};
use crate::display_width::{char_cols, fits, of_char, of_str, str_cols};
use crate::text::{chars_of, split_str, str_chars, str_eq, string_from};
use crate::tmux::style::sgr;

verus! {

broadcast use vstd::utf8::encode_utf8_valid_utf8, vstd::utf8::encode_utf8_decode_utf8;

/// Styles for hints and highlighted matches, and where the hint goes
/// (`"right"` puts it at the end of the match, anything else at the start).
pub struct MatchFormatter {
    pub hint_style: String,
    pub selected_hint_style: String,
    pub highlight_style: String,
    pub selected_highlight_style: String,
    pub backdrop_style: String,
    pub hint_position: String,
}

/// The reset sequence `ESC [ 0 m`.
pub open spec fn reset() -> Seq<char> {
    sgr(seq!['0'])
}

/// `n` spaces.
pub open spec fn spaces(n: int) -> Seq<char> {
    Seq::new(n as nat, |i: int| ' ')
}

/// Walking from the front, characters are taken until their columns reach
/// `hint_w`: the columns taken and the number of characters.
pub open spec fn front_cut(cs: Seq<char>, hint_w: int, acc: int) -> (int, int)
    decreases cs.len(),
{
    if cs.len() == 0 || acc >= hint_w {
        (acc, 0)
    } else {
        let r = front_cut(cs.drop_first(), hint_w, acc + char_cols(cs[0]));
        (r.0, r.1 + 1)
    }
}

/// Walking from the front, characters are kept while their columns stay
/// within `keep_w`: the columns kept and the number of characters.
pub open spec fn back_keep(cs: Seq<char>, keep_w: int, acc: int) -> (int, int)
    decreases cs.len(),
{
    if cs.len() == 0 || acc + char_cols(cs[0]) > keep_w {
        (acc, 0)
    } else {
        let r = back_keep(cs.drop_first(), keep_w, acc + char_cols(cs[0]));
        (r.0, r.1 + 1)
    }
}

/// The highlight with its first `hint_w` columns replaced by the hint: the
/// characters that the hint covers are dropped, and spaces make up a
/// character that the hint only partly covers.
pub open spec fn chop_start(h: Seq<char>, hint_w: int) -> Seq<char> {
    let (consumed, count) = front_cut(h, hint_w, 0);
    let pad = if consumed > hint_w {
        consumed - hint_w
    } else {
        0
    };
    spaces(pad) + h.skip(count)
}

/// The highlight with its last `hint_w` columns left for the hint.
pub open spec fn chop_end(h: Seq<char>, hint_w: int) -> Seq<char> {
    let total = str_cols(h);
    let keep_w = if total > hint_w {
        total - hint_w
    } else {
        0
    };
    let (kept, count) = back_keep(h, keep_w, 0);
    let pad = if keep_w > kept {
        keep_w - kept
    } else {
        0
    };
    h.take(count) + spaces(pad)
}

impl MatchFormatter {
    /// The hint goes at the end of the match.
    pub open spec fn right(&self) -> bool {
        self.hint_position@ == "right"@
    }

    /// The highlight shortened to make room for the hint.
    pub open spec fn chopped(&self, hint: Seq<char>, highlight: Seq<char>) -> Seq<char> {
        if self.right() {
            chop_end(highlight, str_cols(hint))
        } else {
            chop_start(highlight, str_cols(hint))
        }
    }

    /// The styled hint and highlight, in the configured order.
    pub open spec fn overlay(&self, selected: bool, hint: Seq<char>, highlight: Seq<char>) -> Seq<char> {
        let hint_sty = if selected {
            self.selected_hint_style@
        } else {
            self.hint_style@
        };
        let hl_sty = if selected {
            self.selected_highlight_style@
        } else {
            self.highlight_style@
        };
        let hint_pair = hint_sty + hint;
        let hl_pair = hl_sty + self.chopped(hint, highlight);
        if self.right() {
            hl_pair + reset() + hint_pair + reset() + self.backdrop_style@
        } else {
            hint_pair + reset() + hl_pair + reset() + self.backdrop_style@
        }
    }

    /// A match with its hint overlay; `offset` marks, in bytes of the
    /// match, the part that carries the overlay (the rest is shown in the
    /// backdrop style).
    pub open spec fn formatted(
        &self,
        hint: Seq<char>,
        highlight: Seq<char>,
        selected: bool,
        offset: Option<(usize, usize)>,
    ) -> Seq<char> {
        let b = encode_utf8(highlight);
        match offset {
            None => reset() + self.overlay(selected, hint, highlight),
            Some((start, len)) => {
                let before = if start == 0 {
                    seq![]
                } else {
                    self.backdrop_style@ + chars_of(b, 0, start as int)
                };
                let rest = chars_of(b, start + len, b.len() as int);
                let after = if rest.len() == 0 {
                    seq![]
                } else {
                    self.backdrop_style@ + rest
                };
                reset() + before + self.overlay(
                    selected,
                    hint,
                    chars_of(b, start as int, start + len),
                ) + after
            },
        }
    }
}

/// An offset that marks whole characters within the highlight's bytes.
pub open spec fn offset_ok(highlight: Seq<char>, offset: Option<(usize, usize)>) -> bool {
    &&& fits(highlight)
    &&& 
    match offset {
        None => true,
        Some((start, len)) => start + len <= encode_utf8(highlight).len() && is_char_boundary(
            encode_utf8(highlight),
            start as int,
        ) && is_char_boundary(encode_utf8(highlight), start + len),
    }
}

proof fn lemma_offset_sum(highlight: Seq<char>, offset: Option<(usize, usize)>)
    requires
        offset_ok(highlight, offset),
    ensures
        offset matches Some((s, l)) ==> s + l <= usize::MAX,
{
    crate::text::lemma_encode_len(highlight);
}

fn reset_string() -> (res: String)
    ensures
        res@ == reset(),
{
    let mut zero = String::new();
    crate::outside::push_char(&mut zero, '0');
    crate::tmux::style::sgr_string(zero)
}

pub(crate) fn spaces_string(n: usize) -> (res: String)
    ensures
        res@ == spaces(n as int),
{
    let mut s = String::new();
    let mut i: usize = 0;
    while i < n
        invariant
            i <= n,
            s@ == spaces(i as int),
        decreases n - i,
    {
        crate::outside::push_char(&mut s, ' ');
        proof {
            assert(spaces(i + 1) == spaces(i as int).push(' '));
        }
        i = i + 1;
    }
    s
}

proof fn lemma_front_cut(cs: Seq<char>, hint_w: int, acc: int)
    ensures
        0 <= front_cut(cs, hint_w, acc).1 <= cs.len(),
    decreases cs.len(),
{
    if cs.len() > 0 && acc < hint_w {
        lemma_front_cut(cs.drop_first(), hint_w, acc + char_cols(cs[0]));
    }
}

proof fn lemma_back_keep(cs: Seq<char>, keep_w: int, acc: int)
    ensures
        0 <= back_keep(cs, keep_w, acc).1 <= cs.len(),
    decreases cs.len(),
{
    if cs.len() > 0 && acc + char_cols(cs[0]) <= keep_w {
        lemma_back_keep(cs.drop_first(), keep_w, acc + char_cols(cs[0]));
    }
}

fn chop_from_start(highlight: &str, hint_w: usize) -> (res: String)
    requires
        fits(highlight@),
    ensures
        res@ == chop_start(highlight@, hint_w as int),
{
    let cs = str_chars(highlight);
    let mut consumed_w: usize = 0;
    let mut char_count: usize = 0;
    proof {
        assert(cs@.skip(0) == cs@);
    }
    while char_count < cs.len()
        invariant
            cs@ == highlight@,
            fits(highlight@),
            char_count <= cs.len(),
            consumed_w <= 3 * char_count,
            front_cut(cs@, hint_w as int, 0) == (
                front_cut(cs@.skip(char_count as int), hint_w as int, consumed_w as int).0,
                front_cut(cs@.skip(char_count as int), hint_w as int, consumed_w as int).1
                    + char_count,
            ),
        ensures
            char_count == cs.len() || consumed_w >= hint_w,
        decreases cs.len() - char_count,
    {
        if consumed_w >= hint_w {
            break;
        }
        let w = of_char(cs[char_count]);
        proof {
            assert(cs@.skip(char_count as int).drop_first() == cs@.skip(char_count + 1));
        }
        consumed_w = consumed_w + w;
        char_count = char_count + 1;
    }
    proof {
        lemma_front_cut(cs@, hint_w as int, 0);
        let rest = cs@.skip(char_count as int);
        if char_count == cs.len() {
            assert(rest.len() == 0);
        }
        assert(front_cut(rest, hint_w as int, consumed_w as int) == (consumed_w as int, 0int));
    }
    let padding = if consumed_w > hint_w {
        spaces_string(consumed_w - hint_w)
    } else {
        String::new()
    };
    let mut out = padding;
    let tail = string_from(cs.as_slice(), char_count, cs.len());
    out.append(tail.as_str());
    proof {
        assert(cs@.subrange(char_count as int, cs@.len() as int) == cs@.skip(char_count as int));
    }
    out
}

fn chop_from_end(highlight: &str, hint_w: usize) -> (res: String)
    requires
        fits(highlight@),
    ensures
        res@ == chop_end(highlight@, hint_w as int),
{
    let total_w = of_str(highlight);
    let keep_w = if total_w > hint_w {
        total_w - hint_w
    } else {
        0
    };
    let cs = str_chars(highlight);
    let mut accumulated_w: usize = 0;
    let mut keep: usize = 0;
    proof {
        assert(cs@.skip(0) == cs@);
    }
    while keep < cs.len()
        invariant
            cs@ == highlight@,
            fits(highlight@),
            keep <= cs.len(),
            accumulated_w <= keep_w,
            keep_w <= 3 * cs.len(),
            back_keep(cs@, keep_w as int, 0) == (
                back_keep(cs@.skip(keep as int), keep_w as int, accumulated_w as int).0,
                back_keep(cs@.skip(keep as int), keep_w as int, accumulated_w as int).1 + keep,
            ),
        ensures
            keep == cs.len() || accumulated_w + char_cols(cs@[keep as int]) > keep_w,
        decreases cs.len() - keep,
    {
        let w = of_char(cs[keep]);
        if accumulated_w + w > keep_w {
            break;
        }
        proof {
            assert(cs@.skip(keep as int).drop_first() == cs@.skip(keep + 1));
        }
        accumulated_w = accumulated_w + w;
        keep = keep + 1;
    }
    proof {
        lemma_back_keep(cs@, keep_w as int, 0);
        let rest = cs@.skip(keep as int);
        if keep == cs.len() {
            assert(rest.len() == 0);
        }
        assert(back_keep(rest, keep_w as int, accumulated_w as int) == (accumulated_w as int, 0int));
    }
    let mut out = string_from(cs.as_slice(), 0, keep);
    let padding = if keep_w > accumulated_w {
        spaces_string(keep_w - accumulated_w)
    } else {
        String::new()
    };
    out.append(padding.as_str());
    proof {
        assert(cs@.subrange(0, keep as int) == cs@.take(keep as int));
        if !(keep_w > accumulated_w) {
            assert(spaces(0) =~= Seq::<char>::empty());
        }
    }
    out
}

impl MatchFormatter {
    pub fn new(
        hint_style: String,
        selected_hint_style: String,
        highlight_style: String,
        selected_highlight_style: String,
        backdrop_style: String,
        hint_position: String,
    ) -> (res: Self)
        ensures
            res.hint_style == hint_style,
            res.selected_hint_style == selected_hint_style,
            res.highlight_style == highlight_style,
            res.selected_highlight_style == selected_highlight_style,
            res.backdrop_style == backdrop_style,
            res.hint_position == hint_position,
    {
        MatchFormatter {
            hint_style,
            selected_hint_style,
            highlight_style,
            selected_highlight_style,
            backdrop_style,
            hint_position,
        }
    }

    fn is_right(&self) -> (res: bool)
        ensures
            res == self.right(),
    {
        str_eq(self.hint_position.as_str(), "right")
    }

    fn chop_highlight(&self, hint: &str, highlight: &str) -> (res: String)
        requires
            fits(hint@),
            fits(highlight@),
        ensures
            res@ == self.chopped(hint@, highlight@),
    {
        let hint_w = of_str(hint);
        if self.is_right() {
            chop_from_end(highlight, hint_w)
        } else {
            chop_from_start(highlight, hint_w)
        }
    }

    fn format_offset(&self, selected: bool, hint: &str, highlight: &str) -> (res: String)
        requires
            fits(hint@),
            fits(highlight@),
        ensures
            res@ == self.overlay(selected, hint@, highlight@),
    {
        let chopped = self.chop_highlight(hint, highlight);
        let (hint_sty, hl_sty) = if selected {
            (&self.selected_hint_style, &self.selected_highlight_style)
        } else {
            (&self.hint_style, &self.highlight_style)
        };
        let mut hint_pair = hint_sty.clone();
        hint_pair.append(hint);
        let mut hl_pair = hl_sty.clone();
        hl_pair.append(chopped.as_str());
        let reset = reset_string();
        let (first, second) = if self.is_right() {
            (hl_pair, hint_pair)
        } else {
            (hint_pair, hl_pair)
        };
        let mut out = first;
        out.append(reset.as_str());
        out.append(second.as_str());
        out.append(reset.as_str());
        out.append(self.backdrop_style.as_str());
        out
    }

    fn before_offset(&self, offset: Option<(usize, usize)>, highlight: &str) -> (res: String)
        requires
            offset_ok(highlight@, offset),
        ensures
            res@ == (match offset {
                None => seq![],
                Some((start, _)) => if start == 0 {
                    seq![]
                } else {
                    self.backdrop_style@ + chars_of(encode_utf8(highlight@), 0, start as int)
                },
            }),
    {
        match offset {
            None => String::new(),
            Some((start, _)) => {
                if start == 0 {
                    String::new()
                } else {
                    let (head, _) = split_str(highlight, start);
                    let mut out = self.backdrop_style.clone();
                    out.append(head);
                    out
                }
            },
        }
    }

    fn within_offset<'a>(&self, offset: Option<(usize, usize)>, highlight: &'a str) -> (res: &'a str)
        requires
            offset_ok(highlight@, offset),
        ensures
            res@ == (match offset {
                None => highlight@,
                Some((start, len)) => chars_of(encode_utf8(highlight@), start as int, start + len),
            }),
    {
        proof {
            lemma_offset_sum(highlight@, offset);
        }
        match offset {
            None => highlight,
            Some((start, len)) => {
                let (_, tail) = split_str(highlight, start);
                proof {
                    let b = encode_utf8(highlight@);
                    crate::text::lemma_sub_boundary(b, start as int, start + len);
                }
                let (mid, _) = split_str(tail, len);
                proof {
                    let b = encode_utf8(highlight@);
                    assert(b.subrange(start as int, b.len() as int).subrange(0, len as int) == b.subrange(
                        start as int,
                        start + len,
                    ));
                }
                mid
            },
        }
    }

    fn after_offset(&self, offset: Option<(usize, usize)>, highlight: &str) -> (res: String)
        requires
            offset_ok(highlight@, offset),
        ensures
            res@ == (match offset {
                None => seq![],
                Some((start, len)) => {
                    let b = encode_utf8(highlight@);
                    let rest = chars_of(b, start + len, b.len() as int);
                    if rest.len() == 0 {
                        seq![]
                    } else {
                        self.backdrop_style@ + rest
                    }
                },
            }),
    {
        proof {
            lemma_offset_sum(highlight@, offset);
        }
        match offset {
            None => String::new(),
            Some((start, len)) => {
                let (_, rest) = split_str(highlight, start + len);
                if rest.unicode_len() == 0 {
                    String::new()
                } else {
                    let mut out = self.backdrop_style.clone();
                    out.append(rest);
                    out
                }
            },
        }
    }

    /// Format a match with its hint overlay.
    /// `offset` is Some((start_byte_pos, byte_len)) for named-capture patterns.
    pub fn format(
        &self,
        hint: &str,
        highlight: &str,
        selected: bool,
        offset: Option<(usize, usize)>,
    ) -> (res: String)
        requires
            fits(hint@),
            offset_ok(highlight@, offset),
        ensures
            res@ == self.formatted(hint@, highlight@, selected, offset),
    {
        let before = self.before_offset(offset, highlight);
        let within = self.within_offset(offset, highlight);
        proof {
            crate::text::lemma_chars_of_len(encode_utf8(highlight@), offset);
            assert(fits(within@));
        }
        let middle = self.format_offset(selected, hint, within);
        let after = self.after_offset(offset, highlight);
        let mut out = reset_string();
        out.append(before.as_str());
        out.append(middle.as_str());
        out.append(after.as_str());
        proof {
            if offset is None {
                assert(out@ == reset() + self.overlay(selected, hint@, highlight@));
            }
        }
        out
    }
}

} // verus!
