//! Display column counts of characters and strings (UAX #11 East Asian Width).
use vstd::prelude::*;
use crate::outside::{char_width, unicode_width_of};

verus! {

/// Columns that one character occupies: a tab counts 1 (tab expansion adds
/// the rest), C0 and C1 control characters count 0, printable ASCII counts
/// 1, every other character counts its East Asian width, or 1 where the
/// width table has none.
pub open spec fn char_cols(c: char) -> nat {
    let cp = c as u32;
    if cp == 0x09 {
        1
    } else if cp < 0x20 {
        0
    } else if cp < 0x7F {
        1
    } else if cp < 0xA0 {
        0
    } else {
        match unicode_width_of(c) {
            Some(w) => w as nat,
            None => 1,
        }
    }
}

/// Display width of a character.
pub fn of_char(c: char) -> (w: usize)
    ensures
        w == char_cols(c),
        0x20 <= (c as u32) < 0x7F ==> w == 1,
        w <= 3,
{
    let cp = c as u32;
    if cp == 0x09 {
        return 1;
    }
    if cp < 0x20 {
        return 0;
    }
    if cp >= 0x7F && cp < 0xA0 {
        return 0;
    }
    match char_width(c) {
        Some(w) => w,
        None => 1,
    }
}


/// A text short enough that column counts over it fit in `usize`.
pub open spec fn fits(s: Seq<char>) -> bool {
    s.len() <= usize::MAX / 8
}

/// Scan state after a prefix: columns so far, and the width of the last
/// character (`usize::MAX` before the first one).
pub open spec fn scan(s: Seq<char>) -> (int, int)
    decreases s.len(),
{
    if s.len() == 0 {
        (0, usize::MAX as int)
    } else {
        let (total, prev) = scan(s.drop_last());
        let c = s.last();
        if c as u32 == 0xFE0F && prev == 1 {
            (total + 1, 2)
        } else {
            (total + char_cols(c), char_cols(c) as int)
        }
    }
}

/// Display width of a text: the sum of its characters' widths, except that a
/// VS-16 (U+FE0F) after a character of width 1 upgrades it to width 2.
pub open spec fn str_cols(s: Seq<char>) -> int {
    scan(s).0
}

/// Scan state of the tab-aware width: the column reached, and the width of
/// the last character (`usize::MAX` before the first one and after a tab).
pub open spec fn tab_scan(s: Seq<char>) -> (int, int)
    decreases s.len(),
{
    if s.len() == 0 {
        (0, usize::MAX as int)
    } else {
        let (col, prev) = tab_scan(s.drop_last());
        let c = s.last();
        if c == '\t' {
            (col + (8 - col % 8), usize::MAX as int)
        } else if c as u32 == 0xFE0F && prev == 1 {
            (col + 1, 2)
        } else {
            (col + char_cols(c), char_cols(c) as int)
        }
    }
}

/// Display width of a text whose tabs jump to the next multiple of 8 columns.
pub open spec fn str_cols_tabs(s: Seq<char>) -> int {
    tab_scan(s).0
}

/// Display width of a string, with VS-16 (U+FE0F) upgrading the previous
/// character from 1 to 2 columns.
pub fn of_str(s: &str) -> (w: usize)
    requires
        fits(s@),
    ensures
        w == str_cols(s@),
        w <= 3 * s@.len(),
{
    let cs = crate::text::str_chars(s);
    let mut total: usize = 0;
    let mut prev_w: usize = usize::MAX;
    let mut i: usize = 0;
    while i < cs.len()
        invariant
            cs@ == s@,
            fits(s@),
            i <= cs.len(),
            (total as int, prev_w as int) == scan(s@.take(i as int)),
            total <= 3 * i,
            prev_w == usize::MAX || prev_w <= 3,
        decreases cs.len() - i,
    {
        let c = cs[i];
        proof {
            assert(s@.take(i + 1).drop_last() == s@.take(i as int));
        }
        if c as u32 == 0xFE0F && prev_w == 1 {
            total = total + 1;
            prev_w = 2;
        } else {
            let w = of_char(c);
            total = total + w;
            prev_w = w;
        }
        i = i + 1;
    }
    proof {
        assert(s@.take(i as int) == s@);
    }
    total
}

/// Display width of a string whose tabs expand to the next multiple of 8
/// columns, with the VS-16 rule of [`of_str`].
pub fn of_str_with_tabs(s: &str) -> (w: usize)
    requires
        fits(s@),
    ensures
        w == str_cols_tabs(s@),
        w <= 8 * s@.len(),
{
    let cs = crate::text::str_chars(s);
    let mut col: usize = 0;
    let mut prev_w: usize = usize::MAX;
    let mut i: usize = 0;
    while i < cs.len()
        invariant
            cs@ == s@,
            fits(s@),
            i <= cs.len(),
            (col as int, prev_w as int) == tab_scan(s@.take(i as int)),
            col <= 8 * i,
            prev_w == usize::MAX || prev_w <= 3,
        decreases cs.len() - i,
    {
        let c = cs[i];
        proof {
            assert(s@.take(i + 1).drop_last() == s@.take(i as int));
        }
        if c == '\t' {
            col = col + (8 - col % 8);
            prev_w = usize::MAX;
        } else if c as u32 == 0xFE0F && prev_w == 1 {
            col = col + 1;
            prev_w = 2;
        } else {
            let w = of_char(c);
            col = col + w;
            prev_w = w;
        }
        i = i + 1;
    }
    proof {
        assert(s@.take(i as int) == s@);
    }
    col
}


/// Law: a character of width 1 (other than VS-16) followed by VS-16 adds
/// exactly two columns to any text: the selector upgrades it to an emoji.
pub proof fn law_vs16_widens_to_two(s: Seq<char>, c: char)
    requires
        c as u32 != 0xFE0F,
        char_cols(c) == 1,
    ensures
        str_cols(s.push(c).push('\u{FE0F}')) == str_cols(s) + 2,
{
    let t = s.push(c);
    let u = t.push('\u{FE0F}');
    assert(u.drop_last() == t);
    assert(t.drop_last() == s);
    assert(scan(t) == (scan(s).0 + 1, 1int));
}


/// Law: outside the VS-16 rule, a character adds its own width: appending a
/// character other than U+FE0F widens a text by exactly `char_cols` of it.
pub proof fn law_char_adds_its_width(s: Seq<char>, c: char)
    requires
        c as u32 != 0xFE0F,
    ensures
        str_cols(s.push(c)) == str_cols(s) + char_cols(c),
{
    assert(s.push(c).drop_last() == s);
}

/// Law: outside tabs and the VS-16 rule, the tab-aware width also grows by
/// each character's own width.
pub proof fn law_tab_width_adds_char_width(s: Seq<char>, c: char)
    requires
        c != '\t',
        c as u32 != 0xFE0F,
    ensures
        str_cols_tabs(s.push(c)) == str_cols_tabs(s) + char_cols(c),
{
    assert(s.push(c).drop_last() == s);
}

proof fn lemma_tab_free_scans_agree(s: Seq<char>)
    requires
        forall|i: int| 0 <= i < s.len() ==> s[i] != '\t',
    ensures
        tab_scan(s) == scan(s),
    decreases s.len(),
{
    if s.len() > 0 {
        let d = s.drop_last();
        assert forall|i: int| 0 <= i < d.len() implies d[i] != '\t' by {
            assert(d[i] == s[i]);
        }
        lemma_tab_free_scans_agree(d);
        assert(s.last() == s[s.len() - 1]);
    }
}

/// Law: a text without tabs has the same tab-aware width as plain width:
/// wide characters count 2 in both, and only tabs make them differ.
pub proof fn law_tab_free_widths_agree(s: Seq<char>)
    requires
        forall|i: int| 0 <= i < s.len() ==> s[i] != '\t',
    ensures
        str_cols_tabs(s) == str_cols(s),
{
    lemma_tab_free_scans_agree(s);
}

} // verus!
