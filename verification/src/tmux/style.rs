//! Parse a tmux-style string like "fg=green,bold" into ANSI SGR sequences.
//!
//! Supported colors: black(0) red(1) green(2) yellow(3) blue(4) magenta(5)
//! cyan(6) white(7), `default`, and colour<N> for 256-color.
//! Supported attributes: bold, dim, underscore, reverse, italics, bright
//! (alias for bold).
use vstd::prelude::*;
use crate::text::{
    decimal, decimal_string, is_space, split_by, split_where, str_eq, strip_prefix, string_views,
    trim, trim_str,
};

verus! {

/// The SGR escape sequence `ESC [ <params> m`.
pub open spec fn sgr(params: Seq<char>) -> Seq<char> {
    seq!['\u{1b}', '['] + params + seq!['m']
}

/// The code of a named color.
pub open spec fn named_color(c: Seq<char>) -> Option<nat> {
    if c == "black"@ {
        Some(0)
    } else if c == "red"@ {
        Some(1)
    } else if c == "green"@ {
        Some(2)
    } else if c == "yellow"@ {
        Some(3)
    } else if c == "blue"@ {
        Some(4)
    } else if c == "magenta"@ {
        Some(5)
    } else if c == "cyan"@ {
        Some(6)
    } else if c == "white"@ {
        Some(7)
    } else {
        None
    }
}

/// The value of a string of decimal digits.
pub open spec fn digits_value(s: Seq<char>) -> nat
    decreases s.len(),
{
    if s.len() == 0 {
        0
    } else {
        digits_value(s.drop_last()) * 10 + ((s.last() as u32) - ('0' as u32)) as nat
    }
}

pub open spec fn is_digit(c: char) -> bool {
    '0' <= c && c <= '9'
}

/// A number's text without its optional leading `+`.
pub open spec fn unsigned_part(s: Seq<char>) -> Seq<char> {
    if s.len() > 0 && s[0] == '+' {
        s.drop_first()
    } else {
        s
    }
}

pub open spec fn all_digits(d: Seq<char>) -> bool {
    forall|i: int| 0 <= i < d.len() ==> is_digit(#[trigger] d[i])
}

/// `u8::from_str`: an optional `+`, then one or more decimal digits whose
/// value is at most 255.
pub open spec fn parse_u8(s: Seq<char>) -> Option<u8> {
    let d = unsigned_part(s);
    if d.len() > 0 && all_digits(d) && digits_value(d) <= 255 {
        Some(digits_value(d) as u8)
    } else {
        None
    }
}

proof fn lemma_digits_value_grows(s: Seq<char>, k: int)
    requires
        0 <= k <= s.len(),
        forall|i: int| 0 <= i < s.len() ==> is_digit(#[trigger] s[i]),
    ensures
        digits_value(s.take(k)) <= digits_value(s),
    decreases s.len() - k,
{
    if k < s.len() {
        lemma_digits_value_grows(s, k + 1);
        assert(s.take(k + 1).drop_last() == s.take(k));
    } else {
        assert(s.take(k) == s);
    }
}

/// Parses a `u8` as `str::parse::<u8>` does.
pub fn parse_u8_str(s: &str) -> (res: Option<u8>)
    ensures
        res == parse_u8(s@),
{
    let x = crate::text::str_chars(s);
    let start: usize = if x.len() > 0 && x[0] == '+' {
        1
    } else {
        0
    };
    let ghost d = unsigned_part(s@);
    proof {
        assert(d == x@.skip(start as int));
    }
    if start == x.len() {
        return None;
    }
    let mut value: u32 = 0;
    let mut i = start;
    while i < x.len()
        invariant
            x@ == s@,
            d == unsigned_part(s@),
            d == x@.skip(start as int),
            start <= i <= x.len(),
            start < x.len(),
            value <= 255,
            forall|k: int| 0 <= k < i - start ==> is_digit(#[trigger] d[k]),
            value == digits_value(d.take(i - start)),
        decreases x.len() - i,
    {
        let c = x[i];
        proof {
            assert(d[i - start] == c);
        }
        if !('0' <= c && c <= '9') {
            proof {
                assert(!is_digit(d[i - start]));
                assert(!all_digits(d));
                assert(d == unsigned_part(s@));
                assert(parse_u8(s@) is None);
            }
            return None;
        }
        proof {
            assert(d.take(i - start + 1).drop_last() == d.take(i - start));
            assert(d.take(i - start + 1).last() == c);
        }
        value = value * 10 + (c as u32 - '0' as u32);
        if value > 255 {
            proof {
                if parse_u8(s@) is Some {
                    assert(d == unsigned_part(s@));
                    assert(all_digits(d));
                    lemma_digits_value_grows(d, i - start + 1);
                    assert(false);
                }
            }
            return None;
        }
        i = i + 1;
    }
    proof {
        assert(d.take(i - start) == d);
    }
    Some(value as u8)
}

/// The SGR sequence for a color, or nothing for an unknown color.
pub open spec fn color_code(color: Seq<char>, bg: bool) -> Seq<char> {
    let base: nat = if bg {
        40
    } else {
        30
    };
    let num = if color.len() >= 6 && color.take(6) == "colour"@ {
        Some(color.skip(6))
    } else if color.len() >= 5 && color.take(5) == "color"@ {
        Some(color.skip(5))
    } else {
        None
    };
    if color == "default"@ {
        sgr(decimal(base + 9))
    } else if num is Some && parse_u8(num->0) is Some {
        sgr(decimal(if bg { 48nat } else { 38nat }) + seq![';', '5', ';'] + decimal(
            parse_u8(num->0)->0 as nat,
        ))
    } else if named_color(color) is Some {
        sgr(decimal(base + named_color(color)->0))
    } else {
        seq![]
    }
}

/// The SGR code of an attribute.
pub open spec fn attr_code(attr: Seq<char>) -> Option<nat> {
    if attr == "bold"@ || attr == "bright"@ {
        Some(1)
    } else if attr == "dim"@ {
        Some(2)
    } else if attr == "underscore"@ {
        Some(4)
    } else if attr == "reverse"@ {
        Some(7)
    } else if attr == "italics"@ {
        Some(3)
    } else {
        None
    }
}

/// The SGR sequence for one style token.
pub open spec fn token_code(token: Seq<char>) -> Seq<char> {
    if token.len() >= 3 && token.take(3) == "fg="@ {
        color_code(token.skip(3), false)
    } else if token.len() >= 3 && token.take(3) == "bg="@ {
        color_code(token.skip(3), true)
    } else if attr_code(token) is Some {
        sgr(decimal(attr_code(token)->0))
    } else {
        seq![]
    }
}

/// The SGR sequences of the tokens of a style, each trimmed of white space.
pub open spec fn style_codes(tokens: Seq<Seq<char>>) -> Seq<char>
    decreases tokens.len(),
{
    if tokens.len() == 0 {
        seq![]
    } else {
        style_codes(tokens.drop_last()) + token_code(trim(tokens.last()))
    }
}

/// The ANSI sequences for a tmux style: its tokens, separated by spaces or
/// commas, each turned into an SGR sequence in order.
pub open spec fn style_sgr(input: Seq<char>) -> Seq<char> {
    style_codes(split_by(input, |c: char| c == ' ' || c == ','))
}

pub(crate) fn sgr_string(params: String) -> (res: String)
    ensures
        res@ == sgr(params@),
{
    let mut s = String::new();
    crate::outside::push_char(&mut s, '\u{1b}');
    crate::outside::push_char(&mut s, '[');
    s.append(params.as_str());
    crate::outside::push_char(&mut s, 'm');
    proof {
        assert(s@ == sgr(params@));
    }
    s
}

fn named_color_code(color: &str) -> (res: Option<usize>)
    ensures
        res matches Some(c) ==> named_color(color@) == Some(c as nat),
        res is None ==> named_color(color@) is None,
{
    if str_eq(color, "black") {
        Some(0)
    } else if str_eq(color, "red") {
        Some(1)
    } else if str_eq(color, "green") {
        Some(2)
    } else if str_eq(color, "yellow") {
        Some(3)
    } else if str_eq(color, "blue") {
        Some(4)
    } else if str_eq(color, "magenta") {
        Some(5)
    } else if str_eq(color, "cyan") {
        Some(6)
    } else if str_eq(color, "white") {
        Some(7)
    } else {
        None
    }
}

/// The SGR sequence for a foreground (`bg == false`) or background color.
fn color_sgr(color: &str, bg: bool) -> (res: String)
    ensures
        res@ == color_code(color@, bg),
{
    let base: usize = if bg {
        40
    } else {
        30
    };
    if str_eq(color, "default") {
        return sgr_string(decimal_string(base + 9));
    }
    let num = match strip_prefix(color, "colour") {
        Some(rest) => Some(rest),
        None => strip_prefix(color, "color"),
    };
    proof {
        reveal_strlit("colour");
        reveal_strlit("color");
        if color@.len() >= 6 && color@.take(6) == "colour"@ {
            assert("colour"@.is_prefix_of(color@));
        }
        if "colour"@.is_prefix_of(color@) {
            assert(color@.take(6) == "colour"@);
        }
        if color@.len() >= 5 && color@.take(5) == "color"@ {
            assert("color"@.is_prefix_of(color@));
        }
        if "color"@.is_prefix_of(color@) {
            assert(color@.take(5) == "color"@);
        }
    }
    if let Some(n) = &num {
        if let Some(v) = parse_u8_str(n.as_str()) {
            let layer: usize = if bg {
                48
            } else {
                38
            };
            let mut params = decimal_string(layer);
            crate::outside::push_char(&mut params, ';');
            crate::outside::push_char(&mut params, '5');
            crate::outside::push_char(&mut params, ';');
            let digits = decimal_string(v as usize);
            params.append(digits.as_str());
            return sgr_string(params);
        }
    }
    match named_color_code(color) {
        Some(code) => sgr_string(decimal_string(base + code)),
        None => String::new(),
    }
}

/// The SGR sequence for an attribute, or nothing for an unknown one.
fn attr_sgr(attr: &str) -> (res: String)
    ensures
        res@ == (match attr_code(attr@) {
            Some(c) => sgr(decimal(c)),
            None => seq![],
        }),
{
    if str_eq(attr, "bold") || str_eq(attr, "bright") {
        sgr_string(decimal_string(1))
    } else if str_eq(attr, "dim") {
        sgr_string(decimal_string(2))
    } else if str_eq(attr, "underscore") {
        sgr_string(decimal_string(4))
    } else if str_eq(attr, "reverse") {
        sgr_string(decimal_string(7))
    } else if str_eq(attr, "italics") {
        sgr_string(decimal_string(3))
    } else {
        String::new()
    }
}

/// Parse a tmux-style string like "fg=green,bold" and return ANSI SGR sequences.
pub fn parse_style(input: &str) -> (res: String)
    ensures
        res@ == style_sgr(input@),
{
    let tokens = split_where(input, ' ', ',');
    let ghost tv = string_views(tokens@);
    let mut out = String::new();
    let mut i: usize = 0;
    while i < tokens.len()
        invariant
            tv == string_views(tokens@),
            i <= tokens.len(),
            out@ == style_codes(tv.take(i as int)),
        decreases tokens.len() - i,
    {
        let token = trim_str(tokens[i].as_str());
        proof {
            assert(tv.take(i + 1).drop_last() == tv.take(i as int));
            assert(tv.take(i + 1).last() == tokens@[i as int]@);
        }
        let piece = if let Some(rest) = strip_prefix(token.as_str(), "fg=") {
            color_sgr(rest.as_str(), false)
        } else if let Some(rest) = strip_prefix(token.as_str(), "bg=") {
            color_sgr(rest.as_str(), true)
        } else {
            attr_sgr(token.as_str())
        };
        proof {
            reveal_strlit("fg=");
            reveal_strlit("bg=");
            let t = token@;
            if t.len() >= 3 && t.take(3) == "fg="@ {
                assert("fg="@.is_prefix_of(t));
            }
            if "fg="@.is_prefix_of(t) {
                assert(t.take(3) == "fg="@);
            }
            if t.len() >= 3 && t.take(3) == "bg="@ {
                assert("bg="@.is_prefix_of(t));
            }
            if "bg="@.is_prefix_of(t) {
                assert(t.take(3) == "bg="@);
            }
        }
        out.append(piece.as_str());
        i = i + 1;
    }
    proof {
        assert(tv.take(i as int) == tv);
    }
    out
}


proof fn lemma_split_at_separator(a: Seq<char>, c: char, b: Seq<char>, sep: spec_fn(char) -> bool)
    requires
        sep(c),
    ensures
        split_by(a + seq![c] + b, sep) == split_by(a, sep) + split_by(b, sep),
    decreases b.len(),
{
    if b.len() == 0 {
        assert(a + seq![c] + b == (a + seq![c]));
        assert((a + seq![c]).drop_last() == a);
        assert(split_by(a, sep).push(Seq::<char>::empty()) =~= split_by(a, sep) + split_by(b, sep));
    } else {
        let d = b.drop_last();
        lemma_split_at_separator(a, c, d, sep);
        crate::text::lemma_split_nonempty(d, sep);
        let whole = a + seq![c] + b;
        assert(whole.drop_last() =~= a + seq![c] + d);
        assert(whole.last() == b.last());
        let sa = split_by(a, sep);
        let sd = split_by(d, sep);
        if sep(b.last()) {
            assert((sa + sd).push(Seq::<char>::empty()) =~= sa + sd.push(Seq::<char>::empty()));
        } else {
            assert((sa + sd).update((sa + sd).len() - 1, (sa + sd).last().push(b.last())) =~= sa + sd.update(
                sd.len() - 1,
                sd.last().push(b.last()),
            ));
        }
    }
}

proof fn lemma_style_codes_append(x: Seq<Seq<char>>, y: Seq<Seq<char>>)
    ensures
        style_codes(x + y) == style_codes(x) + style_codes(y),
    decreases y.len(),
{
    if y.len() == 0 {
        assert(x + y =~= x);
        assert(style_codes(x) + Seq::<char>::empty() =~= style_codes(x));
    } else {
        lemma_style_codes_append(x, y.drop_last());
        assert((x + y).drop_last() =~= x + y.drop_last());
        assert((x + y).last() == y.last());
        assert(style_codes(x) + style_codes(y.drop_last()) + token_code(trim(y.last())) =~= style_codes(x) + (
        style_codes(y.drop_last()) + token_code(trim(y.last()))));
    }
}

/// Law: the style of two styles joined by a comma is the first's sequences
/// followed by the second's.
pub proof fn law_style_of_joined_pair(a: Seq<char>, b: Seq<char>)
    ensures
        style_sgr(a + seq![','] + b) == style_sgr(a) + style_sgr(b),
{
    let sep = |c: char| c == ' ' || c == ',';
    lemma_split_at_separator(a, ',', b, sep);
    lemma_style_codes_append(split_by(a, sep), split_by(b, sep));
}


/// The eight named colours in ANSI order, as the style syntax documents
/// them: black 0, red 1, green 2, yellow 3, blue 4, magenta 5, cyan 6,
/// white 7.
pub open spec fn ansi_color_names() -> Seq<Seq<char>> {
    seq!["black"@, "red"@, "green"@, "yellow"@, "blue"@, "magenta"@, "cyan"@, "white"@]
}

/// Law: the `k`-th named colour is ANSI colour `k`: as a foreground it is
/// `ESC[3km`, as a background `ESC[4km`; so distinct names give distinct
/// codes.
pub proof fn law_named_colors_in_ansi_order(k: int)
    requires
        0 <= k < 8,
    ensures
        named_color(ansi_color_names()[k]) == Some(k as nat),
        color_code(ansi_color_names()[k], false) == sgr(decimal((30 + k) as nat)),
        color_code(ansi_color_names()[k], true) == sgr(decimal((40 + k) as nat)),
        forall|j: int| 0 <= j < 8 && j != k ==> named_color(ansi_color_names()[j]) != named_color(ansi_color_names()[k]),
{
    reveal_strlit("black");
    reveal_strlit("red");
    reveal_strlit("green");
    reveal_strlit("yellow");
    reveal_strlit("blue");
    reveal_strlit("magenta");
    reveal_strlit("cyan");
    reveal_strlit("white");
    reveal_strlit("default");
    reveal_strlit("colour");
    reveal_strlit("color");
    let names = ansi_color_names();
    assert forall|j: int| 0 <= j < 8 implies named_color(#[trigger] names[j]) == Some(j as nat) by {
        if j == 0 {
            assert(names[j] == "black"@);
        } else if j == 1 {
            assert(names[j] == "red"@);
            assert("red"@.len() != "black"@.len());
        } else if j == 2 {
            assert(names[j] == "green"@);
            assert("green"@[0] != "black"@[0]);
            assert("green"@.len() != "red"@.len());
        } else if j == 3 {
            assert(names[j] == "yellow"@);
            assert("yellow"@.len() != "black"@.len());
            assert("yellow"@.len() != "red"@.len());
            assert("yellow"@.len() != "green"@.len());
        } else if j == 4 {
            assert(names[j] == "blue"@);
            assert("blue"@.len() != "black"@.len());
            assert("blue"@.len() != "red"@.len());
            assert("blue"@.len() != "green"@.len());
            assert("blue"@.len() != "yellow"@.len());
        } else if j == 5 {
            assert(names[j] == "magenta"@);
            assert("magenta"@.len() != "black"@.len());
            assert("magenta"@.len() != "red"@.len());
            assert("magenta"@.len() != "green"@.len());
            assert("magenta"@.len() != "yellow"@.len());
            assert("magenta"@.len() != "blue"@.len());
        } else if j == 6 {
            assert(names[j] == "cyan"@);
            assert("cyan"@.len() != "black"@.len());
            assert("cyan"@.len() != "red"@.len());
            assert("cyan"@.len() != "green"@.len());
            assert("cyan"@.len() != "yellow"@.len());
            assert("cyan"@[0] != "blue"@[0]);
            assert("cyan"@.len() != "magenta"@.len());
        } else if j == 7 {
            assert(names[j] == "white"@);
            assert("white"@[0] != "black"@[0]);
            assert("white"@.len() != "red"@.len());
            assert("white"@[0] != "green"@[0]);
            assert("white"@.len() != "yellow"@.len());
            assert("white"@.len() != "blue"@.len());
            assert("white"@.len() != "magenta"@.len());
            assert("white"@.len() != "cyan"@.len());
        }
    }
    let c = names[k];
    assert(c != "default"@) by {
        assert(c.len() != 7 || c[0] != 'd');
    }
    assert(!(c.len() >= 6 && c.take(6) == "colour"@)) by {
        if c.len() >= 6 && c.take(6) == "colour"@ {
            assert(c.take(6)[1] == 'o');
            assert(c[1] == 'o');
        }
    }
    assert(!(c.len() >= 5 && c.take(5) == "color"@)) by {
        if c.len() >= 5 && c.take(5) == "color"@ {
            assert(c.take(5)[1] == 'o');
            assert(c[1] == 'o');
        }
    }
}

} // verus!
