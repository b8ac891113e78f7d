//! Small verified helpers over `str` and `String`.
use vstd::prelude::*;
use vstd::utf8::*;
use vstd::string::*;

verus! {

broadcast use vstd::utf8::encode_utf8_valid_utf8, vstd::utf8::encode_utf8_decode_utf8;

/// The characters encoded by a byte range of a UTF-8 text.
pub open spec fn chars_of(bytes: Seq<u8>, a: int, b: int) -> Seq<char> {
    decode_utf8(bytes.subrange(a, b))
}

/// The bytes of a string are valid UTF-8 and decode back to its characters.
pub proof fn lemma_str_bytes(s: &str)
    ensures
        valid_utf8(s.spec_bytes()),
        decode_utf8(s.spec_bytes()) == s@,
{
}

/// Splits a string at a character boundary of its UTF-8 bytes.
pub fn split_str(s: &str, mid: usize) -> (res: (&str, &str))
    requires
        is_char_boundary(s.spec_bytes(), mid as int),
    ensures
        res.0.spec_bytes() == s.spec_bytes().subrange(0, mid as int),
        res.1.spec_bytes() == s.spec_bytes().subrange(mid as int, s.spec_bytes().len() as int),
        res.0@ == chars_of(s.spec_bytes(), 0, mid as int),
        res.1@ == chars_of(s.spec_bytes(), mid as int, s.spec_bytes().len() as int),
        s@ == res.0@ + res.1@,
        mid <= s.spec_bytes().len(),
{
    proof {
        lemma_str_bytes(s);
        decode_utf8_split(s.spec_bytes(), mid as int);
        reveal_with_fuel(is_char_boundary, 1);
    }
    let (a, b) = s.split_at(mid);
    proof {
        lemma_str_bytes(a);
        lemma_str_bytes(b);
    }
    (a, b)
}

/// The characters of a string, in order.
pub fn str_chars(s: &str) -> (v: Vec<char>)
    ensures
        v@ == s@,
{
    let mut v: Vec<char> = Vec::new();
    for c in it: s.chars()
        invariant
            it.seq() == s@,
            v@ == it.seq().take(it.index() as int),
    {
        v.push(c);
    }
    v
}


/// A string holding exactly the given characters.
pub fn string_from(cs: &[char], a: usize, b: usize) -> (res: String)
    requires
        a <= b <= cs@.len(),
    ensures
        res@ == cs@.subrange(a as int, b as int),
{
    let mut res = String::new();
    let mut i = a;
    while i < b
        invariant
            a <= i <= b <= cs@.len(),
            res@ == cs@.subrange(a as int, i as int),
        decreases b - i,
    {
        crate::outside::push_char(&mut res, cs[i]);
        proof {
            assert(cs@.subrange(a as int, i + 1) == cs@.subrange(a as int, i as int).push(cs@[i as int]));
        }
        i = i + 1;
    }
    res
}

/// A copy of a string slice.
pub fn to_string(s: &str) -> (res: String)
    ensures
        res@ == s@,
{
    let cs = str_chars(s);
    proof {
        assert(cs@.subrange(0, cs@.len() as int) == cs@);
    }
    string_from(cs.as_slice(), 0, cs.len())
}

/// Two strings hold the same characters.
pub fn str_eq(a: &str, b: &str) -> (res: bool)
    ensures
        res == (a@ == b@),
{
    let x = str_chars(a);
    let y = str_chars(b);
    if x.len() != y.len() {
        return false;
    }
    let mut i: usize = 0;
    while i < x.len()
        invariant
            x@ == a@,
            y@ == b@,
            x.len() == y.len(),
            i <= x.len(),
            forall|k: int| 0 <= k < i ==> x@[k] == y@[k],
        decreases x.len() - i,
    {
        if x[i] != y[i] {
            return false;
        }
        i = i + 1;
    }
    proof {
        assert(x@ =~= y@);
    }
    true
}

/// `s` begins with `prefix`.
pub fn starts_with(s: &str, prefix: &str) -> (res: bool)
    ensures
        res == prefix@.is_prefix_of(s@),
{
    let x = str_chars(s);
    let p = str_chars(prefix);
    if p.len() > x.len() {
        return false;
    }
    let mut i: usize = 0;
    while i < p.len()
        invariant
            x@ == s@,
            p@ == prefix@,
            p.len() <= x.len(),
            i <= p.len(),
            forall|k: int| 0 <= k < i ==> p@[k] == x@[k],
        decreases p.len() - i,
    {
        if p[i] != x[i] {
            proof {
                assert(x@.subrange(0, p@.len() as int)[i as int] == x@[i as int]);
            }
            return false;
        }
        i = i + 1;
    }
    proof {
        assert(p@ =~= x@.subrange(0, p@.len() as int));
    }
    true
}

/// `s` without `prefix`, if it begins with it.
pub fn strip_prefix(s: &str, prefix: &str) -> (res: Option<String>)
    ensures
        res is Some <==> prefix@.is_prefix_of(s@),
        res matches Some(r) ==> r@ == s@.skip(prefix@.len() as int),
{
    if starts_with(s, prefix) {
        let x = str_chars(s);
        let n = prefix.unicode_len();
        Some(string_from(x.as_slice(), n, x.len()))
    } else {
        None
    }
}

/// The decimal digits of a number.
pub open spec fn decimal(n: nat) -> Seq<char>
    decreases n,
{
    if n < 10 {
        seq![(('0' as u32) + n) as char]
    } else {
        decimal(n / 10).push((('0' as u32) + (n % 10)) as char)
    }
}

/// The decimal text of a number.
pub fn decimal_string(n: usize) -> (res: String)
    ensures
        res@ == decimal(n as nat),
    decreases n,
{
    if n < 10 {
        let mut s = String::new();
        crate::outside::push_char(&mut s, char_of_digit(n as u32));
        s
    } else {
        let mut s = decimal_string(n / 10);
        crate::outside::push_char(&mut s, char_of_digit((n % 10) as u32));
        s
    }
}

fn char_of_digit(d: u32) -> (c: char)
    requires
        d < 10,
    ensures
        c == ((('0' as u32) + d) as char),
{
    if d == 0 { '0' }
    else if d == 1 { '1' }
    else if d == 2 { '2' }
    else if d == 3 { '3' }
    else if d == 4 { '4' }
    else if d == 5 { '5' }
    else if d == 6 { '6' }
    else if d == 7 { '7' }
    else if d == 8 { '8' }
    else { '9' }
}

/// Characters with the Unicode `White_Space` property, which `char::is_whitespace`
/// and `str::trim` go by.
pub open spec fn is_space(c: char) -> bool {
    let u = c as u32;
    (0x09 <= u && u <= 0x0D) || u == 0x20 || u == 0x85 || u == 0xA0 || u == 0x1680 || (0x2000 <= u
        && u <= 0x200A) || u == 0x2028 || u == 0x2029 || u == 0x202F || u == 0x205F || u == 0x3000
}

pub fn is_space_char(c: char) -> (res: bool)
    ensures
        res == is_space(c),
{
    let u = c as u32;
    (0x09 <= u && u <= 0x0D) || u == 0x20 || u == 0x85 || u == 0xA0 || u == 0x1680 || (0x2000 <= u
        && u <= 0x200A) || u == 0x2028 || u == 0x2029 || u == 0x202F || u == 0x205F || u == 0x3000
}

/// Number of leading characters of `s` that satisfy `p`.
pub open spec fn lead_count(s: Seq<char>, p: spec_fn(char) -> bool) -> nat
    decreases s.len(),
{
    if s.len() == 0 || !p(s[0]) {
        0
    } else {
        1 + lead_count(s.drop_first(), p)
    }
}

/// Number of trailing characters of `s` that satisfy `p`.
pub open spec fn trail_count(s: Seq<char>, p: spec_fn(char) -> bool) -> nat
    decreases s.len(),
{
    if s.len() == 0 || !p(s.last()) {
        0
    } else {
        1 + trail_count(s.drop_last(), p)
    }
}

proof fn lemma_lead_count(s: Seq<char>, p: spec_fn(char) -> bool)
    ensures
        lead_count(s, p) <= s.len(),
        forall|k: int| 0 <= k < lead_count(s, p) ==> p(#[trigger] s[k]),
        lead_count(s, p) < s.len() ==> !p(s[lead_count(s, p) as int]),
    decreases s.len(),
{
    if s.len() > 0 && p(s[0]) {
        lemma_lead_count(s.drop_first(), p);
        assert forall|k: int| 0 <= k < lead_count(s, p) implies p(#[trigger] s[k]) by {
            if k > 0 {
                assert(s[k] == s.drop_first()[k - 1]);
            }
        }
    }
}

pub proof fn lemma_lead_count_is(s: Seq<char>, p: spec_fn(char) -> bool, n: int)
    requires
        0 <= n <= s.len(),
        forall|k: int| 0 <= k < n ==> p(#[trigger] s[k]),
        n < s.len() ==> !p(s[n]),
    ensures
        lead_count(s, p) == n,
    decreases s.len(),
{
    if n > 0 {
        assert forall|k: int| 0 <= k < n - 1 implies p(#[trigger] s.drop_first()[k]) by {
            assert(s.drop_first()[k] == s[k + 1]);
        }
        lemma_lead_count_is(s.drop_first(), p, n - 1);
    }
}

pub proof fn lemma_trail_count_is(s: Seq<char>, p: spec_fn(char) -> bool, n: int)
    requires
        0 <= n <= s.len(),
        forall|k: int| s.len() - n <= k < s.len() ==> p(#[trigger] s[k]),
        n < s.len() ==> !p(s[s.len() - n - 1]),
    ensures
        trail_count(s, p) == n,
    decreases s.len(),
{
    if n > 0 {
        assert forall|k: int| s.len() - 1 - (n - 1) <= k < s.len() - 1 implies p(
            #[trigger] s.drop_last()[k],
        ) by {
            assert(s.drop_last()[k] == s[k]);
        }
        lemma_trail_count_is(s.drop_last(), p, n - 1);
    }
}

/// `s` without its leading and trailing characters that satisfy `p`.
pub open spec fn trim_by(s: Seq<char>, p: spec_fn(char) -> bool) -> Seq<char> {
    let a = lead_count(s, p);
    let rest = s.skip(a as int);
    rest.take(rest.len() - trail_count(rest, p))
}

/// `s` without leading and trailing white space (`str::trim`).
pub open spec fn trim(s: Seq<char>) -> Seq<char> {
    trim_by(s, |c: char| is_space(c))
}

/// `s` without leading and trailing white space.
pub fn trim_str(s: &str) -> (res: String)
    ensures
        res@ == trim(s@),
{
    let x = str_chars(s);
    let ghost p = |c: char| is_space(c);
    let mut a: usize = 0;
    while a < x.len() && is_space_char(x[a])
        invariant
            x@ == s@,
            a <= x.len(),
            p == (|d: char| is_space(d)),
            forall|k: int| 0 <= k < a ==> p(#[trigger] x@[k]),
        decreases x.len() - a,
    {
        a = a + 1;
    }
    let mut b: usize = x.len();
    while b > a && is_space_char(x[b - 1])
        invariant
            x@ == s@,
            a <= b <= x.len(),
            p == (|d: char| is_space(d)),
            forall|k: int| b <= k < x.len() ==> p(#[trigger] x@[k]),
        decreases b,
    {
        b = b - 1;
    }
    proof {
        lemma_lead_count_is(s@, p, a as int);
        let rest = s@.skip(a as int);
        assert forall|k: int| rest.len() - (x.len() - b) <= k < rest.len() implies p(#[trigger] rest[k]) by {
            assert(rest[k] == x@[k + a]);
        }
        if b > a {
            assert(rest[rest.len() - (x.len() - b) - 1] == x@[b - 1]);
        }
        lemma_trail_count_is(rest, p, (x.len() - b) as int);
        assert(rest.take(rest.len() - (x.len() - b)) =~= x@.subrange(a as int, b as int));
    }
    string_from(x.as_slice(), a, b)
}

/// `s` without leading and trailing copies of the character `c`.
pub fn trim_matches_char(s: &str, c: char) -> (res: String)
    ensures
        res@ == trim_by(s@, |d: char| d == c),
{
    let x = str_chars(s);
    let ghost p = |d: char| d == c;
    let mut a: usize = 0;
    while a < x.len() && x[a] == c
        invariant
            x@ == s@,
            a <= x.len(),
            p == (|d: char| d == c),
            forall|k: int| 0 <= k < a ==> p(#[trigger] x@[k]),
        decreases x.len() - a,
    {
        a = a + 1;
    }
    let mut b: usize = x.len();
    while b > a && x[b - 1] == c
        invariant
            x@ == s@,
            a <= b <= x.len(),
            p == (|d: char| d == c),
            forall|k: int| b <= k < x.len() ==> p(#[trigger] x@[k]),
        decreases b,
    {
        b = b - 1;
    }
    proof {
        lemma_lead_count_is(s@, p, a as int);
        let rest = s@.skip(a as int);
        assert forall|k: int| rest.len() - (x.len() - b) <= k < rest.len() implies p(#[trigger] rest[k]) by {
            assert(rest[k] == x@[k + a]);
        }
        if b > a {
            assert(rest[rest.len() - (x.len() - b) - 1] == x@[b - 1]);
        }
        lemma_trail_count_is(rest, p, (x.len() - b) as int);
        assert(rest.take(rest.len() - (x.len() - b)) =~= x@.subrange(a as int, b as int));
    }
    string_from(x.as_slice(), a, b)
}

/// The pieces of `s` between the characters that satisfy `sep` (`str::split`):
/// always at least one piece.
pub open spec fn split_by(s: Seq<char>, sep: spec_fn(char) -> bool) -> Seq<Seq<char>>
    decreases s.len(),
{
    if s.len() == 0 {
        seq![Seq::<char>::empty()]
    } else {
        let parts = split_by(s.drop_last(), sep);
        if sep(s.last()) {
            parts.push(Seq::<char>::empty())
        } else {
            parts.update(parts.len() - 1, parts.last().push(s.last()))
        }
    }
}

pub proof fn lemma_split_nonempty(s: Seq<char>, sep: spec_fn(char) -> bool)
    ensures
        split_by(s, sep).len() >= 1,
    decreases s.len(),
{
    if s.len() > 0 {
        lemma_split_nonempty(s.drop_last(), sep);
    }
}

/// The views of a list of strings.
pub open spec fn string_views(v: Seq<String>) -> Seq<Seq<char>> {
    v.map_values(|s: String| s@)
}

/// Splits `s` at every character equal to `c`.
pub fn split_char(s: &str, c: char) -> (res: Vec<String>)
    ensures
        string_views(res@) == split_by(s@, |d: char| d == c),
{
    let res = split_where(s, c, c);
    proof {
        assert((|d: char| d == c || d == c) =~= (|d: char| d == c));
    }
    res
}

/// Splits `s` at every character equal to `c1` or `c2`.
pub fn split_where(s: &str, c1: char, c2: char) -> (res: Vec<String>)
    ensures
        string_views(res@) == split_by(s@, |d: char| d == c1 || d == c2),
{
    let ghost sep = |d: char| d == c1 || d == c2;
    let x = str_chars(s);
    let mut out: Vec<String> = Vec::new();
    let mut start: usize = 0;
    let mut i: usize = 0;
    proof {
        assert(string_views(out@) =~= Seq::<Seq<char>>::empty());
        assert(x@.subrange(0, 0) =~= Seq::<char>::empty());
        assert(string_views(out@).push(x@.subrange(0, 0)) =~= seq![Seq::<char>::empty()]);
        assert(x@.take(0) =~= Seq::<char>::empty());
    }
    while i < x.len()
        invariant
            x@ == s@,
            start <= i <= x.len(),
            sep == (|d: char| d == c1 || d == c2),
            split_by(x@.take(i as int), sep) == string_views(out@).push(x@.subrange(start as int, i as int)),
        decreases x.len() - i,
    {
        proof {
            assert(x@.take(i + 1).drop_last() == x@.take(i as int));
            assert(x@.take(i + 1).last() == x@[i as int]);
        }
        if x[i] == c1 || x[i] == c2 {
            let piece = string_from(x.as_slice(), start, i);
            out.push(piece);
            start = i + 1;
            proof {
                assert(x@.subrange(start as int, i + 1) =~= Seq::<char>::empty());
            }
        } else {
            proof {
                assert(x@.subrange(start as int, i + 1) == x@.subrange(start as int, i as int).push(x@[i as int]));
            }
        }
        i = i + 1;
    }
    let last = string_from(x.as_slice(), start, x.len());
    out.push(last);
    proof {
        assert(x@.take(x@.len() as int) == s@);
    }
    out
}

/// The lines of `s` (`str::lines`): split at `'\n'`, a final empty piece
/// dropped, and a `'\r'` before each `'\n'` removed.
pub open spec fn lines(s: Seq<char>) -> Seq<Seq<char>> {
    let parts = split_by(s, |d: char| d == '\n');
    let kept = if parts.last().len() == 0 {
        parts.drop_last()
    } else {
        parts
    };
    Seq::new(
        kept.len(),
        |i: int|
            if i < parts.len() - 1 && kept[i].len() > 0 && kept[i].last() == '\r' {
                kept[i].drop_last()
            } else {
                kept[i]
            },
    )
}

/// The lines of a text.
pub fn lines_of(s: &str) -> (res: Vec<String>)
    ensures
        string_views(res@) == lines(s@),
{
    let parts = split_char(s, '\n');
    proof {
        lemma_split_nonempty(s@, |d: char| d == '\n');
    }
    let ghost pv = string_views(parts@);
    let n = parts.len();
    let keep = if parts[n - 1].as_str().unicode_len() == 0 {
        n - 1
    } else {
        n
    };
    let mut out: Vec<String> = Vec::new();
    let mut i: usize = 0;
    while i < keep
        invariant
            pv == string_views(parts@),
            pv == split_by(s@, |d: char| d == '\n'),
            n == parts.len(),
            keep <= n,
            keep == (if pv.last().len() == 0 { n - 1 } else { n as int }),
            i <= keep,
            forall|k: int| 0 <= k < i ==> #[trigger] string_views(out@)[k] == lines(s@)[k],
            out.len() == i,
        decreases keep - i,
    {
        let p = parts[i].as_str();
        let cs = str_chars(p);
        let line = if i < n - 1 && cs.len() > 0 && cs[cs.len() - 1] == '\r' {
            string_from(cs.as_slice(), 0, cs.len() - 1)
        } else {
            string_from(cs.as_slice(), 0, cs.len())
        };
        proof {
            if cs@.len() > 0 {
                assert(cs@.subrange(0, cs@.len() - 1) == cs@.drop_last());
            }
            assert(cs@.subrange(0, cs@.len() as int) == cs@);
            assert(pv[i as int] == parts@[i as int]@);
            let kept = if pv.last().len() == 0 { pv.drop_last() } else { pv };
            assert(kept[i as int] == pv[i as int]);
            assert(lines(s@)[i as int] == line@);
        }
        let ghost before = string_views(out@);
        out.push(line);
        proof {
            assert(string_views(out@) == before.push(line@));
            assert forall|k: int| 0 <= k < i + 1 implies #[trigger] string_views(out@)[k] == lines(s@)[k] by {
                if k < i {
                    assert(string_views(out@)[k] == before[k]);
                }
            }
        }
        i = i + 1;
    }
    proof {
        assert(string_views(out@) =~= lines(s@));
    }
    out
}


/// A character boundary of a text is a boundary of any suffix that starts
/// at an earlier boundary.
pub proof fn lemma_sub_boundary(b: Seq<u8>, s: int, e: int)
    requires
        valid_utf8(b),
        0 <= s <= e <= b.len(),
        is_char_boundary(b, s),
        is_char_boundary(b, e),
    ensures
        valid_utf8(b.subrange(s, b.len() as int)),
        is_char_boundary(b.subrange(s, b.len() as int), e - s),
{
    valid_utf8_split(b, s);
    let t = b.subrange(s, b.len() as int);
    if e < b.len() {
        is_char_boundary_iff_not_is_continuation_byte(b, e);
        assert(t[e - s] == b[e]);
        is_char_boundary_iff_not_is_continuation_byte(t, e - s);
    } else {
        is_char_boundary_start_end_of_seq(t);
    }
}

/// A text cut at two character boundaries decodes piece by piece.
pub proof fn lemma_decode_parts(b: Seq<u8>, s: int, e: int)
    requires
        valid_utf8(b),
        0 <= s <= e <= b.len(),
        is_char_boundary(b, s),
        is_char_boundary(b, e),
    ensures
        decode_utf8(b) == chars_of(b, 0, s) + chars_of(b, s, e) + chars_of(b, e, b.len() as int),
{
    decode_utf8_split(b, s);
    lemma_sub_boundary(b, s, e);
    let t = b.subrange(s, b.len() as int);
    decode_utf8_split(t, e - s);
    assert(t.subrange(0, e - s) == b.subrange(s, e));
    assert(t.subrange(e - s, t.len() as int) == b.subrange(e, b.len() as int));
}

/// The piece of a text that an offset marks is no longer than the text.
pub proof fn lemma_chars_of_len(b: Seq<u8>, offset: Option<(usize, usize)>)
    requires
        valid_utf8(b),
        offset matches Some((s, l)) ==> s + l <= b.len() && is_char_boundary(b, s as int)
            && is_char_boundary(b, s + l),
    ensures
        offset matches Some((s, l)) ==> chars_of(b, s as int, s + l).len() <= decode_utf8(b).len(),
{
    if let Some((s, l)) = offset {
        lemma_decode_parts(b, s as int, s + l);
    }
}


/// Every character takes one to four bytes.
pub proof fn lemma_encode_len(cs: Seq<char>)
    ensures
        cs.len() <= encode_utf8(cs).len() <= 4 * cs.len(),
    decreases cs.len(),
{
    if cs.len() > 0 {
        lemma_encode_len(cs.drop_first());
    }
}


/// The part of a string between two byte offsets on character boundaries.
pub fn substr(s: &str, a: usize, b: usize) -> (res: &str)
    requires
        a <= b <= s.spec_bytes().len(),
        is_char_boundary(s.spec_bytes(), a as int),
        is_char_boundary(s.spec_bytes(), b as int),
    ensures
        res.spec_bytes() == s.spec_bytes().subrange(a as int, b as int),
        res@ == chars_of(s.spec_bytes(), a as int, b as int),
{
    proof {
        lemma_sub_boundary(s.spec_bytes(), a as int, b as int);
    }
    let (_, tail) = split_str(s, a);
    let (mid, _) = split_str(tail, b - a);
    proof {
        let bs = s.spec_bytes();
        assert(bs.subrange(a as int, bs.len() as int).subrange(0, b - a) == bs.subrange(a as int, b as int));
    }
    mid
}


/// UTF-8 encoding distributes over concatenation.
pub proof fn lemma_encode_concat(a: Seq<char>, b: Seq<char>)
    ensures
        encode_utf8(a + b) == encode_utf8(a) + encode_utf8(b),
    decreases a.len(),
{
    if a.len() == 0 {
        assert(a + b == b);
        assert(encode_utf8(a) + encode_utf8(b) == encode_utf8(b));
    } else {
        lemma_encode_concat(a.drop_first(), b);
        assert((a + b).drop_first() == a.drop_first() + b);
        assert((a + b)[0] == a[0]);
    }
}

/// The end of the encoding of a prefix is a character boundary.
pub proof fn lemma_encode_boundary(a: Seq<char>, b: Seq<char>)
    ensures
        is_char_boundary(encode_utf8(a + b), encode_utf8(a).len() as int),
    decreases a.len(),
{
    lemma_encode_concat(a, b);
    let bytes = encode_utf8(a + b);
    if a.len() > 0 {
        encode_utf8_first_scalar(a + b);
        assert((a + b)[0] == a[0]);
        assert((a + b).drop_first() == a.drop_first() + b);
        let l = encode_scalar(a[0] as u32).len();
        assert(encode_utf8(a) == encode_scalar(a[0] as u32) + encode_utf8(a.drop_first()));
        assert(pop_first_scalar(bytes) == encode_utf8(a.drop_first() + b)) by {
            lemma_encode_concat(a.drop_first(), b);
            assert(bytes == encode_scalar(a[0] as u32) + encode_utf8(a.drop_first() + b));
            assert(bytes.subrange(l as int, bytes.len() as int) == encode_utf8(a.drop_first() + b));
        }
        lemma_encode_boundary(a.drop_first(), b);
        assert(encode_utf8(a).len() > 0) by {
            lemma_encode_len(a);
        }
    }
}

/// The byte offset of the character at position `k`, or the byte length
/// when there are not that many characters.
pub open spec fn char_pos_to_byte(cs: Seq<char>, k: int) -> int {
    encode_utf8(
        cs.take(
            if k < cs.len() {
                k
            } else {
                cs.len() as int
            },
        ),
    ).len() as int
}


/// The position of the first `c` in `s`, or -1.
pub open spec fn find_char(s: Seq<char>, c: char) -> int
    decreases s.len(),
{
    if s.len() == 0 {
        -1
    } else if s[0] == c {
        0
    } else if find_char(s.drop_first(), c) < 0 {
        -1
    } else {
        find_char(s.drop_first(), c) + 1
    }
}

proof fn lemma_find_char(s: Seq<char>, c: char, i: int)
    requires
        -1 <= i <= s.len(),
        0 <= i < s.len() ==> s[i] == c,
        forall|j: int| 0 <= j < s.len() && (i < 0 || j < i) ==> s[j] != c,
        i == s.len() ==> false,
    ensures
        find_char(s, c) == i,
    decreases s.len(),
{
    if s.len() > 0 && s[0] != c {
        assert forall|j: int| 0 <= j < s.drop_first().len() && (i - 1 < 0 || j < i - 1) implies s.drop_first()[j]
            != c by {
            assert(s.drop_first()[j] == s[j + 1]);
        }
        if i >= 1 {
            assert(s.drop_first()[i - 1] == s[i]);
        }
        lemma_find_char(s.drop_first(), c, if i < 0 {
            -1
        } else {
            i - 1
        });
    }
}

/// `s` cut at its first `c` (`str::split_once`): the text before and after.
pub open spec fn split_once(s: Seq<char>, c: char) -> Option<(Seq<char>, Seq<char>)> {
    let i = find_char(s, c);
    if i < 0 {
        None
    } else {
        Some((s.take(i), s.skip(i + 1)))
    }
}

/// Cuts `s` at its first `c`.
pub fn split_once_char(s: &str, c: char) -> (res: Option<(String, String)>)
    ensures
        match res {
            Some((a, b)) => split_once(s@, c) == Some((a@, b@)),
            None => split_once(s@, c) is None,
        },
{
    let x = str_chars(s);
    let mut i: usize = 0;
    while i < x.len()
        invariant
            x@ == s@,
            i <= x.len(),
            forall|j: int| 0 <= j < i ==> x@[j] != c,
        decreases x.len() - i,
    {
        if x[i] == c {
            proof {
                lemma_find_char(s@, c, i as int);
            }
            let head = string_from(x.as_slice(), 0, i);
            let tail = string_from(x.as_slice(), i + 1, x.len());
            proof {
                assert(head@ == s@.take(i as int));
                assert(tail@ == s@.skip(i + 1));
            }
            return Some((head, tail));
        }
        i = i + 1;
    }
    proof {
        lemma_find_char(s@, c, -1);
    }
    None
}

/// Cut at its first `c`, a text made of a piece without `c`, then `c`,
/// then anything, gives back the piece and the rest.
pub proof fn lemma_split_once_at(a: Seq<char>, b: Seq<char>, c: char)
    requires
        forall|i: int| 0 <= i < a.len() ==> a[i] != c,
    ensures
        split_once(a + seq![c] + b, c) == Some((a, b)),
{
    let s = a + seq![c] + b;
    lemma_find_char(s, c, a.len() as int);
    assert(s.take(a.len() as int) =~= a);
    assert(s.skip(a.len() as int + 1) =~= b);
}

/// A text without `c` is not cut.
pub proof fn lemma_split_once_none(s: Seq<char>, c: char)
    requires
        forall|i: int| 0 <= i < s.len() ==> s[i] != c,
    ensures
        split_once(s, c) is None,
{
    lemma_find_char(s, c, -1);
}

/// The pieces joined with `sep` between them (`[T]::join`).
pub open spec fn join(parts: Seq<Seq<char>>, sep: Seq<char>) -> Seq<char>
    decreases parts.len(),
{
    if parts.len() == 0 {
        seq![]
    } else if parts.len() == 1 {
        parts[0]
    } else {
        join(parts.drop_last(), sep) + sep + parts.last()
    }
}

/// Joins strings with `sep` between them.
pub fn join_strings(parts: &Vec<String>, sep: &str) -> (res: String)
    ensures
        res@ == join(string_views(parts@), sep@),
{
    let ghost pv = string_views(parts@);
    let mut out = String::new();
    let mut i: usize = 0;
    while i < parts.len()
        invariant
            pv == string_views(parts@),
            i <= parts.len(),
            out@ == join(pv.take(i as int), sep@),
        decreases parts.len() - i,
    {
        proof {
            assert(pv.take(i + 1).drop_last() == pv.take(i as int));
            assert(pv.take(i + 1).last() == parts@[i as int]@);
        }
        if i > 0 {
            out.append(sep);
        }
        out.append(parts[i].as_str());
        proof {
            if i == 0 {
                assert(pv.take(1) =~= seq![parts@[0]@]);
            }
        }
        i = i + 1;
    }
    proof {
        assert(pv.take(i as int) == pv);
    }
    out
}


/// An optional string as an optional text.
pub open spec fn opt_view(o: Option<String>) -> Option<Seq<char>> {
    match o {
        Some(s) => Some(s@),
        None => None,
    }
}


/// Appending text with no separator extends the last piece.
pub proof fn lemma_split_append(s: Seq<char>, t: Seq<char>, sep: spec_fn(char) -> bool)
    requires
        forall|i: int| 0 <= i < t.len() ==> !sep(#[trigger] t[i]),
    ensures
        split_by(s + t, sep) == split_by(s, sep).update(
            split_by(s, sep).len() - 1,
            split_by(s, sep).last() + t,
        ),
    decreases t.len(),
{
    lemma_split_nonempty(s, sep);
    if t.len() == 0 {
        assert(s + t == s);
        assert(split_by(s, sep).last() + t == split_by(s, sep).last());
        assert(split_by(s, sep).update(split_by(s, sep).len() - 1, split_by(s, sep).last()) =~= split_by(s, sep));
    } else {
        let t0 = t.drop_last();
        assert forall|i: int| 0 <= i < t0.len() implies !sep(#[trigger] t0[i]) by {
            assert(t0[i] == t[i]);
        }
        lemma_split_append(s, t0, sep);
        assert((s + t).drop_last() == s + t0);
        assert((s + t).last() == t.last());
        assert(!sep(t[t.len() - 1]));
        let parts = split_by(s + t0, sep);
        let base = split_by(s, sep);
        assert(parts.len() == base.len());
        assert(parts.last() == base.last() + t0);
        assert(parts.update(parts.len() - 1, parts.last().push(t.last())) =~= base.update(
            base.len() - 1,
            base.last() + t,
        )) by {
            assert(base.last() + t0 + seq![t.last()] =~= base.last() + t);
            assert((base.last() + t0).push(t.last()) =~= base.last() + t);
        }
    }
}

/// Pieces without the separator, joined with it, split back into the same
/// pieces.
pub proof fn lemma_split_join(h: Seq<Seq<char>>, c: char)
    requires
        h.len() > 0,
        forall|i: int, j: int| 0 <= i < h.len() && 0 <= j < h[i].len() ==> (#[trigger] h[i][j]) != c,
    ensures
        split_by(join(h, seq![c]), |d: char| d == c) == h,
    decreases h.len(),
{
    let sep = |d: char| d == c;
    if h.len() == 1 {
        assert forall|j: int| 0 <= j < h[0].len() implies !sep(#[trigger] h[0][j]) by {
            assert(h[0][j] != c);
        }
        lemma_split_append(Seq::<char>::empty(), h[0], sep);
        assert(Seq::<char>::empty() + h[0] == h[0]);
        assert(split_by(h[0], sep) =~= h);
    } else {
        let dl = h.drop_last();
        assert forall|i: int, j: int| 0 <= i < dl.len() && 0 <= j < dl[i].len() implies (#[trigger] dl[i][j]) != c by {
            assert(dl[i] == h[i]);
        }
        lemma_split_join(dl, c);
        let s = join(dl, seq![c]).push(c);
        assert(s.drop_last() == join(dl, seq![c]));
        assert(split_by(s, sep) == dl.push(Seq::<char>::empty()));
        assert forall|j: int| 0 <= j < h.last().len() implies !sep(#[trigger] h.last()[j]) by {
            assert(h[h.len() - 1][j] != c);
        }
        lemma_split_append(s, h.last(), sep);
        assert(join(h, seq![c]) =~= s + h.last());
        assert(Seq::<char>::empty() + h.last() == h.last());
        assert(dl.push(Seq::<char>::empty()).update(dl.len() as int, h.last()) =~= h);
    }
}

/// Joined non-empty pieces begin with the first piece's first character
/// and end with the last piece's last one.
pub proof fn lemma_join_ends(h: Seq<Seq<char>>, sep: Seq<char>)
    requires
        h.len() > 0,
        forall|i: int| 0 <= i < h.len() ==> (#[trigger] h[i]).len() > 0,
    ensures
        join(h, sep).len() > 0,
        join(h, sep)[0] == h[0][0],
        join(h, sep).last() == h.last().last(),
    decreases h.len(),
{
    if h.len() > 1 {
        let dl = h.drop_last();
        assert forall|i: int| 0 <= i < dl.len() implies (#[trigger] dl[i]).len() > 0 by {
            assert(dl[i] == h[i]);
        }
        lemma_join_ends(dl, sep);
        assert(dl[0] == h[0]);
        assert(h[h.len() - 1].len() > 0);
    } else {
        assert(h[0].len() > 0);
    }
}

/// A text that begins and ends with other than white space is its own
/// trimmed text.
pub proof fn lemma_trim_unchanged(s: Seq<char>)
    requires
        s.len() > 0,
        !is_space(s[0]),
        !is_space(s.last()),
    ensures
        trim(s) == s,
{
    let p = |c: char| is_space(c);
    lemma_lead_count_is(s, p, 0);
    assert(s.skip(0) == s);
    lemma_trail_count_is(s, p, 0);
    assert(s.take(s.len() as int) == s);
}

} // verus!
