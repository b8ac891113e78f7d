//! Calls into outside crates and into std functions that vstd does not
//! specify.  Each item here is trusted: Verus believes its contract.
use vstd::prelude::*;
use unicode_width::UnicodeWidthChar;

verus! {

/// What `unicode_width::UnicodeWidthChar::width` returns for a character.
pub uninterp spec fn unicode_width_of(c: char) -> Option<usize>;

/// Calls `UnicodeWidthChar::width` of the `unicode-width` crate.
/// The contract claims that the result is a function of the character alone,
/// and the three cases that the crate's `single_char_width` writes out: the
/// printable ASCII range `0x20..0x7F` has width 1, the other code points below
/// `0xA0` are control characters (`None`), and every code point from `0xA0` on
/// gets a table width, which the crate documents as at most 3.
#[verifier::external_body]
pub fn char_width(c: char) -> (res: Option<usize>)
    ensures
        res == unicode_width_of(c),
        0x20 <= (c as u32) < 0x7F ==> res == Some(1usize),
        (c as u32) < 0x20 ==> res == None::<usize>,
        0x7F <= (c as u32) < 0xA0 ==> res == None::<usize>,
        0xA0 <= (c as u32) ==> res.is_some() && res.unwrap() <= 3,
{
    c.width()
}

/// Calls `String::push` of std, which appends one character.
#[verifier::external_body]
pub fn push_char(s: &mut String, c: char)
    ensures
        final(s)@ == old(s)@.push(c),
{
    s.push(c)
}


/// Whether `regex::Regex::new` accepts a pattern.
pub uninterp spec fn regex_valid(pattern: Seq<char>) -> bool;

/// What `regex::Regex::captures_iter` yields for a pattern over a haystack:
/// for each match, the byte range of the whole match and that of the group
/// named `match`, if the pattern has one and it took part.
pub uninterp spec fn regex_captures(pattern: Seq<char>, haystack: Seq<char>) -> Seq<
    (usize, usize, Option<(usize, usize)>),
>;

/// One capture with its byte offsets into the text that was scanned.
pub type Capture = (usize, usize, Option<(usize, usize)>);

/// A byte range that the regex crate reports for a match: start before end,
/// both on character boundaries of the haystack.
pub open spec fn match_range_ok(haystack: Seq<char>, start: usize, end: usize) -> bool {
    &&& start <= end
    &&& end <= vstd::utf8::encode_utf8(haystack).len()
    &&& vstd::utf8::is_char_boundary(vstd::utf8::encode_utf8(haystack), start as int)
    &&& vstd::utf8::is_char_boundary(vstd::utf8::encode_utf8(haystack), end as int)
}

/// Compiles `pattern` with `regex::Regex::new` and, when that succeeds, runs
/// `Regex::captures_iter` over each line, keeping for every capture the byte
/// range of the whole match (`Captures::get(0)`) and of the group named
/// `match` (`Captures::name`); when it fails, the error's text.
/// The contract claims: the result is `Ok` exactly when the pattern
/// compiles; the captures of a line are the named result for that pattern
/// and line; and, as `Match::start` and `Match::end` document, each range
/// starts before it ends, lies within the line and falls on character
/// boundaries.  Nothing is stated of the error's text.
#[verifier::external_body]
pub fn regex_scan(pattern: &str, lines: &Vec<String>) -> (res: Result<Vec<Vec<Capture>>, String>)
    ensures
        res is Ok == regex_valid(pattern@),
        res matches Ok(v) ==> v.len() == lines.len(),
        res matches Ok(v) ==> forall|i: int|
            0 <= i < lines.len() ==> (#[trigger] v[i])@ == regex_captures(pattern@, lines[i]@),
        res matches Ok(v) ==> forall|i: int, k: int|
            0 <= i < lines.len() && 0 <= k < v[i].len() ==> match_range_ok(
                lines[i]@,
                (#[trigger] v[i][k]).0,
                v[i][k].1,
            ) && (v[i][k].2 matches Some((gs, ge)) ==> match_range_ok(lines[i]@, gs, ge)),
{
    let re = match regex::Regex::new(pattern) {
        Ok(re) => re,
        Err(e) => return Err(e.to_string()),
    };
    Ok(lines.iter().map(|line| {
        re.captures_iter(line).map(|cap| {
            let m = cap.get(0).unwrap();
            (m.start(), m.end(), cap.name("match").map(|g| (g.start(), g.end())))
        }).collect()
    }).collect())
}


/// Calls `dirs::cache_dir`, which reads the environment and the platform's
/// conventions; the path is turned into text, with any bytes that are not
/// UTF-8 replaced.  Nothing is stated of the result: it depends on the
/// environment.
#[verifier::external_body]
pub(crate) fn user_cache_dir() -> (res: Option<String>) {
    match dirs::cache_dir() {
        Some(p) => Some(p.to_string_lossy().into_owned()),
        None => None,
    }
}

/// Calls `dirs::home_dir`, which reads the environment; the path is turned
/// into text as in [`user_cache_dir`].  Nothing is stated of the result.
#[verifier::external_body]
pub(crate) fn user_home_dir() -> (res: Option<String>) {
    match dirs::home_dir() {
        Some(p) => Some(p.to_string_lossy().into_owned()),
        None => None,
    }
}

/// Calls `which::which`, which searches the directories of `PATH` on disk,
/// and tells whether it found the program.  Nothing is stated of the
/// result: it depends on the environment and the file system.
#[verifier::external_body]
pub(crate) fn program_exists(name: &str) -> (res: bool) {
    which::which(name).is_ok()
}

} // verus!
