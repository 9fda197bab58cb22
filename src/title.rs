//! Title normalization: from a noisy release file name to a clean title and a
//! release year.
use vstd::prelude::*;
use crate::text::{
    is_word, join, join_pieces, lemma_words_are_words, lemma_words_of_join, split_words, string_of,
    trim, trimmed, views, words,
};

verus! {

/// Bracketed segments, `[...]`, `(...)` or `{...}`, matched non-greedily.
pub const BRACKETED: &'static str = r"(?i)[\[\(\{].*?[\]\)\}]";

/// An audio codec followed by a channel count such as `5.1`; this runs before
/// the separators are rewritten, since the dot is what tells it apart.
pub const AUDIO_CHANNELS: &'static str = r"(?i)\b(?:aac|ac3|eac3|ddp|dts|truehd|atmos|flac|opus|mp3|mp2)[\s._-]*\d\.\d\b";

/// Resolution, codec, audio, source, quality and bit-depth tags and known
/// release groups, as whole words.
pub const FLUFF: &'static str = r"(?i)\b(480p|720p|1080p|2160p|4k|8k|x264|x265|h264|h265|hevc|aac\d*\.?\d*|ac3|dts|truehd|atmos|bluray|brrip|webrip|web-dl|hdr|hdr10|hdr10\+|dvdrip|remux|proper|repack|extended|uncut|10bit|8bit|yify|rarbg|yts|mx|etrg|pahe|tigole|qxr|joy|sparks)\b";

/// Runs of separator characters.
pub const SEPARATORS: &'static str = r"[._-]+";

/// Runs of whitespace.
pub const WHITESPACE: &'static str = r"\s+";

/// What every stage puts in place of a match.
pub const SPACE: &'static str = " ";

/// The text that the `regex` crate gives when every match of `pattern` in
/// `text` is replaced by `with`, or `None` where `pattern` does not compile.
pub uninterp spec fn regex_replaced(pattern: Seq<char>, text: Seq<char>, with: Seq<char>) -> Option<Seq<char>>;

/// Relies on `regex::Regex::new` (compiles `pattern`, or fails on an invalid
/// one) and `regex::Regex::replace_all` (replaces every leftmost-first,
/// non-overlapping match by `with`); both depend on their arguments alone.
#[verifier::external_body]
fn replace_matches(pattern: &str, text: &str, with: &str) -> (r: Option<String>)
    ensures
        match r {
            Some(s) => regex_replaced(pattern@, text@, with@) == Some(s@),
            None => regex_replaced(pattern@, text@, with@) is None,
        },
{
    match regex::Regex::new(pattern) {
        Ok(re) => Some(re.replace_all(text, with).into_owned()),
        Err(_) => None,
    }
}

/// Stages one to five: trim, brackets, audio channels, fluff, separators,
/// whitespace. `None` where a pattern fails to compile.
pub open spec fn scrubbed(raw: Seq<char>) -> Option<Seq<char>> {
    let sp = SPACE@;
    match regex_replaced(BRACKETED@, trim(raw), sp) {
        None => None,
        Some(a) => match regex_replaced(AUDIO_CHANNELS@, a, sp) {
            None => None,
            Some(b) => match regex_replaced(FLUFF@, b, sp) {
                None => None,
                Some(c) => match regex_replaced(SEPARATORS@, c, sp) {
                    None => None,
                    Some(d) => regex_replaced(WHITESPACE@, d, sp),
                },
            },
        },
    }
}

pub open spec fn is_digit(c: char) -> bool {
    '0' <= c && c <= '9'
}

pub open spec fn digit(c: char) -> int {
    c as int - '0' as int
}

/// The value of a four-digit word.
pub open spec fn four_digit_value(w: Seq<char>) -> int {
    1000 * digit(w[0]) + 100 * digit(w[1]) + 10 * digit(w[2]) + digit(w[3])
}

/// A plausible release year: four digits, from 1900 to the year after
/// `current_year`.
pub open spec fn is_year(w: Seq<char>, current_year: int) -> bool {
    &&& w.len() == 4
    &&& forall|i: int| 0 <= i < 4 ==> is_digit(#[trigger] w[i])
    &&& 1900 <= four_digit_value(w) <= current_year + 1
}

/// The index of the last year among the first `n` words, or -1.
pub open spec fn last_year_before(ws: Seq<Seq<char>>, current_year: int, n: int) -> int
    decreases n,
{
    if n <= 0 {
        -1
    } else if is_year(ws[n - 1], current_year) {
        n - 1
    } else {
        last_year_before(ws, current_year, n - 1)
    }
}

/// The index of the word taken as the release year, or -1: the last year
/// among the words, unless it is the first word (then it is the only one, and
/// belongs to the title).
pub open spec fn release_index(ws: Seq<Seq<char>>, current_year: int) -> int {
    let last = last_year_before(ws, current_year, ws.len() as int);
    if last <= 0 {
        -1
    } else {
        last
    }
}

/// Stages six to eight on scrubbed text: the title and the release year.
pub open spec fn title_and_year(s: Seq<char>, current_year: int) -> (Seq<char>, Option<i32>) {
    let ws = words(s);
    let k = release_index(ws, current_year);
    if k < 0 {
        (join(ws), None)
    } else {
        (join(ws.remove(k)), Some(four_digit_value(ws[k]) as i32))
    }
}

/// The whole normalization of `raw`; empty where a pattern fails to compile.
pub open spec fn cleaned(raw: Seq<char>, current_year: int) -> (Seq<char>, Option<i32>) {
    match scrubbed(raw) {
        Some(s) => title_and_year(s, current_year),
        None => (Seq::empty(), None),
    }
}

proof fn lemma_last_year_is_year(ws: Seq<Seq<char>>, current_year: int, n: int)
    requires
        0 <= n <= ws.len(),
    ensures
        last_year_before(ws, current_year, n) < n,
        last_year_before(ws, current_year, n) >= 0 ==> is_year(
            ws[last_year_before(ws, current_year, n)],
            current_year,
        ),
    decreases n,
{
    if n > 0 && !is_year(ws[n - 1], current_year) {
        lemma_last_year_is_year(ws, current_year, n - 1);
    }
}

fn four_digit(w: &Vec<char>) -> (r: i32)
    requires
        w@.len() == 4,
        forall|i: int| 0 <= i < 4 ==> is_digit(#[trigger] w@[i]),
    ensures
        r as int == four_digit_value(w@),
{
    assert(is_digit(w@[0]) && is_digit(w@[1]) && is_digit(w@[2]) && is_digit(w@[3]));
    let v: i64 = 1000 * (w[0] as i64 - '0' as i64) + 100 * (w[1] as i64 - '0' as i64) + 10 * (
    w[2] as i64 - '0' as i64) + (w[3] as i64 - '0' as i64);
    v as i32
}

fn is_year_token(token: &Vec<char>, current_year: i32) -> (r: bool)
    ensures
        r == is_year(token@, current_year as int),
{
    if token.len() != 4 {
        return false;
    }
    let mut i: usize = 0;
    while i < 4
        invariant
            token@.len() == 4,
            i <= 4,
            forall|j: int| 0 <= j < i ==> is_digit(#[trigger] token@[j]),
        decreases 4 - i,
    {
        if !('0' <= token[i] && token[i] <= '9') {
            return false;
        }
        i = i + 1;
    }
    let value = four_digit(token);
    1900 <= value as i64 && (value as i64) <= current_year as i64 + 1
}

/// Stages six to eight: splits `text` into words, takes out the release year
/// as the tie-break rule says, and joins the rest with single spaces.
pub fn title_and_year_of(text: &str, current_year: i32) -> (r: (String, Option<i32>))
    ensures
        (r.0@, r.1) == title_and_year(text@, current_year as int),
{
    let cs = crate::text::chars_of(text);
    let mut ws = split_words(&cs);
    let ghost all = views(ws@);
    let mut last: usize = 0;
    let mut found = false;
    let mut i: usize = 0;
    while i < ws.len()
        invariant
            views(ws@) == all,
            i <= ws@.len(),
            found ==> last < i,
            (if found { last as int } else { -1 }) == last_year_before(all, current_year as int, i as int),
        decreases ws@.len() - i,
    {
        if is_year_token(&ws[i], current_year) {
            last = i;
            found = true;
        }
        i = i + 1;
    }
    proof {
        lemma_last_year_is_year(all, current_year as int, all.len() as int);
    }
    let mut year: Option<i32> = None;
    if found && last > 0 {
        let w = ws.remove(last);
        assert(w@ == all[last as int]);
        year = Some(four_digit(&w));
        assert(views(ws@) =~= all.remove(last as int));
    }
    let joined = join_pieces(&ws, ' ');
    let n = joined.len();
    (string_of(&joined, 0, n), year)
}

/// The normalization of `raw`: its clean title and release year, with the
/// plausible years ending at the year after `current_year`.
pub fn normalize_title_at(raw: &str, current_year: i32) -> (r: (String, Option<i32>))
    ensures
        (r.0@, r.1) == cleaned(raw@, current_year as int),
{
    let cs = trimmed(raw);
    let n = cs.len();
    let start = string_of(&cs, 0, n);
    assert(cs@.subrange(0, n as int) =~= cs@);
    let a = match replace_matches(BRACKETED, start.as_str(), SPACE) {
        Some(a) => a,
        None => return (String::new(), None),
    };
    let b = match replace_matches(AUDIO_CHANNELS, a.as_str(), SPACE) {
        Some(b) => b,
        None => return (String::new(), None),
    };
    let c = match replace_matches(FLUFF, b.as_str(), SPACE) {
        Some(c) => c,
        None => return (String::new(), None),
    };
    let d = match replace_matches(SEPARATORS, c.as_str(), SPACE) {
        Some(d) => d,
        None => return (String::new(), None),
    };
    let e = match replace_matches(WHITESPACE, d.as_str(), SPACE) {
        Some(e) => e,
        None => return (String::new(), None),
    };
    title_and_year_of(e.as_str(), current_year)
}


/// Relies on `SystemTime::elapsed` on `UNIX_EPOCH`: the whole seconds since
/// the epoch by the system clock, `None` where the clock stands before it.
#[verifier::external_body]
fn seconds_since_epoch() -> (r: Option<u64>) {
    std::time::UNIX_EPOCH.elapsed().ok().map(|d| d.as_secs())
}

/// The proleptic Gregorian year of the day `days` after 1970-01-01.
pub open spec fn civil_year(days: int) -> int {
    let z = days + 719_468;
    let era = z / 146_097;
    let doe = z - era * 146_097;
    let yoe = (doe - doe / 1_460 + doe / 36_524 - doe / 146_096) / 365;
    let y = yoe + era * 400;
    let doy = doe - (365 * yoe + yoe / 4 - yoe / 100);
    let mp = (5 * doy + 2) / 153;
    let m = if mp < 10 { mp + 3 } else { mp - 9 };
    y + if m <= 2 { 1int } else { 0int }
}

/// The calendar year in which the second `secs` after the epoch falls.
pub open spec fn year_at(secs: u64) -> i32 {
    civil_year(secs as int / 86_400) as i32
}

/// The calendar year in which the second `secs` after the epoch falls.
pub fn year_of_unix_seconds(secs: u64) -> (r: i32)
    ensures
        r == year_at(secs),
{
    let days: i64 = (secs / 86_400) as i64;
    let z: i64 = days + 719_468;
    let era: i64 = z / 146_097;
    assert(era * 146_097 <= z) by (nonlinear_arith)
        requires era == z / 146_097, z >= 0;
    assert(z - era * 146_097 < 146_097) by (nonlinear_arith)
        requires era == z / 146_097, z >= 0;
    let doe: i64 = z - era * 146_097;
    let yoe: i64 = (doe - doe / 1_460 + doe / 36_524 - doe / 146_096) / 365;
    assert(0 <= yoe <= 400) by (nonlinear_arith)
        requires yoe == (doe - doe / 1_460 + doe / 36_524 - doe / 146_096) / 365, 0 <= doe < 146_097;
    assert(era <= 1_000_000_000_000) by (nonlinear_arith)
        requires era == z / 146_097, z <= 300_000_000_000_000;
    let y: i64 = yoe + era * 400;
    let doy: i64 = doe - (365 * yoe + yoe / 4 - yoe / 100);
    let mp: i64 = (5 * doy + 2) / 153;
    let m: i64 = if mp < 10 { mp + 3 } else { mp - 9 };
    let year: i64 = y + if m <= 2 { 1 } else { 0 };
    year as i32
}

/// Some calendar year, read from the system clock (1970 where the clock
/// stands before the epoch).
pub fn current_year() -> (r: i32)
    ensures
        exists|secs: u64| r == #[trigger] year_at(secs),
{
    let secs = match seconds_since_epoch() {
        Some(s) => s,
        None => 0,
    };
    year_of_unix_seconds(secs)
}

/// Cleaning a clean title changes nothing: once a title has left the token
/// stage with no year left to take out, that stage gives it back unchanged
/// and finds no year.
pub proof fn lemma_title_stage_idempotent(s: Seq<char>, current_year: int)
    requires
        release_index(words(title_and_year(s, current_year).0), current_year) < 0,
    ensures
        title_and_year(title_and_year(s, current_year).0, current_year) == (
            title_and_year(s, current_year).0,
            None::<i32>,
        ),
{
    let ws = words(s);
    let k = release_index(ws, current_year);
    lemma_words_are_words(s);
    lemma_last_year_is_year(ws, current_year, ws.len() as int);
    let kept = if k < 0 { ws } else { ws.remove(k) };
    assert forall|i: int| 0 <= i < kept.len() implies is_word(#[trigger] kept[i]) by {
        if k >= 0 {
            if i < k {
                assert(kept[i] == ws[i]);
            } else {
                assert(kept[i] == ws[i + 1]);
            }
        }
    }
    lemma_words_of_join(kept);
}

} // verus!
