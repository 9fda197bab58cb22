//! Watch-log lines: timestamp, title source, clean title and release year.
use vstd::prelude::*;
use crate::text::{
    Cut, chars_of, is_ws, pieces, split_pieces, string_of, sub_chars, trim, trim_range, views,
};
use crate::title::{cleaned, normalize_title_at, current_year};

verus! {

/// One parsed log record.
#[derive(Debug, Clone)]
pub struct WatchEntry {
    pub watched_at: Option<String>,
    pub raw_title: String,
    pub cleaned_title: String,
    pub release_year: Option<i32>,
}

impl WatchEntry {
    /// A copy of this entry.
    pub fn duplicate(&self) -> (r: WatchEntry)
        ensures
            r@ == self@,
    {
        WatchEntry {
            watched_at: match &self.watched_at {
                Some(s) => Some(s.clone()),
                None => None,
            },
            raw_title: self.raw_title.clone(),
            cleaned_title: self.cleaned_title.clone(),
            release_year: self.release_year,
        }
    }
}

/// What a `WatchEntry` holds, as character sequences.
pub struct WatchEntryView {
    pub watched_at: Option<Seq<char>>,
    pub raw_title: Seq<char>,
    pub cleaned_title: Seq<char>,
    pub release_year: Option<i32>,
}

pub open spec fn opt_view(o: Option<String>) -> Option<Seq<char>> {
    match o {
        Some(s) => Some(s@),
        None => None,
    }
}

impl View for WatchEntry {
    type V = WatchEntryView;

    open spec fn view(&self) -> WatchEntryView {
        WatchEntryView {
            watched_at: opt_view(self.watched_at),
            raw_title: self.raw_title@,
            cleaned_title: self.cleaned_title@,
            release_year: self.release_year,
        }
    }
}

pub open spec fn is_delim(c: char) -> bool {
    c == '|' || c == '\t'
}

/// The index of the first delimiter at or after `i`, or -1.
pub open spec fn first_delim_from(t: Seq<char>, i: int) -> int
    decreases t.len() - i,
{
    if i < 0 || i >= t.len() {
        -1
    } else if is_delim(t[i]) {
        i
    } else {
        first_delim_from(t, i + 1)
    }
}

/// A trimmed line cut at its first `|` or tab: the trimmed timestamp before
/// it, and the trimmed title source after it; with neither, no timestamp
/// and the whole line.
pub open spec fn split_line(t: Seq<char>) -> (Option<Seq<char>>, Seq<char>) {
    let k = first_delim_from(t, 0);
    if k < 0 {
        (None, t)
    } else {
        (Some(trim(t.subrange(0, k))), trim(t.subrange(k + 1, t.len() as int)))
    }
}

pub open spec fn file_uri() -> Seq<char> {
    seq!['f', 'i', 'l', 'e', ':', '/', '/', '/']
}

/// `t` without a leading `file:///`.
pub open spec fn strip_file_uri(t: Seq<char>) -> Seq<char> {
    if t.len() >= 8 && t.take(8) == file_uri() {
        t.skip(8)
    } else {
        t
    }
}

/// The last path component that names a file: empty and `.` components are
/// passed over; there is none where the path ends in `..` or has no component.
pub open spec fn file_name_in(ps: Seq<Seq<char>>) -> Option<Seq<char>>
    decreases ps.len(),
{
    if ps.len() == 0 {
        None
    } else {
        let l = ps.last();
        if l.len() == 0 || l == seq!['.'] {
            file_name_in(ps.drop_last())
        } else if l == seq!['.', '.'] {
            None
        } else {
            Some(l)
        }
    }
}

/// The index of the last `.` among the first `i` characters, or -1.
pub open spec fn last_dot_before(n: Seq<char>, i: int) -> int
    decreases i,
{
    if i <= 0 {
        -1
    } else if n[i - 1] == '.' {
        i - 1
    } else {
        last_dot_before(n, i - 1)
    }
}

/// A file name without its extension; a name whose only dot leads keeps it.
pub open spec fn stem(n: Seq<char>) -> Seq<char> {
    let k = last_dot_before(n, n.len() as int);
    if k <= 0 {
        n
    } else {
        n.take(k)
    }
}

/// The stem of the file that `path` names, if it names one.
pub open spec fn file_stem_of(path: Seq<char>) -> Option<Seq<char>> {
    match file_name_in(pieces(path, Cut::PathSeparator)) {
        Some(n) => Some(stem(n)),
        None => None,
    }
}

pub open spec fn opt_chars(o: Option<Vec<char>>) -> Option<Seq<char>> {
    match o {
        Some(v) => Some(v@),
        None => None,
    }
}

/// The title-bearing string of a title source: the stem of its file name,
/// with `file:///` and the directories taken off; else the trimmed source.
pub open spec fn title_source(raw: Seq<char>) -> Seq<char> {
    let t = trim(raw);
    match file_stem_of(strip_file_uri(t)) {
        Some(n) => n,
        None => t,
    }
}

/// The entry of one log line, with plausible years up to `current_year + 1`.
pub open spec fn entry_of(line: Seq<char>, current_year: int) -> Option<WatchEntryView> {
    let t = trim(line);
    if t.len() == 0 {
        None
    } else {
        let src = title_source(split_line(t).1);
        let c = cleaned(src, current_year);
        Some(
            WatchEntryView {
                watched_at: split_line(t).0,
                raw_title: src,
                cleaned_title: c.0,
                release_year: c.1,
            },
        )
    }
}

/// The entries of the lines `ls`, in order, blank lines left out.
pub open spec fn entries_of(ls: Seq<Seq<char>>, current_year: int) -> Seq<WatchEntryView>
    decreases ls.len(),
{
    if ls.len() == 0 {
        Seq::empty()
    } else {
        let init = entries_of(ls.drop_last(), current_year);
        match entry_of(ls.last(), current_year) {
            Some(e) => init.push(e),
            None => init,
        }
    }
}

/// The entries of a whole log text.
pub open spec fn log_entries(content: Seq<char>, current_year: int) -> Seq<WatchEntryView> {
    entries_of(pieces(content, Cut::Line), current_year)
}

pub open spec fn entry_views(es: Seq<WatchEntry>) -> Seq<WatchEntryView> {
    es.map_values(|e: WatchEntry| e@)
}

fn split_log_line(t: &Vec<char>) -> (r: (Option<Vec<char>>, Vec<char>))
    ensures
        opt_chars(r.0) == split_line(t@).0,
        r.1@ == split_line(t@).1,
{
    let mut i: usize = 0;
    while i < t.len()
        invariant
            i <= t@.len(),
            first_delim_from(t@, 0) == first_delim_from(t@, i as int),
        decreases t@.len() - i,
    {
        if t[i] == '|' || t[i] == '\t' {
            let stamp = trim_range(t, 0, i);
            let rest = trim_range(t, i + 1, t.len());
            return (Some(stamp), rest);
        }
        i = i + 1;
    }
    let all = sub_chars(t, 0, t.len());
    assert(t@.subrange(0, t@.len() as int) =~= t@);
    (None, all)
}

fn strip_file_prefix(t: &Vec<char>) -> (r: Vec<char>)
    ensures
        r@ == strip_file_uri(t@),
{
    let prefix = vec!['f', 'i', 'l', 'e', ':', '/', '/', '/'];
    assert(prefix@ =~= file_uri());
    if t.len() < 8 {
        return sub_chars(t, 0, t.len());
    }
    let mut i: usize = 0;
    while i < 8
        invariant
            t@.len() >= 8,
            prefix@ == file_uri(),
            i <= 8,
            forall|j: int| 0 <= j < i ==> t@[j] == prefix@[j],
        decreases 8 - i,
    {
        if t[i] != prefix[i] {
            assert(t@.take(8)[i as int] != file_uri()[i as int]);
            return sub_chars(t, 0, t.len());
        }
        i = i + 1;
    }
    assert(t@.take(8) =~= file_uri());
    sub_chars(t, 8, t.len())
}

fn file_stem(path: &Vec<char>) -> (r: Option<Vec<char>>)
    ensures
        opt_chars(r) == file_stem_of(path@),
{
    let ps = split_pieces(path, Cut::PathSeparator);
    let ghost all = views(ps@);
    let mut n: usize = ps.len();
    assert(all.take(all.len() as int) =~= all);
    while n > 0
        invariant
            n <= ps@.len(),
            all == views(ps@),
            all == pieces(path@, Cut::PathSeparator),
            file_name_in(all) == file_name_in(all.take(n as int)),
        decreases n,
    {
        let p = &ps[n - 1];
        let ghost pre = all.take(n as int);
        assert(pre.last() == p@);
        assert(pre.drop_last() =~= all.take(n - 1));
        let is_dot = p.len() == 1 && p[0] == '.';
        let is_dot_dot = p.len() == 2 && p[0] == '.' && p[1] == '.';
        assert(is_dot <==> p@ == seq!['.']) by {
            if p@ == seq!['.'] {
                assert(p@[0] == '.');
            }
            if is_dot {
                assert(p@ =~= seq!['.']);
            }
        }
        assert(is_dot_dot <==> p@ == seq!['.', '.']) by {
            if p@ == seq!['.', '.'] {
                assert(p@[0] == '.' && p@[1] == '.');
            }
            if is_dot_dot {
                assert(p@ =~= seq!['.', '.']);
            }
        }
        if p.len() == 0 || is_dot {
            n = n - 1;
        } else if is_dot_dot {
            assert(file_name_in(pre) is None);
            return None;
        } else {
            let mut k: usize = p.len();
            while k > 0 && p[k - 1] != '.'
                invariant
                    k <= p@.len(),
                    last_dot_before(p@, p@.len() as int) == last_dot_before(p@, k as int),
                decreases k,
            {
                k = k - 1;
            }
            assert(file_name_in(pre) == Some(p@));
            assert(k > 0 ==> last_dot_before(p@, k as int) == k - 1);
            assert(k == 0 ==> last_dot_before(p@, k as int) == -1);
            if k <= 1 {
                assert(p@.subrange(0, p@.len() as int) =~= p@);
                return Some(sub_chars(p, 0, p.len()));
            }
            assert(p@.subrange(0, k - 1) =~= p@.take(k - 1));
            return Some(sub_chars(p, 0, k - 1));
        }
    }
    assert(all.take(0).len() == 0);
    None
}

fn extract_title(raw: &Vec<char>) -> (r: Vec<char>)
    ensures
        r@ == title_source(raw@),
{
    let t = trim_range(raw, 0, raw.len());
    assert(raw@.subrange(0, raw@.len() as int) =~= raw@);
    let path = strip_file_prefix(&t);
    match file_stem(&path) {
        Some(s) => s,
        None => t,
    }
}

pub(crate) fn entry_from_chars(line: &Vec<char>, current_year: i32) -> (r: Option<WatchEntry>)
    ensures
        (match r {
            Some(e) => Some(e@),
            None => None,
        }) == entry_of(line@, current_year as int),
{
    let t = trim_range(line, 0, line.len());
    assert(line@.subrange(0, line@.len() as int) =~= line@);
    if t.len() == 0 {
        return None;
    }
    let (stamp, rest) = split_log_line(&t);
    let src = extract_title(&rest);
    let raw_title = string_of(&src, 0, src.len());
    assert(src@.subrange(0, src@.len() as int) =~= src@);
    let (cleaned_title, release_year) = normalize_title_at(raw_title.as_str(), current_year);
    let watched_at = match stamp {
        Some(s) => {
            assert(s@.subrange(0, s@.len() as int) =~= s@);
            Some(string_of(&s, 0, s.len()))
        },
        None => None,
    };
    Some(WatchEntry { watched_at, raw_title, cleaned_title, release_year })
}

/// The entry of one log line, with plausible years up to the year after
/// `current_year`; none for a blank line.
pub fn parse_log_line_at(line: &str, current_year: i32) -> (r: Option<WatchEntry>)
    ensures
        (match r {
            Some(e) => Some(e@),
            None => None,
        }) == entry_of(line@, current_year as int),
        r is None <==> trim(line@).len() == 0,
{
    let cs = chars_of(line);
    entry_from_chars(&cs, current_year)
}

/// The entry of one log line, as of the current year; none for a blank line.
pub fn parse_log_line(line: &str) -> (r: Option<WatchEntry>)
    ensures
        exists|cy: i32|
            (match r {
                Some(e) => Some(e@),
                None => None,
            }) == #[trigger] entry_of(line@, cy as int),
        r is None <==> trim(line@).len() == 0,
{
    let cy = current_year();
    parse_log_line_at(line, cy)
}

/// The entries of a log text, one per non-blank line, in order.
pub fn parse_watch_log_at(content: &str, current_year: i32) -> (r: Vec<WatchEntry>)
    ensures
        entry_views(r@) == log_entries(content@, current_year as int),
{
    let cs = chars_of(content);
    let lines = split_pieces(&cs, Cut::Line);
    let ghost ls = views(lines@);
    let mut out: Vec<WatchEntry> = Vec::new();
    let mut i: usize = 0;
    while i < lines.len()
        invariant
            i <= lines@.len(),
            ls == views(lines@),
            ls == pieces(content@, Cut::Line),
            entry_views(out@) == entries_of(ls.take(i as int), current_year as int),
        decreases lines@.len() - i,
    {
        let ghost pre = ls.take(i as int);
        let ghost next = ls.take(i + 1);
        assert(next.drop_last() =~= pre);
        assert(next.last() == lines@[i as int]@);
        match entry_from_chars(&lines[i], current_year) {
            Some(e) => {
                out.push(e);
                assert(entry_views(out@) =~= entries_of(pre, current_year as int).push(e@));
            },
            None => {},
        }
        i = i + 1;
    }
    assert(ls.take(ls.len() as int) =~= ls);
    out
}

/// The entries of a log text, as of the current year.
pub fn parse_watch_log(content: &str) -> (r: Vec<WatchEntry>)
    ensures
        exists|cy: i32| entry_views(r@) == #[trigger] log_entries(content@, cy as int),
{
    let cy = current_year();
    parse_watch_log_at(content, cy)
}

/// A blank line, whitespace alone, gives no entry.
pub proof fn lemma_blank_line_no_entry(line: Seq<char>, current_year: int)
    requires
        forall|i: int| 0 <= i < line.len() ==> is_ws(#[trigger] line[i]),
    ensures
        entry_of(line, current_year) is None,
{
    crate::text::lemma_trim_all_ws(line);
}


/// The clean title and release year of a file name or path: its stem,
/// normalized, with the plausible years ending at the year after
/// `current_year`.
pub fn clean_title_and_year_at(raw: &str, current_year: i32) -> (r: (String, Option<i32>))
    ensures
        (r.0@, r.1) == cleaned(title_source(raw@), current_year as int),
{
    let cs = chars_of(raw);
    let src = extract_title(&cs);
    let name = string_of(&src, 0, src.len());
    assert(src@.subrange(0, src@.len() as int) =~= src@);
    normalize_title_at(name.as_str(), current_year)
}

/// The clean title and release year of a file name or path, as of the
/// current year.
pub fn clean_title_and_year(raw: &str) -> (r: (String, Option<i32>))
    ensures
        exists|cy: i32| (r.0@, r.1) == #[trigger] cleaned(title_source(raw@), cy as int),
{
    let cy = current_year();
    clean_title_and_year_at(raw, cy)
}

/// The clean title of a file name or path, as of the current year.
pub fn clean_title(raw: &str) -> (r: String)
    ensures
        exists|cy: i32| r@ == (#[trigger] cleaned(title_source(raw@), cy as int)).0,
{
    let (title, _year) = clean_title_and_year(raw);
    title
}

/// The number of lines that are not blank.
pub open spec fn nonblank_count(ls: Seq<Seq<char>>) -> nat
    decreases ls.len(),
{
    if ls.len() == 0 {
        0
    } else if trim(ls.last()).len() == 0 {
        nonblank_count(ls.drop_last())
    } else {
        nonblank_count(ls.drop_last()) + 1
    }
}

/// A log gives exactly one entry for each line that is not blank.
pub proof fn lemma_one_entry_per_line(ls: Seq<Seq<char>>, current_year: int)
    ensures
        entries_of(ls, current_year).len() == nonblank_count(ls),
    decreases ls.len(),
{
    if ls.len() > 0 {
        lemma_one_entry_per_line(ls.drop_last(), current_year);
    }
}

} // verus!
