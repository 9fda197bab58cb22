//! Taking the entries of one title and year out of a watch log's text.
use vstd::prelude::*;
use crate::text::{Cut, chars_of, join_with, pieces, split_pieces, string_of, trim, trimmed, views, join_pieces};
use crate::log::{entry_of, entry_from_chars};
use crate::enrich::{lowercase, lowercase_of};

verus! {

/// A line with the carriage return of a `\r\n` ending taken off.
pub open spec fn line_body(p: Seq<char>, ended: bool) -> Seq<char> {
    if ended && p.len() > 0 && p.last() == '\r' {
        p.drop_last()
    } else {
        p
    }
}

/// The lines of a text as `str::lines` gives them: cut at `\n` or `\r\n`,
/// with no empty line after a final line ending.
pub open spec fn text_lines(content: Seq<char>) -> Seq<Seq<char>> {
    let ps = pieces(content, Cut::Line);
    let ls = if ps.last().len() == 0 { ps.drop_last() } else { ps };
    Seq::new(ls.len(), |i: int| line_body(ls[i], i < ps.len() - 1))
}

/// Whether a log line records the title `target` (compared trimmed and
/// lowercased) with the year `year`.
pub open spec fn is_target_line(line: Seq<char>, target: Seq<char>, year: Option<i32>, current_year: int) -> bool {
    match entry_of(line, current_year) {
        Some(e) => lowercase_of(trim(e.cleaned_title)) == lowercase_of(target) && e.release_year
            == year,
        None => false,
    }
}

/// The lines that do not record the target, in order.
pub open spec fn kept_lines(ls: Seq<Seq<char>>, target: Seq<char>, year: Option<i32>, current_year: int) -> Seq<Seq<char>>
    decreases ls.len(),
{
    if ls.len() == 0 {
        Seq::empty()
    } else {
        let init = kept_lines(ls.drop_last(), target, year, current_year);
        if is_target_line(ls.last(), target, year, current_year) {
            init
        } else {
            init.push(ls.last())
        }
    }
}

/// The new log text once the entries of `title` and `year` are taken out:
/// the kept lines, each ended by a line feed; none where the trimmed title is
/// empty or no line records it.
pub open spec fn pruned(content: Seq<char>, title: Seq<char>, year: Option<i32>, current_year: int) -> Option<Seq<char>> {
    let target = trim(title);
    let ls = text_lines(content);
    let kept = kept_lines(ls, target, year, current_year);
    if target.len() == 0 || kept.len() == ls.len() {
        None
    } else {
        let j = join_with(kept, '\n');
        if j.len() == 0 {
            Some(j)
        } else {
            Some(j.push('\n'))
        }
    }
}

proof fn lemma_kept_len(ls: Seq<Seq<char>>, target: Seq<char>, year: Option<i32>, current_year: int)
    ensures
        kept_lines(ls, target, year, current_year).len() <= ls.len(),
    decreases ls.len(),
{
    if ls.len() > 0 {
        lemma_kept_len(ls.drop_last(), target, year, current_year);
    }
}

pub(crate) fn lines_of(cs: &Vec<char>) -> (r: Vec<Vec<char>>)
    ensures
        views(r@) == text_lines(cs@),
{
    let ps = split_pieces(cs, Cut::Line);
    let ghost pv = views(ps@);
    let mut n = ps.len();
    if ps[n - 1].len() == 0 {
        n = n - 1;
    }
    let ghost ls = if pv.last().len() == 0 { pv.drop_last() } else { pv };
    assert(text_lines(cs@).len() == n);
    assert forall|k: int| 0 <= k < n implies #[trigger] text_lines(cs@)[k] == line_body(
        ps@[k]@,
        k < ps@.len() - 1,
    ) by {
        assert(ls[k] == pv[k]);
    }
    let mut out: Vec<Vec<char>> = Vec::new();
    let mut i: usize = 0;
    while i < n
        invariant
            text_lines(cs@).len() == n,
            forall|k: int| 0 <= k < n ==> #[trigger] text_lines(cs@)[k] == line_body(
                ps@[k]@,
                k < ps@.len() - 1,
            ),
            n <= ps@.len(),
            pv == views(ps@),
            pv == pieces(cs@, Cut::Line),
            i <= n,
            views(out@) == text_lines(cs@).take(i as int),
        decreases n - i,
    {
        let p = &ps[i];
        let ended = i + 1 < ps.len();
        let line = if ended && p.len() > 0 && p[p.len() - 1] == '\r' {
            crate::text::sub_chars(p, 0, p.len() - 1)
        } else {
            crate::text::sub_chars(p, 0, p.len())
        };
        assert(p@.subrange(0, p@.len() as int) =~= p@);
        assert(p@.len() > 0 ==> p@.subrange(0, p@.len() - 1) =~= p@.drop_last());
        assert(line@ == text_lines(cs@)[i as int]);
        let ghost before = out@;
        out.push(line);
        assert(views(out@) =~= views(before).push(line@));
        i = i + 1;
        assert(views(out@) =~= text_lines(cs@).take(i as int));
    }
    assert(text_lines(cs@).take(n as int) =~= text_lines(cs@));
    out
}

fn is_target(line: &Vec<char>, target_lower: &String, release_year: Option<i32>, current_year: i32) -> (r: bool)
    ensures
        r == (match entry_of(line@, current_year as int) {
            Some(e) => lowercase_of(trim(e.cleaned_title)) == target_lower@ && e.release_year
                == release_year,
            None => false,
        }),
{
    match entry_from_chars(line, current_year) {
        Some(e) => {
            let t = trimmed(e.cleaned_title.as_str());
            let t_text = string_of(&t, 0, t.len());
            assert(t@.subrange(0, t@.len() as int) =~= t@);
            let lower = lowercase(t_text.as_str());
            lower == *target_lower && e.release_year == release_year
        },
        None => false,
    }
}

fn keep_lines(
    lines: &Vec<Vec<char>>,
    target: &Vec<char>,
    target_lower: &String,
    release_year: Option<i32>,
    current_year: i32,
) -> (r: Vec<Vec<char>>)
    requires
        target_lower@ == lowercase_of(target@),
    ensures
        views(r@) == kept_lines(views(lines@), target@, release_year, current_year as int),
{
    let ghost ls = views(lines@);
    let mut kept: Vec<Vec<char>> = Vec::new();
    let mut i: usize = 0;
    while i < lines.len()
        invariant
            i <= lines@.len(),
            ls == views(lines@),
            target_lower@ == lowercase_of(target@),
            views(kept@) == kept_lines(ls.take(i as int), target@, release_year, current_year as int),
        decreases lines@.len() - i,
    {
        let ghost pre = ls.take(i as int);
        let ghost next = ls.take(i + 1);
        assert(next.drop_last() =~= pre);
        assert(next.last() == lines@[i as int]@);
        let hit = is_target(&lines[i], target_lower, release_year, current_year);
        assert(hit == is_target_line(lines@[i as int]@, target@, release_year, current_year as int));
        if !hit {
            let line = crate::text::sub_chars(&lines[i], 0, lines[i].len());
            assert(lines@[i as int]@.subrange(0, lines@[i as int]@.len() as int) =~= lines@[i as int]@);
            let ghost before = kept@;
            kept.push(line);
            assert(views(kept@) =~= views(before).push(lines@[i as int]@));
        }
        i = i + 1;
    }
    assert(ls.take(lines@.len() as int) =~= ls);
    kept
}

/// The log text without the entries of the trimmed title `cleaned_title`
/// (compared lowercased) and the year `release_year`; none where there is
/// nothing to take out.
pub fn remove_log_entries_at(
    content: &str,
    cleaned_title: &str,
    release_year: Option<i32>,
    current_year: i32,
) -> (r: Option<String>)
    ensures
        (match r {
            Some(s) => Some(s@),
            None => None,
        }) == pruned(content@, cleaned_title@, release_year, current_year as int),
{
    let target = trimmed(cleaned_title);
    let cs = chars_of(content);
    let lines = lines_of(&cs);
    proof {
        lemma_kept_len(views(lines@), target@, release_year, current_year as int);
    }
    if target.len() == 0 {
        return None;
    }
    let target_text = string_of(&target, 0, target.len());
    assert(target@.subrange(0, target@.len() as int) =~= target@);
    let target_lower = lowercase(target_text.as_str());
    let kept = keep_lines(&lines, &target, &target_lower, release_year, current_year);
    if kept.len() == lines.len() {
        return None;
    }
    let mut joined = join_pieces(&kept, '\n');
    if joined.len() > 0 {
        joined.push('\n');
    }
    let n = joined.len();
    assert(joined@.subrange(0, n as int) =~= joined@);
    Some(string_of(&joined, 0, n))
}

} // verus!
