//! Settings text: API keys as entered, and `key=value` lines of the media
//! player's configuration file.
use vstd::prelude::*;
use crate::text::{
    Cut, chars_of, join_with, join_pieces, pieces, skip_ws, split_pieces, string_of, sub_chars,
    trim, trim_range, trim_start, trimmed, views,
};
use crate::prune::{text_lines, lines_of};

verus! {

/// A key as entered: trimmed, none where nothing is left.
pub fn normalize_key(value: String) -> (r: Option<String>)
    ensures
        r is None <==> trim(value@).len() == 0,
        r matches Some(k) ==> k@ == trim(value@),
{
    let t = trimmed(value.as_str());
    if t.len() == 0 {
        None
    } else {
        assert(t@.subrange(0, t@.len() as int) =~= t@);
        Some(string_of(&t, 0, t.len()))
    }
}

/// A line's text after its leading whitespace and one comment mark `#` with
/// the whitespace after it.
pub open spec fn setting_text(line: Seq<char>) -> Seq<char> {
    let t = trim_start(line);
    if t.len() > 0 && t[0] == '#' {
        trim_start(t.drop_first())
    } else {
        t
    }
}

/// Whether a line sets `key`, commented out or not.
pub open spec fn is_setting(line: Seq<char>, key: Seq<char>) -> bool {
    sets_key(setting_text(line), key)
}

/// Whether `u` starts with `key` and `=`.
pub open spec fn sets_key(u: Seq<char>, key: Seq<char>) -> bool {
    u.len() > key.len() && u.take(key.len() as int) == key && u[key.len() as int] == '='
}

fn starts_with_assignment(u: &Vec<char>, key: &Vec<char>) -> (r: bool)
    ensures
        r == sets_key(u@, key@),
{
    if u.len() <= key.len() {
        return false;
    }
    let mut j: usize = 0;
    while j < key.len()
        invariant
            key@.len() < u@.len(),
            j <= key@.len(),
            forall|m: int| 0 <= m < j ==> u@[m] == key@[m],
        decreases key@.len() - j,
    {
        if u[j] != key[j] {
            assert(u@.take(key@.len() as int)[j as int] != key@[j as int]);
            return false;
        }
        j = j + 1;
    }
    assert(u@.take(key@.len() as int) =~= key@);
    u[key.len()] == '='
}

fn setting_text_of(line: &Vec<char>) -> (r: Vec<char>)
    ensures
        r@ == setting_text(line@),
{
    let n = line.len();
    let mut i = skip_ws(line, 0);
    assert(line@.subrange(0, n as int) =~= line@);
    if i < n && line[i] == '#' {
        assert(line@.subrange(i as int, n as int).drop_first() =~= line@.subrange(i + 1, n as int));
        i = skip_ws(line, i + 1);
    }
    sub_chars(line, i, n)
}

fn is_setting_chars(line: &Vec<char>, key: &Vec<char>) -> (r: bool)
    ensures
        r == is_setting(line@, key@),
{
    let u = setting_text_of(line);
    starts_with_assignment(&u, key)
}

/// Whether `line` sets `key`, commented out or not.
pub fn is_setting_line(line: &str, key: &str) -> (r: bool)
    ensures
        r == is_setting(line@, key@),
{
    let l = chars_of(line);
    let k = chars_of(key);
    is_setting_chars(&l, &k)
}

/// The index of the first `c` at or after `i`, or -1.
pub open spec fn first_index_of(s: Seq<char>, c: char, i: int) -> int
    decreases s.len() - i,
{
    if i < 0 || i >= s.len() {
        -1
    } else if s[i] == c {
        i
    } else {
        first_index_of(s, c, i + 1)
    }
}

/// The pieces trimmed, the empty ones left out.
pub open spec fn kept_items(ps: Seq<Seq<char>>) -> Seq<Seq<char>>
    decreases ps.len(),
{
    if ps.len() == 0 {
        Seq::empty()
    } else {
        let init = kept_items(ps.drop_last());
        if trim(ps.last()).len() == 0 {
            init
        } else {
            init.push(trim(ps.last()))
        }
    }
}

pub open spec fn is_upper(c: char) -> bool {
    'A' <= c && c <= 'Z'
}

/// Two characters equal once ASCII capitals are lowercased.
pub open spec fn same_ignoring_ascii_case(x: char, y: char) -> bool {
    x == y || (is_upper(x) && y as u32 == x as u32 + 32) || (is_upper(y) && x as u32 == y as u32 + 32)
}

pub open spec fn eq_ignoring_ascii_case(a: Seq<char>, b: Seq<char>) -> bool {
    a.len() == b.len() && forall|i: int| 0 <= i < a.len() ==> same_ignoring_ascii_case(#[trigger] a[i], b[i])
}

fn eq_ignore_case(a: &Vec<char>, b: &Vec<char>) -> (r: bool)
    ensures
        r == eq_ignoring_ascii_case(a@, b@),
{
    if a.len() != b.len() {
        return false;
    }
    let mut i: usize = 0;
    while i < a.len()
        invariant
            a@.len() == b@.len(),
            i <= a@.len(),
            forall|j: int| 0 <= j < i ==> same_ignoring_ascii_case(#[trigger] a@[j], b@[j]),
        decreases a@.len() - i,
    {
        let x = a[i];
        let y = b[i];
        let same = x == y || ('A' <= x && x <= 'Z' && (y as u32) == (x as u32) + 32) || (
        'A' <= y && y <= 'Z' && (x as u32) == (y as u32) + 32);
        if !same {
            return false;
        }
        i = i + 1;
    }
    true
}

/// The value of an `extraintf=` line with `value` among its interfaces: the
/// listed interfaces, trimmed and joined by `:`, with `value` added at the end
/// unless one of them equals it but for ASCII case; only `value` where the
/// line has no `=`.
pub open spec fn merged(line: Seq<char>, value: Seq<char>) -> Seq<char> {
    let k = first_index_of(line, '=', 0);
    if k < 0 {
        value
    } else {
        let items = kept_items(pieces(line.skip(k + 1), Cut::ListItem));
        if exists|i: int| 0 <= i < items.len() && eq_ignoring_ascii_case(#[trigger] items[i], value) {
            join_with(items, ':')
        } else {
            join_with(items.push(value), ':')
        }
    }
}

fn merge_chars(line: &Vec<char>, value: &Vec<char>) -> (r: Vec<char>)
    ensures
        r@ == merged(line@, value@),
{
    let n = line.len();
    let mut k: usize = 0;
    while k < n && line[k] != '='
        invariant
            k <= n == line@.len(),
            first_index_of(line@, '=', 0) == first_index_of(line@, '=', k as int),
        decreases n - k,
    {
        k = k + 1;
    }
    if k == n {
        return sub_chars(value, 0, value.len());
    }
    let raw = sub_chars(line, k + 1, n);
    assert(raw@ =~= line@.skip(k + 1));
    let ps = split_pieces(&raw, Cut::ListItem);
    let ghost pv = views(ps@);
    let mut items: Vec<Vec<char>> = Vec::new();
    let mut i: usize = 0;
    while i < ps.len()
        invariant
            i <= ps@.len(),
            pv == views(ps@),
            views(items@) == kept_items(pv.take(i as int)),
        decreases ps@.len() - i,
    {
        let ghost pre = pv.take(i as int);
        let ghost next = pv.take(i + 1);
        assert(next.drop_last() =~= pre);
        assert(next.last() == ps@[i as int]@);
        let t = trim_range(&ps[i], 0, ps[i].len());
        assert(ps@[i as int]@.subrange(0, ps@[i as int]@.len() as int) =~= ps@[i as int]@);
        if t.len() > 0 {
            let ghost before = items@;
            items.push(t);
            assert(views(items@) =~= views(before).push(t@));
        }
        i = i + 1;
    }
    assert(pv.take(ps@.len() as int) =~= pv);
    let ghost iv = views(items@);
    let mut found = false;
    let mut j: usize = 0;
    while j < items.len()
        invariant
            j <= items@.len(),
            iv == views(items@),
            found <==> exists|m: int| 0 <= m < j && eq_ignoring_ascii_case(#[trigger] iv[m], value@),
        decreases items@.len() - j,
    {
        if eq_ignore_case(&items[j], value) {
            found = true;
        }
        assert(iv[j as int] == items@[j as int]@);
        j = j + 1;
    }
    if !found {
        let v = sub_chars(value, 0, value.len());
        assert(value@.subrange(0, value@.len() as int) =~= value@);
        items.push(v);
        assert(views(items@) =~= iv.push(value@));
    }
    join_pieces(&items, ':')
}

/// The value of an `extraintf=` line with `value` among its interfaces.
pub fn merge_extraintf_value(line: &str, value: &str) -> (r: String)
    ensures
        r@ == merged(line@, value@),
{
    let l = chars_of(line);
    let v = chars_of(value);
    let m = merge_chars(&l, &v);
    assert(m@.subrange(0, m@.len() as int) =~= m@);
    string_of(&m, 0, m.len())
}

pub open spec fn assignment(key: Seq<char>, value: Seq<char>) -> Seq<char> {
    key + seq!['='] + value
}

/// The line that takes the place of a line setting `key`.
pub open spec fn new_setting(line: Seq<char>, key: Seq<char>, value: Seq<char>, merge: bool) -> Seq<char> {
    assignment(key, if merge { merged(line, value) } else { value })
}

pub open spec fn replaced(ls: Seq<Seq<char>>, key: Seq<char>, value: Seq<char>, merge: bool) -> Seq<Seq<char>> {
    Seq::new(ls.len(), |i: int| if is_setting(ls[i], key) { new_setting(ls[i], key, value, merge) } else { ls[i] })
}

/// The configuration text with every line that sets `key` (commented out or
/// not) replaced by an active setting; where none does, an empty line and
/// `key=value` are appended (no empty line in an empty text). Lines are
/// joined by `\n`.
pub open spec fn upserted(content: Seq<char>, key: Seq<char>, value: Seq<char>, merge: bool) -> Seq<char> {
    let ls = text_lines(content);
    let m = replaced(ls, key, value, merge);
    let found = exists|i: int| 0 <= i < ls.len() && is_setting(#[trigger] ls[i], key);
    join_with(
        if found {
            m
        } else if ls.len() == 0 {
            seq![assignment(key, value)]
        } else {
            m.push(Seq::empty()).push(assignment(key, value))
        },
        '\n',
    )
}

fn assignment_chars(key: &Vec<char>, value: &Vec<char>) -> (r: Vec<char>)
    ensures
        r@ == assignment(key@, value@),
{
    let mut out = sub_chars(key, 0, key.len());
    assert(key@.subrange(0, key@.len() as int) =~= key@);
    out.push('=');
    let ghost base = out@;
    let mut i: usize = 0;
    while i < value.len()
        invariant
            i <= value@.len(),
            out@ == base + value@.take(i as int),
        decreases value@.len() - i,
    {
        out.push(value[i]);
        i = i + 1;
        assert(out@ =~= base + value@.take(i as int));
    }
    assert(value@.take(value@.len() as int) =~= value@);
    out
}

fn upsert_lines(content: &str, key: &str, value: &str, merge: bool) -> (r: String)
    ensures
        r@ == upserted(content@, key@, value@, merge),
{
    let cs = chars_of(content);
    let k = chars_of(key);
    let v = chars_of(value);
    let lines = lines_of(&cs);
    let ghost ls = views(lines@);
    let mut out: Vec<Vec<char>> = Vec::new();
    let mut found = false;
    let mut i: usize = 0;
    while i < lines.len()
        invariant
            i <= lines@.len(),
            ls == views(lines@),
            ls == text_lines(content@),
            k@ == key@,
            v@ == value@,
            views(out@) == replaced(ls, key@, value@, merge).take(i as int),
            found <==> exists|m: int| 0 <= m < i && is_setting(#[trigger] ls[m], key@),
        decreases lines@.len() - i,
    {
        let line = &lines[i];
        assert(ls[i as int] == line@);
        let item = if is_setting_chars(line, &k) {
            found = true;
            if merge {
                let m = merge_chars(line, &v);
                assignment_chars(&k, &m)
            } else {
                assignment_chars(&k, &v)
            }
        } else {
            assert(line@.subrange(0, line@.len() as int) =~= line@);
            sub_chars(line, 0, line.len())
        };
        assert(item@ == replaced(ls, key@, value@, merge)[i as int]);
        let ghost before = out@;
        out.push(item);
        assert(views(out@) =~= views(before).push(item@));
        i = i + 1;
        assert(views(out@) =~= replaced(ls, key@, value@, merge).take(i as int));
    }
    assert(replaced(ls, key@, value@, merge).take(ls.len() as int) =~= replaced(ls, key@, value@, merge));
    if !found {
        let len_before = out.len();
        if len_before > 0 {
            out.push(Vec::new());
        }
        out.push(assignment_chars(&k, &v));
        if len_before > 0 {
            assert(views(out@) =~= replaced(ls, key@, value@, merge).push(Seq::empty()).push(
                assignment(key@, value@),
            ));
        } else {
            assert(views(out@) =~= seq![assignment(key@, value@)]);
        }
    }
    let joined = join_pieces(&out, '\n');
    assert(joined@.subrange(0, joined@.len() as int) =~= joined@);
    string_of(&joined, 0, joined.len())
}

/// The configuration text with `key` set to `value`.
pub fn upsert_setting(content: &str, key: &str, value: &str) -> (r: String)
    ensures
        r@ == upserted(content@, key@, value@, false),
{
    upsert_lines(content, key, value, false)
}

/// The name of the setting that lists the extra interfaces to load.
pub const EXTRA_INTERFACES_KEY: &'static str = "extraintf";

/// The configuration text with `value` among the extra interfaces.
pub fn upsert_extraintf(content: &str, value: &str) -> (r: String)
    ensures
        r@ == upserted(content@, EXTRA_INTERFACES_KEY@, value@, true),
{
    upsert_lines(content, EXTRA_INTERFACES_KEY, value, true)
}

} // verus!
