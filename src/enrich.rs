//! The enrichment pipeline: cache keys, the lookup cache, which lookups a run
//! needs, and the merge of cached metadata into the entries.
use vstd::prelude::*;
use crate::text::{trim, trimmed, string_of};
use crate::log::{WatchEntry, WatchEntryView, entry_views, opt_view};
use crate::tmdb::{
    TmdbMovie, MovieView, opt_movie_view, signed_decimal, signed_decimal_chars, poster_url_of,
    tmdb_url_of, DEFAULT_POSTER_SIZE,
};

verus! {

/// The Unicode lowercase mapping of `s`, as `str::to_lowercase` gives it.
pub uninterp spec fn lowercase_of(s: Seq<char>) -> Seq<char>;

/// Relies on `str::to_lowercase`: the Unicode lowercase mapping of each
/// character, which depends on the characters alone.
#[verifier::external_body]
pub(crate) fn lowercase(s: &str) -> (r: String)
    ensures
        r@ == lowercase_of(s@),
{
    s.to_lowercase()
}

/// The cache key of a title and a year: the trimmed, lowercased title, with
/// `|` and the year after it where there is one.
pub open spec fn key_of(title: Seq<char>, year: Option<i32>) -> Seq<char> {
    let base = lowercase_of(trim(title));
    match year {
        Some(y) => base + seq!['|'] + signed_decimal(y as int),
        None => base,
    }
}

/// The cache key of a title and a year.
pub fn cache_key(title: &str, year: Option<i32>) -> (r: String)
    ensures
        r@ == key_of(title@, year),
{
    let t = trimmed(title);
    let n = t.len();
    assert(t@.subrange(0, n as int) =~= t@);
    let base = string_of(&t, 0, n);
    let lower = lowercase(base.as_str());
    match year {
        None => lower,
        Some(y) => {
            let mut cs = crate::text::chars_of(lower.as_str());
            cs.push('|');
            let digits = signed_decimal_chars(y);
            let mut i: usize = 0;
            let ghost base_chars = cs@;
            while i < digits.len()
                invariant
                    i <= digits@.len(),
                    cs@ == base_chars + digits@.take(i as int),
                decreases digits@.len() - i,
            {
                cs.push(digits[i]);
                i = i + 1;
                assert(cs@ =~= base_chars + digits@.take(i as int));
            }
            assert(digits@.take(digits@.len() as int) =~= digits@);
            let m = cs.len();
            assert(cs@.subrange(0, m as int) =~= cs@);
            string_of(&cs, 0, m)
        },
    }
}

/// The lookup results of earlier runs and of this one, by cache key: a key
/// that is present maps to its record, or to none where nothing was found.
pub struct MovieCache {
    entries: Vec<(String, Option<TmdbMovie>)>,
}

pub open spec fn pairs_map(s: Seq<(String, Option<TmdbMovie>)>) -> Map<Seq<char>, Option<MovieView>>
    decreases s.len(),
{
    if s.len() == 0 {
        Map::empty()
    } else {
        pairs_map(s.drop_last()).insert(s.last().0@, opt_movie_view(s.last().1))
    }
}

pub open spec fn keys_unique(s: Seq<(String, Option<TmdbMovie>)>) -> bool {
    forall|i: int, j: int| 0 <= i < j < s.len() ==> s[i].0@ != s[j].0@
}

proof fn lemma_pairs_lookup(s: Seq<(String, Option<TmdbMovie>)>, i: int)
    requires
        keys_unique(s),
        0 <= i < s.len(),
    ensures
        pairs_map(s).contains_key(s[i].0@),
        pairs_map(s)[s[i].0@] == opt_movie_view(s[i].1),
    decreases s.len(),
{
    if i < s.len() - 1 {
        let t = s.drop_last();
        assert(t[i] == s[i]);
        assert(keys_unique(t));
        lemma_pairs_lookup(t, i);
        assert(s[i].0@ != s[s.len() - 1].0@);
    }
}

proof fn lemma_pairs_absent(s: Seq<(String, Option<TmdbMovie>)>, k: Seq<char>)
    requires
        forall|i: int| 0 <= i < s.len() ==> (#[trigger] s[i]).0@ != k,
    ensures
        !pairs_map(s).contains_key(k),
    decreases s.len(),
{
    if s.len() > 0 {
        let t = s.drop_last();
        assert forall|i: int| 0 <= i < t.len() implies (#[trigger] t[i]).0@ != k by {
            assert(t[i] == s[i]);
        }
        lemma_pairs_absent(t, k);
        assert(s[s.len() - 1].0@ != k);
    }
}

proof fn lemma_pairs_domain(s: Seq<(String, Option<TmdbMovie>)>, k: Seq<char>)
    requires
        pairs_map(s).contains_key(k),
    ensures
        exists|i: int| 0 <= i < s.len() && (#[trigger] s[i]).0@ == k,
{
    if forall|i: int| 0 <= i < s.len() ==> (#[trigger] s[i]).0@ != k {
        lemma_pairs_absent(s, k);
    }
}

impl View for MovieCache {
    type V = Map<Seq<char>, Option<MovieView>>;

    closed spec fn view(&self) -> Map<Seq<char>, Option<MovieView>> {
        pairs_map(self.entries@)
    }
}

impl MovieCache {
    /// Each key is held once.
    pub closed spec fn wf(&self) -> bool {
        keys_unique(self.entries@)
    }

    /// An empty cache.
    pub fn new() -> (r: Self)
        ensures
            r.wf(),
            r@ == Map::<Seq<char>, Option<MovieView>>::empty(),
    {
        MovieCache { entries: Vec::new() }
    }

    fn position(&self, key: &String) -> (r: Option<usize>)
        requires
            self.wf(),
        ensures
            match r {
                Some(i) => i < self.entries@.len() && self.entries@[i as int].0@ == key@,
                None => forall|i: int|
                    0 <= i < self.entries@.len() ==> (#[trigger] self.entries@[i]).0@ != key@,
            },
    {
        let mut i: usize = 0;
        while i < self.entries.len()
            invariant
                i <= self.entries@.len(),
                forall|j: int| 0 <= j < i ==> (#[trigger] self.entries@[j]).0@ != key@,
            decreases self.entries@.len() - i,
        {
            if self.entries[i].0 == *key {
                return Some(i);
            }
            i = i + 1;
        }
        None
    }

    /// Whether `key` was looked up, and what was found: none where it was
    /// never looked up, `Some(None)` where nothing was found.
    pub fn get(&self, key: &str) -> (r: Option<Option<TmdbMovie>>)
        requires
            self.wf(),
        ensures
            r is None <==> !self@.contains_key(key@),
            r matches Some(v) ==> opt_movie_view(v) == self@[key@],
    {
        let k = String::from_str(key);
        match self.position(&k) {
            Some(i) => {
                proof {
                    lemma_pairs_lookup(self.entries@, i as int);
                }
                match &self.entries[i].1 {
                    Some(m) => Some(Some(m.duplicate())),
                    None => Some(None),
                }
            },
            None => {
                proof {
                    lemma_pairs_absent(self.entries@, key@);
                }
                None
            },
        }
    }

    /// Records what a lookup of `key` found; a key already present keeps its
    /// first value.
    pub fn insert(&mut self, key: String, value: Option<TmdbMovie>)
        requires
            old(self).wf(),
        ensures
            final(self).wf(),
            old(self)@.contains_key(key@) ==> final(self)@ == old(self)@,
            !old(self)@.contains_key(key@) ==> final(self)@ == old(self)@.insert(
                key@,
                opt_movie_view(value),
            ),
    {
        match self.position(&key) {
            Some(i) => {
                proof {
                    lemma_pairs_lookup(self.entries@, i as int);
                }
            },
            None => {
                proof {
                    lemma_pairs_absent(self.entries@, key@);
                }
                let ghost before = self.entries@;
                self.entries.push((key, value));
                assert(self.entries@.drop_last() =~= before);
            },
        }
    }

    /// The number of keys held.
    pub fn len(&self) -> (r: usize)
        requires
            self.wf(),
        ensures
            r == self@.len(),
    {
        proof {
            lemma_pairs_len(self.entries@);
        }
        self.entries.len()
    }

    /// The key held at `index`, in the order of insertion.
    pub fn key_at(&self, index: usize) -> (r: String)
        requires
            self.wf(),
            index < self@.len(),
        ensures
            self@.contains_key(r@),
    {
        proof {
            lemma_pairs_len(self.entries@);
            lemma_pairs_lookup(self.entries@, index as int);
        }
        self.entries[index].0.clone()
    }
}

proof fn lemma_pairs_len(s: Seq<(String, Option<TmdbMovie>)>)
    requires
        keys_unique(s),
    ensures
        pairs_map(s).dom().finite(),
        pairs_map(s).len() == s.len(),
    decreases s.len(),
{
    if s.len() > 0 {
        let t = s.drop_last();
        assert(keys_unique(t));
        lemma_pairs_len(t);
        assert forall|i: int| 0 <= i < t.len() implies (#[trigger] t[i]).0@ != s.last().0@ by {
            assert(t[i] == s[i]);
        }
        lemma_pairs_absent(t, s.last().0@);
    }
}


/// One remote lookup that a run needs: the cache key, and the title and year
/// to search for.
pub struct Lookup {
    pub key: String,
    pub title: String,
    pub year: Option<i32>,
}

pub struct LookupView {
    pub key: Seq<char>,
    pub title: Seq<char>,
    pub year: Option<i32>,
}

impl View for Lookup {
    type V = LookupView;

    open spec fn view(&self) -> LookupView {
        LookupView { key: self.key@, title: self.title@, year: self.year }
    }
}

pub open spec fn lookup_views(ls: Seq<Lookup>) -> Seq<LookupView> {
    ls.map_values(|l: Lookup| l@)
}

pub open spec fn has_key(ls: Seq<LookupView>, k: Seq<char>) -> bool {
    exists|j: int| 0 <= j < ls.len() && (#[trigger] ls[j]).key == k
}

/// The lookups that the entries `es` need against `cache`, in the order of
/// their first entry: one per key that no entry before asked for, that the
/// cache does not hold, and whose title is not empty.
pub open spec fn pending(es: Seq<WatchEntryView>, cache: Map<Seq<char>, Option<MovieView>>) -> Seq<LookupView>
    decreases es.len(),
{
    if es.len() == 0 {
        Seq::empty()
    } else {
        let init = pending(es.drop_last(), cache);
        let e = es.last();
        let k = key_of(e.cleaned_title, e.release_year);
        if e.cleaned_title.len() == 0 || cache.contains_key(k) || has_key(init, k) {
            init
        } else {
            init.push(LookupView { key: k, title: e.cleaned_title, year: e.release_year })
        }
    }
}

/// The lookups that `entries` need against `cache`, each key once.
pub fn pending_lookups(entries: &Vec<WatchEntry>, cache: &MovieCache) -> (r: Vec<Lookup>)
    requires
        cache.wf(),
    ensures
        lookup_views(r@) == pending(entry_views(entries@), cache@),
{
    let ghost es = entry_views(entries@);
    let mut out: Vec<Lookup> = Vec::new();
    let mut i: usize = 0;
    while i < entries.len()
        invariant
            i <= entries@.len(),
            es == entry_views(entries@),
            cache.wf(),
            lookup_views(out@) == pending(es.take(i as int), cache@),
        decreases entries@.len() - i,
    {
        let ghost pre = es.take(i as int);
        let ghost next = es.take(i + 1);
        assert(next.drop_last() =~= pre);
        let e = &entries[i];
        assert(next.last() == e@);
        if e.cleaned_title.as_str().is_empty() {
        } else {
            let key = cache_key(e.cleaned_title.as_str(), e.release_year);
            let cached = cache.get(key.as_str());
            if cached.is_some() {
            } else {
                let mut seen = false;
                let mut j: usize = 0;
                while j < out.len()
                    invariant
                        j <= out@.len(),
                        !seen ==> forall|m: int| 0 <= m < j ==> (#[trigger] out@[m]).key@ != key@,
                        seen ==> has_key(lookup_views(out@), key@),
                    decreases out@.len() - j,
                {
                    if out[j].key == key {
                        seen = true;
                        assert(lookup_views(out@)[j as int].key == key@);
                    }
                    j = j + 1;
                }
                if !seen {
                    assert(!has_key(lookup_views(out@), key@)) by {
                        if has_key(lookup_views(out@), key@) {
                            let m = choose|m: int| 0 <= m < lookup_views(out@).len() && (#[trigger] lookup_views(out@)[m]).key == key@;
                            assert(out@[m].key@ == key@);
                        }
                    }
                    let title = e.cleaned_title.clone();
                    let l = Lookup { key, title, year: e.release_year };
                    out.push(l);
                    assert(lookup_views(out@) =~= pending(pre, cache@).push(l@));
                }
            }
        }
        i = i + 1;
    }
    assert(es.take(entries@.len() as int) =~= es);
    out
}

/// The lookups that a run needs name each key once, none that the cache
/// holds, and every key that an entry with a title needs and the cache lacks:
/// the remote service is asked once for each title and year.
pub proof fn lemma_pending_once_per_key(es: Seq<WatchEntryView>, cache: Map<Seq<char>, Option<MovieView>>)
    ensures
        forall|i: int, j: int|
            0 <= i < j < pending(es, cache).len() ==> #[trigger] pending(es, cache)[i].key
                != #[trigger] pending(es, cache)[j].key,
        forall|i: int|
            0 <= i < pending(es, cache).len() ==> !cache.contains_key(
                #[trigger] pending(es, cache)[i].key,
            ),
        forall|i: int|
            0 <= i < es.len() && (#[trigger] es[i]).cleaned_title.len() > 0 && !cache.contains_key(
                key_of(es[i].cleaned_title, es[i].release_year),
            ) ==> has_key(pending(es, cache), key_of(es[i].cleaned_title, es[i].release_year)),
    decreases es.len(),
{
    if es.len() > 0 {
        let t = es.drop_last();
        lemma_pending_once_per_key(t, cache);
        let init = pending(t, cache);
        let p = pending(es, cache);
        assert forall|i: int|
            0 <= i < es.len() && (#[trigger] es[i]).cleaned_title.len() > 0 && !cache.contains_key(
                key_of(es[i].cleaned_title, es[i].release_year),
            ) implies has_key(p, key_of(es[i].cleaned_title, es[i].release_year)) by {
            let k = key_of(es[i].cleaned_title, es[i].release_year);
            if i < es.len() - 1 {
                assert(t[i] == es[i]);
                let m = choose|m: int| 0 <= m < init.len() && (#[trigger] init[m]).key == k;
                assert(p[m] == init[m]);
            } else if !has_key(init, k) {
                assert(p[init.len() as int].key == k);
            } else {
                let m = choose|m: int| 0 <= m < init.len() && (#[trigger] init[m]).key == k;
                assert(p[m] == init[m]);
            }
        }
    }
}

/// One log entry with the metadata found for it and the URLs derived from
/// that metadata.
#[derive(Debug, Clone)]
pub struct EnrichedEntry {
    pub watched_at: Option<String>,
    pub raw_title: String,
    pub cleaned_title: String,
    pub movie: Option<TmdbMovie>,
    pub tmdb_url: Option<String>,
    pub poster_url: Option<String>,
}

pub struct EnrichedView {
    pub watched_at: Option<Seq<char>>,
    pub raw_title: Seq<char>,
    pub cleaned_title: Seq<char>,
    pub movie: Option<MovieView>,
    pub tmdb_url: Option<Seq<char>>,
    pub poster_url: Option<Seq<char>>,
}

impl View for EnrichedEntry {
    type V = EnrichedView;

    open spec fn view(&self) -> EnrichedView {
        EnrichedView {
            watched_at: opt_view(self.watched_at),
            raw_title: self.raw_title@,
            cleaned_title: self.cleaned_title@,
            movie: opt_movie_view(self.movie),
            tmdb_url: opt_view(self.tmdb_url),
            poster_url: opt_view(self.poster_url),
        }
    }
}

/// An entry with metadata `m`: the page URL from its identifier, the poster
/// URL from its poster path at the default size.
pub open spec fn enriched_of(e: WatchEntryView, m: Option<MovieView>) -> EnrichedView {
    EnrichedView {
        watched_at: e.watched_at,
        raw_title: e.raw_title,
        cleaned_title: e.cleaned_title,
        movie: m,
        tmdb_url: match m {
            Some(mv) => Some(tmdb_url_of(mv.id)),
            None => None,
        },
        poster_url: match m {
            Some(mv) => match mv.poster_path {
                Some(p) => Some(poster_url_of(p, DEFAULT_POSTER_SIZE@)),
                None => None,
            },
            None => None,
        },
    }
}

/// The metadata that `cache` gives an entry: none for an empty title or an
/// absent key.
pub open spec fn movie_for(e: WatchEntryView, cache: Map<Seq<char>, Option<MovieView>>) -> Option<MovieView> {
    let k = key_of(e.cleaned_title, e.release_year);
    if e.cleaned_title.len() == 0 || !cache.contains_key(k) {
        None
    } else {
        cache[k]
    }
}

/// The enriched entries of `es`, one for each, in the same order.
pub open spec fn enriched_all(es: Seq<WatchEntryView>, cache: Map<Seq<char>, Option<MovieView>>) -> Seq<EnrichedView> {
    Seq::new(es.len(), |i: int| enriched_of(es[i], movie_for(es[i], cache)))
}

pub open spec fn enriched_views(es: Seq<EnrichedEntry>) -> Seq<EnrichedView> {
    es.map_values(|e: EnrichedEntry| e@)
}

impl EnrichedEntry {
    /// An entry with the metadata `movie`.
    pub fn from_watch(entry: WatchEntry, movie: Option<TmdbMovie>) -> (r: Self)
        ensures
            r@ == enriched_of(entry@, opt_movie_view(movie)),
    {
        let tmdb_url = match &movie {
            Some(m) => Some(m.tmdb_url()),
            None => None,
        };
        let poster_url = match &movie {
            Some(m) => m.poster_url(DEFAULT_POSTER_SIZE),
            None => None,
        };
        EnrichedEntry {
            watched_at: entry.watched_at,
            raw_title: entry.raw_title,
            cleaned_title: entry.cleaned_title,
            movie,
            tmdb_url,
            poster_url,
        }
    }
}

/// Each entry with the metadata that `cache` holds for it, in input order.
pub fn enrich_entries(entries: Vec<WatchEntry>, cache: &MovieCache) -> (r: Vec<EnrichedEntry>)
    requires
        cache.wf(),
    ensures
        enriched_views(r@) == enriched_all(entry_views(entries@), cache@),
{
    let ghost es = entry_views(entries@);
    let mut out: Vec<EnrichedEntry> = Vec::new();
    let mut i: usize = 0;
    while i < entries.len()
        invariant
            i <= entries@.len(),
            es == entry_views(entries@),
            cache.wf(),
            enriched_views(out@) == enriched_all(es, cache@).take(i as int),
        decreases entries@.len() - i,
    {
        let e = &entries[i];
        let movie = if e.cleaned_title.as_str().is_empty() {
            None
        } else {
            let key = cache_key(e.cleaned_title.as_str(), e.release_year);
            match cache.get(key.as_str()) {
                Some(found) => found,
                None => None,
            }
        };
        assert(es[i as int] == e@);
        assert(opt_movie_view(movie) == movie_for(e@, cache@));
        let copy = e.duplicate();
        let item = EnrichedEntry::from_watch(copy, movie);
        assert(item@ == enriched_all(es, cache@)[i as int]);
        let ghost before = out@;
        out.push(item);
        assert(enriched_views(out@) =~= enriched_views(before).push(item@));
        i = i + 1;
        assert(enriched_views(out@) =~= enriched_all(es, cache@).take(i as int));
    }
    assert(enriched_all(es, cache@).take(entries@.len() as int) =~= enriched_all(es, cache@));
    out
}

/// Enrichment keeps the entries and their order: one enriched entry for each
/// entry, carrying its timestamp and titles, whatever the cache holds.
pub proof fn lemma_enrich_keeps_order(es: Seq<WatchEntryView>, cache: Map<Seq<char>, Option<MovieView>>)
    ensures
        enriched_all(es, cache).len() == es.len(),
        forall|i: int|
            0 <= i < es.len() ==> {
                &&& (#[trigger] enriched_all(es, cache)[i]).watched_at == es[i].watched_at
                &&& enriched_all(es, cache)[i].raw_title == es[i].raw_title
                &&& enriched_all(es, cache)[i].cleaned_title == es[i].cleaned_title
            },
{
}

/// Two entries with the same title and different years have different keys,
/// and so has the entry without a year.
pub proof fn lemma_keys_tell_years_apart(title: Seq<char>, y1: Option<i32>, y2: Option<i32>)
    requires
        y1 != y2,
    ensures
        key_of(title, y1) != key_of(title, y2),
{
    let base = lowercase_of(trim(title));
    match (y1, y2) {
        (Some(a), Some(b)) => {
            let k1 = base + seq!['|'] + signed_decimal(a as int);
            let k2 = base + seq!['|'] + signed_decimal(b as int);
            if k1 == k2 {
                assert(k1.skip(base.len() + 1int) =~= signed_decimal(a as int));
                assert(k2.skip(base.len() + 1int) =~= signed_decimal(b as int));
                crate::tmdb::lemma_signed_decimal_injective(a as int, b as int);
            }
        },
        (Some(a), None) => {
            assert(key_of(title, y1).len() > base.len());
        },
        (None, Some(b)) => {
            assert(key_of(title, y2).len() > base.len());
        },
        (None, None) => {},
    }
}

} // verus!
