//! Movie metadata records from the remote movie database, and the display
//! URLs derived from them.
use vstd::prelude::*;
use crate::text::{chars_of, string_of};

verus! {

/// Where poster images are served from.
pub const TMDB_IMAGE_BASE: &'static str = "https://image.tmdb.org/t/p/";

/// Where a movie's page is.
pub const TMDB_MOVIE_BASE: &'static str = "https://www.themoviedb.org/movie/";

/// The image size used for posters.
pub const DEFAULT_POSTER_SIZE: &'static str = "w342";

/// Access to the remote movie database.
#[derive(Debug, Clone)]
pub struct TmdbClient {
    api_key: String,
}

/// One metadata record.
#[derive(Debug, Clone)]
pub struct TmdbMovie {
    pub id: u32,
    pub title: String,
    pub original_title: Option<String>,
    pub overview: Option<String>,
    pub release_date: Option<String>,
    pub poster_path: Option<String>,
}

/// What a `TmdbMovie` holds, as character sequences.
pub struct MovieView {
    pub id: u32,
    pub title: Seq<char>,
    pub original_title: Option<Seq<char>>,
    pub overview: Option<Seq<char>>,
    pub release_date: Option<Seq<char>>,
    pub poster_path: Option<Seq<char>>,
}

impl View for TmdbMovie {
    type V = MovieView;

    open spec fn view(&self) -> MovieView {
        MovieView {
            id: self.id,
            title: self.title@,
            original_title: crate::log::opt_view(self.original_title),
            overview: crate::log::opt_view(self.overview),
            release_date: crate::log::opt_view(self.release_date),
            poster_path: crate::log::opt_view(self.poster_path),
        }
    }
}

pub open spec fn digit_char(d: int) -> char {
    if d == 0 { '0' } else if d == 1 { '1' } else if d == 2 { '2' } else if d == 3 { '3' }
    else if d == 4 { '4' } else if d == 5 { '5' } else if d == 6 { '6' } else if d == 7 { '7' }
    else if d == 8 { '8' } else { '9' }
}

/// The decimal digits of `n`, without leading zeros.
pub open spec fn decimal(n: nat) -> Seq<char>
    decreases n,
{
    if n < 10 {
        seq![digit_char(n as int)]
    } else {
        decimal(n / 10).push(digit_char((n % 10) as int))
    }
}

/// The decimal form of `n`, with a leading `-` when it is negative.
pub open spec fn signed_decimal(n: int) -> Seq<char> {
    if n < 0 {
        seq!['-'] + decimal((-n) as nat)
    } else {
        decimal(n as nat)
    }
}

fn digit_to_char(d: u32) -> (r: char)
    requires
        d < 10,
    ensures
        r == digit_char(d as int),
{
    if d == 0 { '0' } else if d == 1 { '1' } else if d == 2 { '2' } else if d == 3 { '3' }
    else if d == 4 { '4' } else if d == 5 { '5' } else if d == 6 { '6' } else if d == 7 { '7' }
    else if d == 8 { '8' } else { '9' }
}

proof fn lemma_decimal_shape(n: nat)
    ensures
        decimal(n).len() >= 1,
        n >= 10 ==> decimal(n).len() >= 2,
        forall|i: int| 0 <= i < decimal(n).len() ==> '0' <= #[trigger] decimal(n)[i] <= '9',
    decreases n,
{
    if n >= 10 {
        lemma_decimal_shape(n / 10);
    }
}

proof fn lemma_digit_char_injective(x: int, y: int)
    requires
        0 <= x < 10,
        0 <= y < 10,
        digit_char(x) == digit_char(y),
    ensures
        x == y,
{
}

proof fn lemma_decimal_injective(a: nat, b: nat)
    requires
        decimal(a) == decimal(b),
    ensures
        a == b,
    decreases a,
{
    lemma_decimal_shape(a);
    lemma_decimal_shape(b);
    if a >= 10 && b >= 10 {
        assert(decimal(a).drop_last() == decimal(b).drop_last());
        assert(decimal(a / 10) =~= decimal(a).drop_last());
        assert(decimal(b / 10) =~= decimal(b).drop_last());
        lemma_decimal_injective(a / 10, b / 10);
        assert(decimal(a).last() == decimal(b).last());
        assert(decimal(a) == decimal(a / 10).push(digit_char((a % 10) as int)));
        assert(decimal(b) == decimal(b / 10).push(digit_char((b % 10) as int)));
        assert(decimal(a).last() == digit_char((a % 10) as int));
        assert(decimal(b).last() == digit_char((b % 10) as int));
        lemma_digit_char_injective((a % 10) as int, (b % 10) as int);
        assert(a == 10 * (a / 10) + a % 10);
        assert(b == 10 * (b / 10) + b % 10);
    } else if a < 10 && b < 10 {
        assert(decimal(a) == seq![digit_char(a as int)]);
        assert(decimal(b) == seq![digit_char(b as int)]);
        assert(decimal(a)[0] == decimal(b)[0]);
        assert(decimal(a)[0] == digit_char(a as int));
        assert(decimal(b)[0] == digit_char(b as int));
        lemma_digit_char_injective(a as int, b as int);
    } else {
        assert(decimal(a).len() != decimal(b).len());
    }
}

/// Different integers have different decimal forms.
pub proof fn lemma_signed_decimal_injective(a: int, b: int)
    requires
        signed_decimal(a) == signed_decimal(b),
    ensures
        a == b,
{
    if a < 0 && b < 0 {
        assert(signed_decimal(a).drop_first() =~= decimal((-a) as nat));
        assert(signed_decimal(b).drop_first() =~= decimal((-b) as nat));
        lemma_decimal_injective((-a) as nat, (-b) as nat);
    } else if a >= 0 && b >= 0 {
        lemma_decimal_injective(a as nat, b as nat);
    } else if a < 0 {
        lemma_decimal_shape(b as nat);
        assert(signed_decimal(a)[0] == '-');
        assert('0' <= signed_decimal(b)[0]);
    } else {
        lemma_decimal_shape(a as nat);
        assert(signed_decimal(b)[0] == '-');
        assert('0' <= signed_decimal(a)[0]);
    }
}

/// Appends the decimal digits of `n` to `out`.
pub fn push_decimal(out: &mut Vec<char>, n: u32)
    ensures
        final(out)@ == old(out)@ + decimal(n as nat),
    decreases n,
{
    if n >= 10 {
        push_decimal(out, n / 10);
    }
    let d: u32 = n % 10;
    out.push(digit_to_char(d));
    assert(out@ =~= old(out)@ + decimal(n as nat));
}

/// The decimal form of `n`.
pub fn signed_decimal_chars(n: i32) -> (r: Vec<char>)
    ensures
        r@ == signed_decimal(n as int),
{
    let mut out: Vec<char> = Vec::new();
    if n < 0 {
        out.push('-');
        push_decimal(&mut out, (-(n as i64)) as u32);
    } else {
        push_decimal(&mut out, n as u32);
    }
    assert(out@ =~= signed_decimal(n as int));
    out
}

/// `s` without its leading `/` characters.
pub open spec fn strip_leading_slashes(s: Seq<char>) -> Seq<char>
    decreases s.len(),
{
    if s.len() > 0 && s[0] == '/' {
        strip_leading_slashes(s.drop_first())
    } else {
        s
    }
}

/// The poster image URL of a poster path at an image size.
pub open spec fn poster_url_of(path: Seq<char>, size: Seq<char>) -> Seq<char> {
    TMDB_IMAGE_BASE@ + size + seq!['/'] + strip_leading_slashes(path)
}

/// The page URL of a movie.
pub open spec fn tmdb_url_of(id: u32) -> Seq<char> {
    TMDB_MOVIE_BASE@ + decimal(id as nat)
}

pub open spec fn opt_movie_view(m: Option<TmdbMovie>) -> Option<MovieView> {
    match m {
        Some(m) => Some(m@),
        None => None,
    }
}

fn copy_opt(o: &Option<String>) -> (r: Option<String>)
    ensures
        crate::log::opt_view(r) == crate::log::opt_view(*o),
{
    match o {
        Some(s) => Some(s.clone()),
        None => None,
    }
}

fn append_chars(out: &mut Vec<char>, s: &str)
    ensures
        final(out)@ == old(out)@ + s@,
{
    let cs = chars_of(s);
    let mut i: usize = 0;
    while i < cs.len()
        invariant
            i <= cs@.len(),
            cs@ == s@,
            out@ == old(out)@ + cs@.take(i as int),
        decreases cs@.len() - i,
    {
        out.push(cs[i]);
        i = i + 1;
        assert(out@ =~= old(out)@ + cs@.take(i as int));
    }
    assert(cs@.take(cs@.len() as int) =~= cs@);
}

impl TmdbClient {
    /// A client that authenticates with `api_key`.
    pub fn new(api_key: String) -> (r: Self)
        ensures
            r.api_key() == api_key@,
    {
        TmdbClient { api_key }
    }

    pub closed spec fn api_key(&self) -> Seq<char> {
        self.api_key@
    }

    /// The key this client authenticates with.
    pub fn key(&self) -> (r: &str)
        ensures
            r@ == self.api_key(),
    {
        self.api_key.as_str()
    }

    /// The best match among search results ranked best first: the first
    /// one, none where there are none.
    pub fn best_match(&self, results: Vec<TmdbMovie>) -> (r: Option<TmdbMovie>)
        ensures
            results@.len() == 0 ==> r is None,
            results@.len() > 0 ==> r == Some(results@[0]),
    {
        let mut results = results;
        if results.len() == 0 {
            None
        } else {
            Some(results.remove(0))
        }
    }
}

impl TmdbMovie {
    /// A copy of this record.
    pub fn duplicate(&self) -> (r: TmdbMovie)
        ensures
            r@ == self@,
    {
        TmdbMovie {
            id: self.id,
            title: self.title.clone(),
            original_title: copy_opt(&self.original_title),
            overview: copy_opt(&self.overview),
            release_date: copy_opt(&self.release_date),
            poster_path: copy_opt(&self.poster_path),
        }
    }

    /// The poster image URL at image size `size`; none without a poster path.
    pub fn poster_url(&self, size: &str) -> (r: Option<String>)
        ensures
            match self.poster_path {
                Some(p) => r matches Some(u) && u@ == poster_url_of(p@, size@),
                None => r is None,
            },
    {
        match &self.poster_path {
            None => None,
            Some(p) => {
                let cs = chars_of(p.as_str());
                let mut k: usize = 0;
                assert(cs@.skip(0) =~= cs@);
                while k < cs.len() && cs[k] == '/'
                    invariant
                        k <= cs@.len(),
                        strip_leading_slashes(cs@) == strip_leading_slashes(cs@.skip(k as int)),
                    decreases cs@.len() - k,
                {
                    assert(cs@.skip(k as int).drop_first() =~= cs@.skip(k + 1));
                    k = k + 1;
                }
                let mut out: Vec<char> = Vec::new();
                append_chars(&mut out, TMDB_IMAGE_BASE);
                append_chars(&mut out, size);
                out.push('/');
                let ghost base = out@;
                let mut i: usize = k;
                while i < cs.len()
                    invariant
                        k <= i <= cs@.len(),
                        out@ == base + cs@.subrange(k as int, i as int),
                    decreases cs@.len() - i,
                {
                    out.push(cs[i]);
                    i = i + 1;
                    assert(out@ =~= base + cs@.subrange(k as int, i as int));
                }
                assert(cs@.subrange(k as int, cs@.len() as int) =~= cs@.skip(k as int));
                assert(out@ =~= poster_url_of(p@, size@));
                let n = out.len();
                assert(out@.subrange(0, n as int) =~= out@);
                Some(string_of(&out, 0, n))
            },
        }
    }

    /// The movie's page URL.
    pub fn tmdb_url(&self) -> (r: String)
        ensures
            r@ == tmdb_url_of(self.id),
    {
        let mut out: Vec<char> = Vec::new();
        append_chars(&mut out, TMDB_MOVIE_BASE);
        push_decimal(&mut out, self.id);
        let n = out.len();
        assert(out@.subrange(0, n as int) =~= out@);
        string_of(&out, 0, n)
    }
}

} // verus!
