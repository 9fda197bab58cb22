use goo::enrich::{cache_key, enrich_entries, pending_lookups, MovieCache};
use goo::parse_watch_log_at;
use goo::tmdb::{TmdbClient, TmdbMovie, DEFAULT_POSTER_SIZE};

fn movie(id: u32, title: &str, poster: Option<&str>) -> TmdbMovie {
    TmdbMovie {
        id,
        title: title.to_string(),
        original_title: None,
        overview: None,
        release_date: None,
        poster_path: poster.map(|p| p.to_string()),
    }
}

#[test]
fn builds_poster_url() {
    let movie = TmdbMovie {
        id: 1,
        title: "Test".to_string(),
        original_title: None,
        overview: None,
        release_date: None,
        poster_path: Some("/poster.png".to_string()),
    };
    let url = movie.poster_url(DEFAULT_POSTER_SIZE).expect("poster url");
    assert_eq!(url, "https://image.tmdb.org/t/p/w342/poster.png");
}

#[test]
fn builds_tmdb_url() {
    let movie = TmdbMovie {
        id: 42,
        title: "Test".to_string(),
        original_title: None,
        overview: None,
        release_date: None,
        poster_path: None,
    };
    assert_eq!(movie.tmdb_url(), "https://www.themoviedb.org/movie/42");
}

#[test]
fn poster_url_edge_cases() {
    assert_eq!(movie(1, "A", None).poster_url("w342"), None);
    assert_eq!(
        movie(1, "A", Some("//p.jpg")).poster_url("original").as_deref(),
        Some("https://image.tmdb.org/t/p/original/p.jpg")
    );
    assert_eq!(movie(0, "A", None).tmdb_url(), "https://www.themoviedb.org/movie/0");
    assert_eq!(
        movie(4_294_967_295, "A", None).tmdb_url(),
        "https://www.themoviedb.org/movie/4294967295"
    );
}

#[test]
fn cache_keys_lowercase_trim_and_add_year() {
    assert_eq!(cache_key("  The Matrix ", Some(1999)), "the matrix|1999");
    assert_eq!(cache_key("The Matrix", None), "the matrix");
    assert_eq!(cache_key("ÉCOLE", Some(-5)), "école|-5");
    assert_ne!(cache_key("Heat", Some(1995)), cache_key("Heat", Some(1986)));
    assert_ne!(cache_key("Heat", Some(1995)), cache_key("Heat", None));
}

#[test]
fn cache_lookup_is_three_valued() {
    let mut cache = MovieCache::new();
    assert!(cache.get("heat|1995").is_none());
    cache.insert("heat|1995".to_string(), None);
    assert!(matches!(cache.get("heat|1995"), Some(None)));
    cache.insert("alien|1979".to_string(), Some(movie(348, "Alien", None)));
    let found = cache.get("alien|1979").expect("present").expect("record");
    assert_eq!(found.id, 348);
    cache.insert("alien|1979".to_string(), None);
    assert!(matches!(cache.get("alien|1979"), Some(Some(_))));
    assert_eq!(cache.len(), 2);
}

#[test]
fn best_match_is_the_first_result() {
    let client = TmdbClient::new("key".to_string());
    assert!(client.best_match(Vec::new()).is_none());
    let best = client
        .best_match(vec![movie(7, "First", None), movie(8, "Second", None)])
        .expect("match");
    assert_eq!(best.id, 7);
}

#[test]
fn each_key_is_looked_up_once() {
    let content = "a|Heat.1995.mkv\nb|HEAT.1995.720p.mkv\nc|Heat.1986.mkv\nd|Alien.1979.mkv\ne|1080p.x264\n";
    let entries = parse_watch_log_at(content, 2026);
    assert_eq!(entries.len(), 5);
    let mut cache = MovieCache::new();
    cache.insert("alien|1979".to_string(), None);
    let lookups = pending_lookups(&entries, &cache);
    let keys: Vec<&str> = lookups.iter().map(|l| l.key.as_str()).collect();
    assert_eq!(keys, vec!["heat|1995", "heat|1986"]);
    assert_eq!(lookups[0].title, "Heat");
    assert_eq!(lookups[0].year, Some(1995));
    for l in &lookups {
        cache.insert(l.key.clone(), None);
    }
    assert!(pending_lookups(&entries, &cache).is_empty());
}

#[test]
fn enrichment_keeps_order_and_uses_cache() {
    let content = "1|Heat.1995.mkv\n\n2|Alien.1979.mkv\n3|1080p\n4|Heat.1995.mkv\n";
    let entries = parse_watch_log_at(content, 2026);
    let mut cache = MovieCache::new();
    cache.insert("heat|1995".to_string(), Some(movie(949, "Heat", Some("/heat.jpg"))));
    cache.insert("alien|1979".to_string(), None);
    let enriched = enrich_entries(entries, &cache);
    assert_eq!(enriched.len(), 4);
    let stamps: Vec<&str> = enriched.iter().map(|e| e.watched_at.as_deref().unwrap()).collect();
    assert_eq!(stamps, vec!["1", "2", "3", "4"]);
    assert_eq!(enriched[0].movie.as_ref().map(|m| m.id), Some(949));
    assert_eq!(enriched[0].tmdb_url.as_deref(), Some("https://www.themoviedb.org/movie/949"));
    assert_eq!(
        enriched[0].poster_url.as_deref(),
        Some("https://image.tmdb.org/t/p/w342/heat.jpg")
    );
    assert!(enriched[1].movie.is_none());
    assert!(enriched[1].tmdb_url.is_none());
    assert_eq!(enriched[2].cleaned_title, "");
    assert!(enriched[2].movie.is_none());
    assert_eq!(enriched[3].movie.as_ref().map(|m| m.id), Some(949));
}
