//! Movie watch history: clean titles and release years out of noisy file
//! names in a media player's watch log, and merge metadata looked up in a
//! remote movie database through a persistent cache.
pub mod text;
pub mod title;
pub mod log;
pub mod tmdb;
pub mod enrich;
pub mod prune;
pub mod settings;

pub use log::{
    WatchEntry, clean_title, clean_title_and_year, clean_title_and_year_at, parse_log_line,
    parse_log_line_at, parse_watch_log, parse_watch_log_at,
};
pub use title::{normalize_title_at, title_and_year_of};
