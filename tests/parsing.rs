use goo::{parse_log_line, parse_log_line_at, parse_watch_log, parse_watch_log_at};

#[test]
fn parses_pipe_delimited_log_lines() {
    let entry = parse_log_line("2025-01-01T10:00:00Z|C:\\Movies\\Blade.Runner.2049.1080p.mkv")
        .expect("entry");
    assert_eq!(entry.watched_at.as_deref(), Some("2025-01-01T10:00:00Z"));
    assert_eq!(entry.raw_title, "Blade.Runner.2049.1080p");
    assert_eq!(entry.cleaned_title, "Blade Runner 2049");
}

#[test]
fn parses_tab_delimited_log_lines() {
    let entry = parse_log_line("2025-01-01T10:00:00Z\tAlien.1979.720p.mkv")
        .expect("entry");
    assert_eq!(entry.watched_at.as_deref(), Some("2025-01-01T10:00:00Z"));
    assert_eq!(entry.cleaned_title, "Alien");
}

#[test]
fn ignores_blank_lines() {
    assert!(parse_log_line("   ").is_none());
}

#[test]
fn blank_and_whitespace_lines_give_nothing() {
    assert!(parse_log_line("").is_none());
    assert!(parse_log_line(" \t \r").is_none());
    assert!(parse_log_line_at("\u{3000}", 2026).is_none());
}

#[test]
fn blade_runner_line_in_detail() {
    let line = "2025-01-01T10:00:00Z|C:\\Movies\\Blade.Runner.2049.1080p.mkv";
    let entry = parse_log_line_at(line, 2026).expect("entry");
    assert_eq!(entry.watched_at.as_deref(), Some("2025-01-01T10:00:00Z"));
    assert_eq!(entry.cleaned_title, "Blade Runner 2049");
    assert_eq!(entry.release_year, None);
    let entry = parse_log_line_at(line, 2049).expect("entry");
    assert_eq!(entry.cleaned_title, "Blade Runner");
    assert_eq!(entry.release_year, Some(2049));
}

#[test]
fn line_without_delimiter_has_no_timestamp() {
    let entry = parse_log_line_at("  Heat.1995.1080p.mkv  ", 2026).expect("entry");
    assert_eq!(entry.watched_at, None);
    assert_eq!(entry.raw_title, "Heat.1995.1080p");
    assert_eq!(entry.cleaned_title, "Heat");
    assert_eq!(entry.release_year, Some(1995));
}

#[test]
fn first_delimiter_splits_the_line() {
    let entry = parse_log_line_at(" stamp \t Up.2009|x ", 2026).expect("entry");
    assert_eq!(entry.watched_at.as_deref(), Some("stamp"));
    assert_eq!(entry.raw_title, "Up");
}

#[test]
fn file_uri_prefix_and_directories_are_dropped() {
    let entry = parse_log_line_at("t|file:///home/me/Movies/Alien.1979.mkv", 2026).expect("entry");
    assert_eq!(entry.raw_title, "Alien.1979");
    assert_eq!(entry.cleaned_title, "Alien");
    assert_eq!(entry.release_year, Some(1979));
}

#[test]
fn title_without_file_name_is_kept_verbatim() {
    let entry = parse_log_line_at("t|..", 2026).expect("entry");
    assert_eq!(entry.raw_title, "..");
    let entry = parse_log_line_at("t|.hidden", 2026).expect("entry");
    assert_eq!(entry.raw_title, ".hidden");
    let entry = parse_log_line_at("t|/movies/Heat.mkv/", 2026).expect("entry");
    assert_eq!(entry.raw_title, "Heat");
}

#[test]
fn log_keeps_order_and_skips_blank_lines() {
    let content = "a|Heat.1995.mkv\n\n   \r\nb|Alien.1979.mkv\r\nUp.2009.mkv\n";
    let entries = parse_watch_log_at(content, 2026);
    assert_eq!(entries.len(), 3);
    assert_eq!(entries[0].cleaned_title, "Heat");
    assert_eq!(entries[1].watched_at.as_deref(), Some("b"));
    assert_eq!(entries[1].cleaned_title, "Alien");
    assert_eq!(entries[2].watched_at, None);
    assert_eq!(entries[2].cleaned_title, "Up");
    assert!(parse_watch_log("").is_empty());
}
