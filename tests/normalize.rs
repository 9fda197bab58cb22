use goo::{clean_title, clean_title_and_year_at, normalize_title_at, title_and_year_of};
use goo::title::year_of_unix_seconds;

#[test]
fn cleans_common_fluff() {
    let cleaned = clean_title("Dune.2021.1080p.BluRay.x264.DTS.mkv");
    assert_eq!(cleaned, "Dune");
}

#[test]
fn removes_bracketed_segments() {
    let cleaned = clean_title("The.Matrix.(1999).2160p.HDR.Remux.mkv");
    assert_eq!(cleaned, "The Matrix");
}

#[test]
fn cleans_amores_perros() {
    let cleaned = clean_title("Amores.Perros.2000.1080p.BluRay.x264.AAC5.1");
    assert_eq!(cleaned, "Amores Perros");
}

#[test]
fn last_year_wins_among_several() {
    let (title, year) = title_and_year_of("2020 Movie 2021", 2026);
    assert_eq!(title, "2020 Movie");
    assert_eq!(year, Some(2021));
}

#[test]
fn single_leading_year_stays_in_title() {
    let (title, year) = title_and_year_of("2021 Movie", 2026);
    assert_eq!(title, "2021 Movie");
    assert_eq!(year, None);
}

#[test]
fn no_year_keeps_every_word() {
    let (title, year) = title_and_year_of("  Some   Movie ", 2026);
    assert_eq!(title, "Some Movie");
    assert_eq!(year, None);
}

#[test]
fn years_beyond_next_year_are_title_words() {
    let (title, year) = title_and_year_of("Blade Runner 2049", 2026);
    assert_eq!(title, "Blade Runner 2049");
    assert_eq!(year, None);
    let (title, year) = title_and_year_of("Blade Runner 2049", 2048);
    assert_eq!(title, "Blade Runner");
    assert_eq!(year, Some(2049));
    let (title, year) = title_and_year_of("Old Film 1899", 2026);
    assert_eq!(title, "Old Film 1899");
    assert_eq!(year, None);
}

#[test]
fn dune_scenario_gives_title_and_year() {
    let (title, year) = clean_title_and_year_at("Dune.2021.1080p.BluRay.x264.DTS.mkv", 2026);
    assert_eq!(title, "Dune");
    assert_eq!(year, Some(2021));
}

#[test]
fn matrix_scenario_drops_bracketed_year() {
    let (title, year) = clean_title_and_year_at("The.Matrix.(1999).2160p.HDR.Remux.mkv", 2026);
    assert_eq!(title, "The Matrix");
    assert_eq!(year, None);
}

#[test]
fn audio_channels_go_before_separators() {
    let (title, year) = normalize_title_at("Heat.1995.AAC5.1", 2026);
    assert_eq!(title, "Heat");
    assert_eq!(year, Some(1995));
    let (title, _) = normalize_title_at("Movie.2010.AAC.5.1", 2026);
    assert_eq!(title, "Movie");
}

#[test]
fn all_noise_gives_empty_title() {
    let (title, year) = normalize_title_at("[YTS].1080p.x264.(2019)", 2026);
    assert_eq!(title, "");
    assert_eq!(year, None);
    let (title, year) = normalize_title_at("   ", 2026);
    assert_eq!(title, "");
    assert_eq!(year, None);
}

#[test]
fn cleaned_titles_hold_no_fluff_words() {
    let fluff = [
        "480p", "720p", "1080p", "2160p", "4k", "8k", "x264", "x265", "h264", "h265", "hevc",
        "aac", "ac3", "dts", "truehd", "atmos", "bluray", "brrip", "webrip", "web-dl", "hdr",
        "hdr10", "dvdrip", "remux", "proper", "repack", "extended", "uncut", "10bit", "8bit",
        "yify", "rarbg", "yts", "mx", "etrg", "pahe", "tigole", "qxr", "joy", "sparks",
    ];
    let inputs = [
        "Alien.1979.Directors.Cut.1080p.BluRay.x265.HEVC.10bit.AAC.5.1-Tigole",
        "Heat.1995.REMUX.2160p.HDR10.TrueHD.Atmos-SPARKS",
        "Up.2009.PROPER.REPACK.EXTENDED.UNCUT.WEBRip.720p.YIFY",
        "Arrival 2016 4K 8bit DVDRip AC3 RARBG",
    ];
    for input in inputs {
        let (title, _) = normalize_title_at(input, 2026);
        for word in title.split_whitespace() {
            let lower = word.to_lowercase();
            assert!(!fluff.contains(&lower.as_str()), "{word} left in {title}");
        }
    }
}

#[test]
fn cleaning_a_clean_title_changes_nothing() {
    for raw in ["Dune.2021.1080p.BluRay.x264.DTS", "The.Big.Lebowski.1998.720p", "Heat"] {
        let (once, _) = normalize_title_at(raw, 2026);
        let (twice, year) = normalize_title_at(&once, 2026);
        assert_eq!(twice, once);
        assert_eq!(year, None);
    }
}

#[test]
fn year_from_epoch_seconds() {
    assert_eq!(year_of_unix_seconds(0), 1970);
    assert_eq!(year_of_unix_seconds(946_684_799), 1999);
    assert_eq!(year_of_unix_seconds(946_684_800), 2000);
    assert_eq!(year_of_unix_seconds(951_782_400), 2000);
    assert_eq!(year_of_unix_seconds(1_735_725_600), 2025);
}
