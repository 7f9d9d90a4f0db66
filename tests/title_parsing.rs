use episode_tracker::{ParseError, Resolution, parse_title};

#[test]
fn parses_plain_release_title() {
    let p = parse_title("[Subs] Show Name - 12 [720p]").unwrap();
    assert_eq!(p.subber, "Subs");
    assert_eq!(p.title, "Show Name");
    assert_eq!(p.episode, "12");
    assert_eq!(p.resolution, Resolution::P720);
    assert_eq!(p.version, "");
}

#[test]
fn title_without_bracketed_resolution_fails() {
    assert_eq!(parse_title("[Subs] Show Name - 12").unwrap_err(), ParseError);
    assert!(parse_title("[Subs] Show Name - 12 720p").is_err());
    assert!(parse_title("[Subs] Show Name - 12 [720p").is_err());
}

#[test]
fn parses_version_split_episode_and_extension() {
    let p = parse_title("[HorribleSubs] Re-Zero - 12.5 [1080p]v2.mkv").unwrap();
    assert_eq!(p.subber, "HorribleSubs");
    assert_eq!(p.title, "Re-Zero");
    assert_eq!(p.episode, "12.5");
    assert_eq!(p.resolution, Resolution::P1080);
    assert_eq!(p.version, "v2");
}

#[test]
fn parses_single_digit_episode_and_low_resolution() {
    let p = parse_title("[Subs]  Show 2 - 3 [480p].mkv").unwrap();
    assert_eq!(p.title, "Show 2");
    assert_eq!(p.episode, "3");
    assert_eq!(p.resolution, Resolution::P480);
    assert_eq!(p.version, "");
}

#[test]
fn show_name_is_the_shortest_that_fits() {
    let p = parse_title("[Subs] A - B - 07 [720p]").unwrap();
    assert_eq!(p.title, "A - B");
    assert_eq!(p.episode, "07");
}

#[test]
fn keeps_non_ascii_show_names() {
    let p = parse_title("[Subs] Kaguya-sama \u{00e9}t\u{00e9} - 01 [720p]").unwrap();
    assert_eq!(p.title, "Kaguya-sama \u{00e9}t\u{00e9}");
    assert_eq!(p.episode, "01");
}

#[test]
fn long_episode_numbers_parse() {
    let p = parse_title("[Subs] Show Name - 12345 [720p]").unwrap();
    assert_eq!(p.title, "Show Name");
    assert_eq!(p.episode, "12345");
    let p = parse_title("[Subs] Show Name - 1234567.123456 [1080p]v12").unwrap();
    assert_eq!(p.episode, "1234567.123456");
    assert_eq!(p.version, "v12");
}

#[test]
fn unrecognised_resolution_fails() {
    assert!(parse_title("[Subs] Show Name - 12 [360p]").is_err());
    assert!(parse_title("[Subs] Show Name - 12 [4K]").is_err());
}

#[test]
fn malformed_titles_fail() {
    assert!(parse_title("").is_err());
    assert!(parse_title("Show Name - 12 [720p]").is_err());
    assert!(parse_title("[] Show Name - 12 [720p]").is_err());
    assert!(parse_title("[Subs] - 12 [720p]").is_err());
    assert!(parse_title("[Subs] Show Name 12 [720p]").is_err());
    assert!(parse_title("[Subs] Show Name - 12. [720p]").is_err());
}

#[test]
fn resolution_labels_round_trip() {
    for r in Resolution::all() {
        assert_eq!(Resolution::parse(&r.label()), Some(r));
    }
    assert_eq!(Resolution::P480.label(), "480p");
    assert_eq!(Resolution::P720.label(), "720p");
    assert_eq!(Resolution::P1080.label(), "1080p");
    assert_eq!(Resolution::parse("1080p"), Some(Resolution::P1080));
    assert_eq!(Resolution::parse("720"), None);
    assert_eq!(Resolution::parse(""), None);
    assert_eq!(Resolution::parse("720p "), None);
}
