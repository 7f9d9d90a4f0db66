use episode_tracker::{
    Episode, Resolution, announcement_heading, compare_episode_numbers, compare_episodes,
    parse_title, sort_episodes,
};
use std::cmp::Ordering;

fn episode(title: &str, number: &str, version: &str) -> Episode {
    Episode {
        id: 0,
        show_id: 0,
        title: title.to_string(),
        episode: number.to_string(),
        version: version.to_string(),
        watched: 0,
        resolution: Resolution::P720,
        torrent_link: format!("magnet:{}-{}", title, number),
    }
}

#[test]
fn episode_numbers_order_numerically() {
    let two = parse_title("[Subs] Show - 2 [720p]").unwrap().episode;
    let ten = parse_title("[Subs] Show - 10 [720p]").unwrap().episode;
    let ten_half = parse_title("[Subs] Show - 10.5 [720p]").unwrap().episode;
    assert_eq!(compare_episode_numbers(&two, &ten), Ordering::Less);
    assert_eq!(compare_episode_numbers(&ten, &ten_half), Ordering::Less);
    assert_eq!(compare_episode_numbers(&two, &ten_half), Ordering::Less);
    let a = episode("Show", &two, "");
    let b = episode("Show", &ten, "");
    let c = episode("Show", &ten_half, "");
    assert_eq!(compare_episodes(&a, &b), Ordering::Less);
    assert_eq!(compare_episodes(&b, &c), Ordering::Less);
    assert_eq!(compare_episodes(&c, &a), Ordering::Greater);
    assert_eq!(compare_episodes(&b, &b), Ordering::Equal);
}

#[test]
fn episode_numbers_compare_by_value() {
    assert_eq!(compare_episode_numbers("10.25", "10.5"), Ordering::Less);
    assert_eq!(compare_episode_numbers("10.5", "10.50"), Ordering::Equal);
    assert_eq!(compare_episode_numbers("10", "10.0"), Ordering::Equal);
    assert_eq!(compare_episode_numbers("0012", "12"), Ordering::Equal);
    assert_eq!(compare_episode_numbers("9", "0010"), Ordering::Less);
    assert_eq!(compare_episode_numbers("12345", "9999.9999"), Ordering::Greater);
    assert_eq!(
        compare_episode_numbers("123456789012345678901234567890", "123456789012345678901234567891"),
        Ordering::Less
    );
    assert_eq!(compare_episode_numbers("1.123456789", "1.12345678"), Ordering::Greater);
    assert_eq!(compare_episode_numbers("12", "12a"), Ordering::Less);
    assert_eq!(compare_episode_numbers("", "1"), Ordering::Greater);
    assert_eq!(compare_episode_numbers("x", "12."), Ordering::Equal);
}

#[test]
fn sort_orders_by_number() {
    let v = vec![
        episode("Show", "10", ""),
        episode("Show", "2", ""),
        episode("Show", "10.5", ""),
        episode("Show", "02", "v2"),
        episode("Show", "1", ""),
        episode("Show", "10.25", ""),
        episode("Show", "100", ""),
    ];
    let sorted = sort_episodes(v);
    let listed: Vec<String> = sorted.iter().map(|e| e.formatted_title()).collect();
    assert_eq!(
        listed,
        vec![
            "Show - 1",
            "Show - 2",
            "Show - 02v2",
            "Show - 10",
            "Show - 10.25",
            "Show - 10.5",
            "Show - 100"
        ]
    );
    assert!(sort_episodes(Vec::new()).is_empty());
}

#[test]
fn formatted_title_and_equality() {
    let a = episode("Show Name", "12", "v2");
    assert_eq!(a.formatted_title(), "Show Name - 12v2");
    let mut b = episode("Show Name", "12", "v2");
    b.torrent_link = "elsewhere".to_string();
    assert!(a == b);
    let c = episode("Show Name", "12", "");
    assert!(a != c);
    let d = a.clone();
    assert_eq!(d.torrent_link, a.torrent_link);
}

#[test]
fn announcement_wording_depends_on_origin() {
    assert_eq!(announcement_heading(true), "[EPISODE ADDED:");
    assert_eq!(announcement_heading(false), "[NEW EPISODE ARRIVAL:");
}
