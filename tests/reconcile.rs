use episode_tracker::{
    Config, Episode, EpisodeStore, Resolution, fetch_episodes_for_show, fetch_new_episodes,
    fetch_shows, flag_episode_as_watched, insert_show_titles, parse_title, persist_new_episodes,
    subscribe_to_show,
};

fn feed_episode(raw: &str, link: &str) -> Episode {
    let p = parse_title(raw).unwrap();
    Episode {
        id: 0,
        show_id: 0,
        title: p.title,
        episode: p.episode,
        version: p.version,
        watched: 0,
        resolution: p.resolution,
        torrent_link: link.to_string(),
    }
}

fn store_with(titles: &[&str], subscribe: &[u32]) -> EpisodeStore {
    let mut store = EpisodeStore::new();
    let titles: Vec<String> = titles.iter().map(|t| t.to_string()).collect();
    insert_show_titles(&mut store, &titles);
    for id in subscribe {
        subscribe_to_show(&mut store, *id);
    }
    store
}

fn batch() -> Vec<Episode> {
    vec![
        feed_episode("[Subs] Alpha - 01 [720p]", "a1-720"),
        feed_episode("[Subs] Alpha - 01 [1080p]", "a1-1080"),
        feed_episode("[Subs] Alpha - 01 [720p]", "a1-720-again"),
        feed_episode("[Subs] Beta - 03 [720p]", "b3-720"),
        feed_episode("[Subs] Gamma - 05 [720p]", "g5-720"),
    ]
}

fn config(resolution: &str) -> Config {
    Config {
        player_path: "player".to_string(),
        show_resolution: resolution.to_string(),
        feed_url: "feed".to_string(),
        current_season_url: "season".to_string(),
    }
}

#[test]
fn same_batch_twice_stores_and_announces_once_per_key() {
    let mut store = store_with(&["Alpha", "Beta", "Gamma"], &[1, 2]);
    let first = persist_new_episodes(&mut store, batch(), false, "720p");
    let links: Vec<&str> = first.inserted.iter().map(|e| e.torrent_link.as_str()).collect();
    assert_eq!(links, vec!["a1-720", "a1-1080", "b3-720"]);
    let ids: Vec<u32> = first.inserted.iter().map(|e| e.id).collect();
    assert_eq!(ids, vec![1, 2, 3]);
    let shows: Vec<u32> = first.inserted.iter().map(|e| e.show_id).collect();
    assert_eq!(shows, vec![1, 1, 2]);
    let announced: Vec<String> = first.announced.iter().map(|e| e.formatted_title()).collect();
    assert_eq!(announced, vec!["Alpha - 01", "Beta - 03"]);

    let second = persist_new_episodes(&mut store, batch(), false, "720p");
    assert!(second.inserted.is_empty());
    assert!(second.announced.is_empty());
    let stored = fetch_new_episodes(&store, &config("720p"));
    assert_eq!(stored.len(), 2);
    let stored_1080 = fetch_new_episodes(&store, &config("1080p"));
    assert_eq!(stored_1080.len(), 1);
}

#[test]
fn unsubscribed_show_is_never_stored() {
    let mut store = store_with(&["Alpha", "Beta", "Gamma"], &[1]);
    let r = persist_new_episodes(&mut store, batch(), true, "720p");
    assert!(r.inserted.iter().all(|e| e.title == "Alpha"));
    assert!(r.announced.iter().all(|e| e.title == "Alpha"));
    assert!(fetch_episodes_for_show(&store, "Gamma", "720p").is_empty());
    assert!(fetch_episodes_for_show(&store, "Beta", "720p").is_empty());
    let unknown = vec![feed_episode("[Subs] Delta - 01 [720p]", "d1")];
    let r = persist_new_episodes(&mut store, unknown, false, "720p");
    assert!(r.inserted.is_empty() && r.announced.is_empty());
}

#[test]
fn persisted_batch_changes_nothing_again() {
    let mut store = store_with(&["Alpha", "Beta"], &[1, 2]);
    persist_new_episodes(&mut store, batch(), true, "720p");
    let before: Vec<String> =
        fetch_episodes_for_show(&store, "Alpha", "720p").iter().map(|e| e.torrent_link.clone()).collect();
    let again = persist_new_episodes(&mut store, batch(), false, "1080p");
    assert!(again.inserted.is_empty());
    assert!(again.announced.is_empty());
    let after: Vec<String> =
        fetch_episodes_for_show(&store, "Alpha", "720p").iter().map(|e| e.torrent_link.clone()).collect();
    assert_eq!(before, after);
    assert_eq!(fetch_episodes_for_show(&store, "Alpha", "720p")[0].watched, 1);
}

#[test]
fn announcement_needs_the_preferred_resolution() {
    let mut store = store_with(&["Alpha"], &[1]);
    let r = persist_new_episodes(&mut store, batch(), false, "1080p");
    assert_eq!(r.inserted.len(), 2);
    assert_eq!(r.announced.len(), 1);
    assert_eq!(r.announced[0].resolution, Resolution::P1080);
    let mut other = store_with(&["Alpha"], &[1]);
    let r = persist_new_episodes(&mut other, batch(), false, "4K");
    assert_eq!(r.inserted.len(), 2);
    assert!(r.announced.is_empty());
}

#[test]
fn show_titles_are_trimmed_and_unique() {
    let mut store = EpisodeStore::new();
    let titles = vec![
        "  Alpha ".to_string(),
        "Beta".to_string(),
        "Alpha".to_string(),
        "\tBeta\u{3000}".to_string(),
    ];
    let added = insert_show_titles(&mut store, &titles);
    let listed: Vec<(u32, String)> = added.iter().map(|s| (s.id, s.title.clone())).collect();
    assert_eq!(listed, vec![(1, "Alpha".to_string()), (2, "Beta".to_string())]);
    let again = insert_show_titles(&mut store, &vec!["Gamma".to_string(), "Beta ".to_string()]);
    assert_eq!(again.len(), 1);
    assert_eq!(again[0].id, 3);
    assert_eq!(again[0].title, "Gamma");
}

#[test]
fn subscribing_moves_a_show_between_lists() {
    let mut store = store_with(&["Alpha", "Beta", "Gamma"], &[]);
    assert_eq!(fetch_shows(&store, true).len(), 0);
    assert_eq!(fetch_shows(&store, false).len(), 3);
    subscribe_to_show(&mut store, 2);
    subscribe_to_show(&mut store, 9);
    let subscribed: Vec<String> = fetch_shows(&store, true).iter().map(|s| s.title.clone()).collect();
    assert_eq!(subscribed, vec!["Beta"]);
    let available: Vec<u32> = fetch_shows(&store, false).iter().map(|s| s.id).collect();
    assert_eq!(available, vec![1, 3]);
}

#[test]
fn flagging_an_episode_as_watched() {
    let mut store = store_with(&["Alpha", "Beta"], &[1, 2]);
    persist_new_episodes(&mut store, batch(), false, "720p");
    assert_eq!(fetch_new_episodes(&store, &config("720p")).len(), 2);
    assert_eq!(flag_episode_as_watched(&mut store, 1), 1);
    assert_eq!(flag_episode_as_watched(&mut store, 1), 1);
    assert_eq!(flag_episode_as_watched(&mut store, 0), 0);
    assert_eq!(flag_episode_as_watched(&mut store, 42), 0);
    let left = fetch_new_episodes(&store, &config("720p"));
    assert_eq!(left.len(), 1);
    assert_eq!(left[0].title, "Beta");
    let alpha = fetch_episodes_for_show(&store, "Alpha", "720p");
    assert_eq!(alpha.len(), 1);
    assert_eq!(alpha[0].watched, 1);
    assert!(fetch_episodes_for_show(&store, "Alpha", "480p").is_empty());
}

#[test]
fn stored_titles_name_subscribed_shows_after_trimming() {
    let mut store = EpisodeStore::new();
    let titles = vec!["  Alpha  ".to_string(), "Beta\t".to_string()];
    insert_show_titles(&mut store, &titles);
    subscribe_to_show(&mut store, 1);
    let mut padded = feed_episode("[Subs] Alpha - 01 [720p]", "a1");
    padded.title = "Alpha ".to_string();
    let r = persist_new_episodes(&mut store, vec![padded, feed_episode("[Subs] Beta - 01 [720p]", "b1")], false, "720p");
    assert!(r.inserted.is_empty());
    let r = persist_new_episodes(&mut store, vec![feed_episode("[Subs] Alpha - 01 [720p]", "a1")], false, "720p");
    assert_eq!(r.inserted.len(), 1);
    assert_eq!(r.inserted[0].title, "Alpha");
}
