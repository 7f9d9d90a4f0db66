use episode_tracker::{
    FeedError, FeedItem, Resolution, episodes_from_feed, feed_changed, feed_search_url,
    map_feed_to_episodes,
    season_titles, season_titles_from_html,
};

#[test]
fn search_url_replaces_spaces() {
    assert_eq!(
        feed_search_url("Show Name 2"),
        "https://nyaa.si/?page=rss&q=Show+Name+2&c=0_0&f=0&u=HorribleSubs"
    );
    assert_eq!(feed_search_url(""), "https://nyaa.si/?page=rss&q=&c=0_0&f=0&u=HorribleSubs");
}

#[test]
fn feed_items_map_to_episodes_skipping_malformed() {
    let items = vec![
        FeedItem {
            title: Some("[Subs] Alpha - 01 [720p]".to_string()),
            link: Some("link-a".to_string()),
        },
        FeedItem { title: Some("not a release".to_string()), link: Some("link-x".to_string()) },
        FeedItem { title: Some("[Subs] Beta - 02 [1080p]".to_string()), link: None },
        FeedItem { title: None, link: Some("link-y".to_string()) },
        FeedItem {
            title: Some("[Subs] Gamma - 03.5 [480p]v3".to_string()),
            link: Some("link-g".to_string()),
        },
    ];
    let eps = map_feed_to_episodes(items);
    assert_eq!(eps.len(), 2);
    assert_eq!(eps[0].title, "Alpha");
    assert_eq!(eps[0].torrent_link, "link-a");
    assert_eq!(eps[1].title, "Gamma");
    assert_eq!(eps[1].episode, "03.5");
    assert_eq!(eps[1].version, "v3");
    assert_eq!(eps[1].resolution, Resolution::P480);
    assert_eq!((eps[1].id, eps[1].show_id, eps[1].watched), (0, 0, 0));
}

#[test]
fn feed_document_is_read() {
    let xml = "<?xml version=\"1.0\"?><rss version=\"2.0\"><channel><title>t</title><link>l</link>\
        <description>d</description>\
        <item><title>[Subs] Alpha - 01 [720p]</title><link>https://example.org/a.torrent</link></item>\
        <item><title>garbage</title><link>https://example.org/b.torrent</link></item>\
        <item><title>[Subs] Beta - 12 [1080p]</title><link>https://example.org/c.torrent</link></item>\
        </channel></rss>";
    let eps = episodes_from_feed(xml.as_bytes()).unwrap();
    assert_eq!(eps.len(), 2);
    assert_eq!(eps[0].title, "Alpha");
    assert_eq!(eps[0].torrent_link, "https://example.org/a.torrent");
    assert_eq!(eps[1].episode, "12");
}

#[test]
fn feed_errors_are_reported() {
    assert_eq!(episodes_from_feed(b"<html></html>").unwrap_err(), FeedError::InvalidStartTag);
    assert_eq!(episodes_from_feed(b"").unwrap_err(), FeedError::Eof);
}

#[test]
fn season_text_splits_into_titles() {
    let text = "\nAlpha \u{2013} Part 2\r\n\nBeta\u{2019}s Tale\n  \nGamma";
    assert_eq!(
        season_titles(text),
        vec!["Alpha - Part 2", "Beta's Tale", "  ", "Gamma"]
    );
    assert!(season_titles("").is_empty());
    assert!(season_titles("\n\r\n\n").is_empty());
}

#[test]
fn season_listing_is_read_from_html() {
    let html = "<html><body><div class=\"menu\">Menu</div>\
        <div class=\"shows-wrapper\"><a>Alpha</a>\n<a>Beta \u{2013} Zwei</a>\n</div>\
        <div class=\"shows-wrapper\">Ignored</div></body></html>";
    let titles = season_titles_from_html(html).unwrap();
    assert_eq!(titles, vec!["Alpha", "Beta - Zwei"]);
    assert!(season_titles_from_html("<html><body><p>none</p></body></html>").is_none());
}

#[test]
fn feed_change_is_detected() {
    assert!(!feed_changed(b"", b""));
    assert!(!feed_changed(b"<rss/>", b"<rss/>"));
    assert!(feed_changed(b"", b"<rss/>"));
    assert!(feed_changed(b"<rss/>", b"<rsS/>"));
    assert!(feed_changed(b"<rss/>", b"<rss/> "));
}
