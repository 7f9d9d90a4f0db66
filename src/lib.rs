//! Tracks anime episode releases: parses release titles, orders episodes by
//! their numbers, reads feeds and season listings, and reconciles freshly
//! seen episodes against a store of shows and episodes.

pub mod episode;
pub mod feed;
pub mod resolution;
pub mod season;
pub mod store;
pub mod text;
pub mod title;

pub use episode::{
    Config, Episode, Show, announcement_heading, compare_episode_numbers, compare_episodes, sort_episodes,
};
pub use feed::{
    FeedError, FeedItem, episodes_from_feed, feed_changed, feed_search_url, map_feed_to_episodes,
};
pub use resolution::Resolution;
pub use season::{season_titles, season_titles_from_html};
pub use store::{
    EpisodeStore, Reconciled, ShowEntry, fetch_episodes_for_show, fetch_new_episodes, fetch_shows,
    flag_episode_as_watched, insert_show_titles, persist_new_episodes, subscribe_to_show,
};
pub use title::{ParseError, ParsedTitle, parse_title};
