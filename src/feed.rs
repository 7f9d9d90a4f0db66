use vstd::prelude::*;
use crate::episode::Episode;
use crate::title::{parse_title, title_layout};

verus! {

#[verifier::external_type_specification]
#[verifier::external_body]
pub struct ExRssError(rss::Error);

/// What a feed item holds, as mathematical values: its title and its link.
pub type ItemView = (Option<Seq<char>>, Option<Seq<char>>);

/// The items, as title and link, of the RSS document `xml`; `None` when
/// `xml` is not one. Given by the `rss` crate's reader.
pub uninterp spec fn feed_items_of(xml: Seq<u8>) -> Option<Seq<ItemView>>;

/// An item of an RSS feed: its title and its link, either of which may be missing.
#[derive(Debug)]
pub struct FeedItem {
    pub title: Option<String>,
    pub link: Option<String>,
}

impl View for FeedItem {
    type V = ItemView;

    open spec fn view(&self) -> ItemView {
        (
            match self.title {
                Some(t) => Some(t@),
                None => None,
            },
            match self.link {
                Some(l) => Some(l@),
                None => None,
            },
        )
    }
}

/// Why a feed could not be read.
#[derive(Clone, Copy, Debug, PartialEq, Eq, Structural)]
pub enum FeedError {
    /// The document is not valid UTF-8.
    Utf8,
    /// The document is not well-formed XML.
    Xml,
    /// The document does not start with an `<rss>` element.
    InvalidStartTag,
    /// The document ends before its channel is complete.
    Eof,
}

/// Relies on `rss::Channel::read_from`, which parses an RSS document, and on
/// `Channel::items`, `Item::title` and `Item::link`, which give its items'
/// titles and links: the result depends on the document alone.
#[verifier::external_body]
fn read_feed_items(xml: &[u8]) -> (r: Result<Vec<FeedItem>, rss::Error>)
    ensures
        r is Ok <==> feed_items_of(xml@) is Some,
        r matches Ok(items) ==> items@.map_values(|it: FeedItem| it@) == feed_items_of(
            xml@,
        )->Some_0,
{
    let channel = rss::Channel::read_from(xml)?;
    Ok(
        channel.items().iter().map(
            |item| FeedItem {
                title: item.title().map(|t| t.to_string()),
                link: item.link().map(|l| l.to_string()),
            },
        ).collect(),
    )
}

/// Relies on `rss::Error`'s variants to tell the kinds of failure apart.
#[verifier::external_body]
fn feed_error_kind(e: &rss::Error) -> (r: FeedError) {
    match e {
        rss::Error::Utf8(_) => FeedError::Utf8,
        rss::Error::Xml(_) => FeedError::Xml,
        rss::Error::InvalidStartTag => FeedError::InvalidStartTag,
        rss::Error::Eof => FeedError::Eof,
    }
}

/// Whether a feed item has a link and a title that parses as a release title.
pub open spec fn item_parses(it: ItemView) -> bool {
    &&& it.0 is Some
    &&& it.1 is Some
    &&& title_layout(it.0->Some_0) is Some
}

/// Whether `e` is the episode that the feed item `it` announces: the fields
/// of its title, its link as torrent link, and no identity yet.
pub open spec fn episode_from_item(e: Episode, it: ItemView) -> bool {
    let s = it.0->Some_0;
    let l = title_layout(s)->Some_0;
    &&& e.id == 0
    &&& e.show_id == 0
    &&& e.watched == 0
    &&& e.title@ == s.subrange(l.show_start, l.show_end)
    &&& e.episode@ == s.subrange(l.episode_start, l.episode_end)
    &&& e.resolution == l.resolution
    &&& e.version@ == s.subrange(l.version_start, l.version_end)
    &&& e.torrent_link@ == it.1->Some_0
}

/// Whether `eps` are the episodes announced by the items `items` that parse, in order.
pub open spec fn episodes_of_items(eps: Seq<Episode>, items: Seq<ItemView>) -> bool {
    let kept = items.filter(|it: ItemView| item_parses(it));
    &&& eps.len() == kept.len()
    &&& forall|j: int| 0 <= j < eps.len() ==> episode_from_item(#[trigger] eps[j], kept[j])
}

/// The episodes announced by feed items. Items without a link, and items
/// whose title does not parse, are skipped.
pub fn map_feed_to_episodes(items: Vec<FeedItem>) -> (r: Vec<Episode>)
    ensures
        episodes_of_items(r@, items@.map_values(|it: FeedItem| it@)),
{
    let ghost views = items@.map_values(|it: FeedItem| it@);
    let ghost pred = |it: ItemView| item_parses(it);
    let mut r: Vec<Episode> = Vec::new();
    let mut i: usize = 0;
    while i < items.len()
        invariant
            i <= items@.len(),
            views == items@.map_values(|it: FeedItem| it@),
            pred == (|it: ItemView| item_parses(it)),
            r@.len() == views.subrange(0, i as int).filter(pred).len(),
            forall|j: int|
                0 <= j < r@.len() ==> episode_from_item(
                    #[trigger] r@[j],
                    views.subrange(0, i as int).filter(pred)[j],
                ),
        decreases items@.len() - i,
    {
        let ghost prefix = views.subrange(0, i as int);
        assert(views.subrange(0, i as int + 1) =~= prefix.push(views[i as int]));
        proof {
            prefix.lemma_filter_push(views[i as int], pred);
        }
        let item = &items[i];
        match (&item.title, &item.link) {
            (Some(title), Some(link)) => {
                match parse_title(title.as_str()) {
                    Ok(p) => {
                        let e = Episode {
                            id: 0,
                            show_id: 0,
                            title: p.title,
                            episode: p.episode,
                            version: p.version,
                            watched: 0,
                            resolution: p.resolution,
                            torrent_link: link.clone(),
                        };
                        r.push(e);
                        proof {
                            let kept = views.subrange(0, i as int + 1).filter(pred);
                            assert forall|j: int| 0 <= j < r@.len() implies episode_from_item(
                                #[trigger] r@[j],
                                kept[j],
                            ) by {
                                if j < r@.len() - 1 {
                                    assert(kept[j] == prefix.filter(pred)[j]);
                                }
                            }
                        }
                    },
                    Err(_) => {},
                }
            },
            _ => {},
        }
        i += 1;
    }
    assert(views.subrange(0, i as int) =~= views);
    r
}

/// The episodes announced by the RSS document `xml`; see `map_feed_to_episodes`.
pub fn episodes_from_feed(xml: &[u8]) -> (r: Result<Vec<Episode>, FeedError>)
    ensures
        r is Ok <==> feed_items_of(xml@) is Some,
        r matches Ok(eps) ==> episodes_of_items(eps@, feed_items_of(xml@)->Some_0),
{
    match read_feed_items(xml) {
        Ok(items) => Ok(map_feed_to_episodes(items)),
        Err(e) => Err(feed_error_kind(&e)),
    }
}

/// Whether a freshly fetched feed document differs from the one last
/// reconciled, so that it has to be reconciled again.
pub fn feed_changed(previous: &[u8], current: &[u8]) -> (r: bool)
    ensures
        r == (previous@ != current@),
{
    if previous.len() != current.len() {
        return true;
    }
    let mut i: usize = 0;
    while i < previous.len()
        invariant
            previous@.len() == current@.len(),
            i <= previous@.len(),
            forall|k: int| 0 <= k < i ==> previous@[k] == current@[k],
        decreases previous@.len() - i,
    {
        if previous[i] != current[i] {
            return true;
        }
        i += 1;
    }
    assert(previous@ =~= current@);
    false
}

/// `s` with each space replaced by `+`, as a search query writes it.
pub open spec fn query_of(s: Seq<char>) -> Seq<char> {
    s.map_values(|c: char| if c == ' ' { '+' } else { c })
}

/// The address of the feed that lists the releases of the show `title`.
pub open spec fn search_url_of(title: Seq<char>) -> Seq<char> {
    "https://nyaa.si/?page=rss&q="@ + query_of(title) + "&c=0_0&f=0&u=HorribleSubs"@
}

/// The address of the feed that lists the releases of the show `show_title`.
pub fn feed_search_url(show_title: &str) -> (r: String)
    ensures
        r@ == search_url_of(show_title@),
{
    let n = show_title.unicode_len();
    let mut r = "https://nyaa.si/?page=rss&q=".to_owned();
    let ghost start = r@;
    let plus = "+";
    proof {
        reveal_strlit("+");
    }
    let mut i: usize = 0;
    while i < n
        invariant
            n == show_title@.len(),
            i <= n,
            plus@ == seq!['+'],
            start == "https://nyaa.si/?page=rss&q="@,
            r@ == start + query_of(show_title@.subrange(0, i as int)),
        decreases n - i,
    {
        let c = show_title.get_char(i);
        if c == ' ' {
            r.append(plus);
        } else {
            r.append(show_title.substring_char(i, i + 1));
        }
        proof {
            assert(query_of(show_title@.subrange(0, i as int + 1)) =~= query_of(
                show_title@.subrange(0, i as int),
            ).push(if c == ' ' { '+' } else { c }));
            assert(r@ =~= start + query_of(show_title@.subrange(0, i as int + 1)));
        }
        i += 1;
    }
    r.append("&c=0_0&f=0&u=HorribleSubs");
    assert(show_title@.subrange(0, n as int) =~= show_title@);
    r
}

} // verus!
