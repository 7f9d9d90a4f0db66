use vstd::prelude::*;
use crate::episode::{Config, Episode, Show};
use crate::resolution::{Resolution, resolution_from_label};
use crate::text::{lemma_trimmed_idempotent, trim_text, trimmed};

verus! {

/// A show as the store keeps it: its identity, its title, and whether the
/// user subscribed to it.
#[derive(Debug)]
pub struct ShowEntry {
    pub id: u32,
    pub title: String,
    pub subscribed: bool,
}

/// What a `ShowEntry` holds, as mathematical values.
pub ghost struct ShowState {
    pub id: int,
    pub title: Seq<char>,
    pub subscribed: bool,
}

impl View for ShowEntry {
    type V = ShowState;

    open spec fn view(&self) -> ShowState {
        ShowState { id: self.id as int, title: self.title@, subscribed: self.subscribed }
    }
}

/// Two episodes share a key when they have the same show title, episode
/// number and resolution; the store holds at most one row per key.
pub open spec fn same_key(a: Episode, b: Episode) -> bool {
    &&& a.title@ == b.title@
    &&& a.episode@ == b.episode@
    &&& a.resolution == b.resolution
}

/// Whether some row of `rows` has the key of `ep`.
pub open spec fn has_key(rows: Seq<Episode>, ep: Episode) -> bool {
    exists|i: int| 0 <= i < rows.len() && #[trigger] same_key(rows[i], ep)
}

/// The index of the first show at or after `i` titled `title`, or `-1`.
pub open spec fn show_position_from(shows: Seq<ShowState>, title: Seq<char>, i: int) -> int
    decreases shows.len() - i,
{
    if i < 0 || i >= shows.len() {
        -1
    } else if shows[i].title == title {
        i
    } else {
        show_position_from(shows, title, i + 1)
    }
}

/// The index of the show titled `title`, or `-1`.
pub open spec fn show_position(shows: Seq<ShowState>, title: Seq<char>) -> int {
    show_position_from(shows, title, 0)
}

/// `show_position_from` finds the first show with the title, or none.
pub proof fn lemma_show_position_from(shows: Seq<ShowState>, title: Seq<char>, i: int)
    requires
        0 <= i,
    ensures
        show_position_from(shows, title, i) == -1 || (i <= show_position_from(shows, title, i)
            < shows.len() && shows[show_position_from(shows, title, i)].title == title),
        show_position_from(shows, title, i) == -1 ==> forall|k: int|
            i <= k < shows.len() ==> (#[trigger] shows[k]).title != title,
    decreases shows.len() - i,
{
    if i < shows.len() && shows[i].title != title {
        lemma_show_position_from(shows, title, i + 1);
    }
}

/// With unique titles, the show found for a title is the one that has it.
pub proof fn lemma_show_position_unique(shows: Seq<ShowState>, p: int)
    requires
        shows_wf(shows),
        0 <= p < shows.len(),
    ensures
        show_position(shows, shows[p].title) == p,
{
    lemma_show_position_from(shows, shows[p].title, 0);
    let q = show_position(shows, shows[p].title);
    if q != p && q >= 0 {
        if q < p {
            assert(shows[q].title != shows[p].title);
        } else {
            assert(shows[p].title != shows[q].title);
        }
    }
}

/// Whether the user subscribed to the show titled `title`.
pub open spec fn is_subscribed(shows: Seq<ShowState>, title: Seq<char>) -> bool {
    let p = show_position(shows, title);
    p >= 0 && shows[p].subscribed
}

/// The shows are numbered `1, 2, ...` in order, their titles are unique, and
/// no title starts or ends with whitespace.
pub open spec fn shows_wf(shows: Seq<ShowState>) -> bool {
    &&& shows.len() < u32::MAX
    &&& forall|i: int| 0 <= i < shows.len() ==> (#[trigger] shows[i]).id == i + 1
    &&& forall|i: int| 0 <= i < shows.len() ==> trimmed((#[trigger] shows[i]).title) == shows[i].title
    &&& forall|i: int, j: int|
        0 <= i < j < shows.len() ==> (#[trigger] shows[i]).title != (#[trigger] shows[j]).title
}

/// The episode rows are numbered `1, 2, ...` in order, no two share a key,
/// each belongs to a show the user subscribed to and carries that show's
/// title, and each watched flag is `0` or `1`.
pub open spec fn rows_wf(shows: Seq<ShowState>, rows: Seq<Episode>) -> bool {
    &&& rows.len() < u32::MAX
    &&& forall|i: int| 0 <= i < rows.len() ==> (#[trigger] rows[i]).id == i + 1
    &&& forall|i: int, j: int|
        0 <= i < j < rows.len() ==> !same_key(#[trigger] rows[i], #[trigger] rows[j])
    &&& forall|i: int| 0 <= i < rows.len() ==> row_belongs(shows, #[trigger] rows[i])
}

/// Row `r` refers to a subscribed show that has its title, and its watched
/// flag is `0` or `1`.
pub open spec fn row_belongs(shows: Seq<ShowState>, r: Episode) -> bool {
    let p = r.show_id - 1;
    &&& 0 <= p < shows.len()
    &&& shows[p].title == r.title@
    &&& shows[p].subscribed
    &&& r.watched <= 1
}

/// The row stored for a freshly seen episode `ep`.
pub open spec fn stored_row(ep: Episode, id: int, show_id: int, watched: bool) -> Episode {
    Episode {
        id: id as u32,
        show_id: show_id as u32,
        watched: if watched {
            1
        } else {
            0
        },
        ..ep
    }
}

/// Reconciling the batch `batch` against the rows `rows`: each episode in
/// turn is stored when its show is subscribed and its key is not stored yet,
/// and is announced when it was stored and has the preferred resolution.
/// Gives the rows afterwards and the announced episodes.
pub open spec fn reconcile(
    shows: Seq<ShowState>,
    rows: Seq<Episode>,
    batch: Seq<Episode>,
    watched: bool,
    preferred: Option<Resolution>,
) -> (Seq<Episode>, Seq<Episode>)
    decreases batch.len(),
{
    if batch.len() == 0 {
        (rows, Seq::empty())
    } else {
        let (before, announced) = reconcile(shows, rows, batch.drop_last(), watched, preferred);
        let ep = batch.last();
        let p = show_position(shows, ep.title@);
        if is_subscribed(shows, ep.title@) && !has_key(before, ep) {
            (
                before.push(stored_row(ep, before.len() + 1 as int, p + 1, watched)),
                if preferred == Some(ep.resolution) {
                    announced.push(ep)
                } else {
                    announced
                },
            )
        } else {
            (before, announced)
        }
    }
}

/// Whether exactly one element of `rows` has the key of `ep`.
pub open spec fn holds_key_once(rows: Seq<Episode>, ep: Episode) -> bool {
    exists|i: int|
        0 <= i < rows.len() && #[trigger] same_key(rows[i], ep) && forall|j: int|
            0 <= j < rows.len() && #[trigger] same_key(rows[j], ep) ==> j == i
}

/// What reconciling a batch does: the old rows stay as they were, the new
/// rows keep the store's invariant and come from the batch, every subscribed
/// episode of the batch ends up stored, and the announcements are the new
/// rows in the preferred resolution, one per key.
proof fn lemma_reconcile_facts(
    shows: Seq<ShowState>,
    rows: Seq<Episode>,
    batch: Seq<Episode>,
    watched: bool,
    preferred: Option<Resolution>,
)
    requires
        shows_wf(shows),
        rows_wf(shows, rows),
        rows.len() + batch.len() < u32::MAX,
    ensures
        ({
            let (after, announced) = reconcile(shows, rows, batch, watched, preferred);
            &&& rows.len() <= after.len() <= rows.len() + batch.len()
            &&& forall|i: int| 0 <= i < rows.len() ==> #[trigger] after[i] == rows[i]
            &&& rows_wf(shows, after)
            &&& forall|k: int|
                0 <= k < batch.len() && is_subscribed(shows, batch[k].title@) ==> has_key(
                    after,
                    #[trigger] batch[k],
                )
            &&& forall|i: int| rows.len() <= i < after.len() ==> has_key(batch, #[trigger] after[i])
            &&& forall|j: int|
                0 <= j < announced.len() ==> {
                    &&& has_key(after, #[trigger] announced[j])
                    &&& !has_key(rows, announced[j])
                    &&& preferred == Some(announced[j].resolution)
                    &&& batch.contains(announced[j])
                }
            &&& forall|a: int, b: int|
                0 <= a < b < announced.len() ==> !same_key(
                    #[trigger] announced[a],
                    #[trigger] announced[b],
                )
            &&& forall|i: int|
                rows.len() <= i < after.len() && preferred == Some(after[i].resolution)
                    ==> has_key(announced, #[trigger] after[i])
        }),
    decreases batch.len(),
{
    if batch.len() > 0 {
        let prev = batch.drop_last();
        lemma_reconcile_facts(shows, rows, prev, watched, preferred);
        let (before, ann0) = reconcile(shows, rows, prev, watched, preferred);
        let (after, announced) = reconcile(shows, rows, batch, watched, preferred);
        let ep = batch.last();
        let last = batch.len() - 1;
        assert(batch[last] == ep);
        assert forall|k: int| 0 <= k < prev.len() implies batch[k] == #[trigger] prev[k] by {}
        if is_subscribed(shows, ep.title@) && !has_key(before, ep) {
            let p = show_position(shows, ep.title@);
            let row = stored_row(ep, before.len() + 1 as int, p + 1, watched);
            lemma_show_position_from(shows, ep.title@, 0);
            assert(after == before.push(row));
            assert(same_key(row, ep));
            assert(after[before.len() as int] == row);
            assert forall|i: int| 0 <= i < before.len() implies #[trigger] after[i] == before[i] by {}
            assert forall|a: int, b: int| 0 <= a < b < after.len() implies !same_key(
                #[trigger] after[a],
                #[trigger] after[b],
            ) by {
                if b == before.len() {
                    assert(after[a] == before[a]);
                    if same_key(after[a], after[b]) {
                        assert(same_key(before[a], ep));
                    }
                } else {
                    assert(after[a] == before[a] && after[b] == before[b]);
                }
            }
            assert forall|i: int| 0 <= i < after.len() implies row_belongs(
                shows,
                #[trigger] after[i],
            ) by {
                if i < before.len() {
                    assert(after[i] == before[i]);
                }
            }
            assert(rows_wf(shows, after));
            assert forall|k: int|
                0 <= k < batch.len() && is_subscribed(shows, batch[k].title@) implies has_key(
                after,
                #[trigger] batch[k],
            ) by {
                if k < prev.len() {
                    assert(has_key(before, prev[k]));
                    let w = choose|w: int| 0 <= w < before.len() && same_key(before[w], prev[k]);
                    assert(same_key(after[w], batch[k]));
                } else {
                    assert(same_key(after[before.len() as int], batch[k]));
                }
            }
            assert forall|i: int| rows.len() <= i < after.len() implies has_key(
                batch,
                #[trigger] after[i],
            ) by {
                if i < before.len() {
                    assert(has_key(prev, before[i]));
                    let w = choose|w: int| 0 <= w < prev.len() && same_key(prev[w], before[i]);
                    assert(same_key(batch[w], after[i]));
                } else {
                    assert(same_key(batch[last], after[i]));
                }
            }
            assert forall|j: int| 0 <= j < announced.len() implies {
                &&& has_key(after, #[trigger] announced[j])
                &&& !has_key(rows, announced[j])
                &&& preferred == Some(announced[j].resolution)
                &&& batch.contains(announced[j])
            } by {
                if j < ann0.len() {
                    assert(announced[j] == ann0[j]);
                    assert(has_key(before, ann0[j]));
                    let w = choose|w: int| 0 <= w < before.len() && same_key(before[w], ann0[j]);
                    assert(same_key(after[w], announced[j]));
                    assert(prev.contains(ann0[j]));
                    let v = choose|v: int| 0 <= v < prev.len() && prev[v] == ann0[j];
                    assert(batch[v] == announced[j]);
                } else {
                    assert(announced[j] == ep);
                    assert(same_key(after[before.len() as int], ep));
                    if has_key(rows, ep) {
                        let w = choose|w: int| 0 <= w < rows.len() && same_key(rows[w], ep);
                        assert(same_key(before[w], ep));
                    }
                    assert(batch[last] == announced[j]);
                }
            }
            assert forall|a: int, b: int| 0 <= a < b < announced.len() implies !same_key(
                #[trigger] announced[a],
                #[trigger] announced[b],
            ) by {
                if b >= ann0.len() {
                    assert(announced[a] == ann0[a]);
                    assert(announced[b] == ep);
                    assert(has_key(before, ann0[a]));
                    let w = choose|w: int| 0 <= w < before.len() && same_key(before[w], ann0[a]);
                    if same_key(announced[a], announced[b]) {
                        assert(same_key(before[w], ep));
                    }
                } else {
                    assert(announced[a] == ann0[a] && announced[b] == ann0[b]);
                }
            }
            assert forall|i: int|
                rows.len() <= i < after.len() && preferred == Some(after[i].resolution)
                implies has_key(announced, #[trigger] after[i]) by {
                if i < before.len() {
                    assert(after[i] == before[i]);
                    assert(has_key(ann0, before[i]));
                    let w = choose|w: int| 0 <= w < ann0.len() && same_key(ann0[w], before[i]);
                    assert(announced[w] == ann0[w]);
                    assert(same_key(announced[w], after[i]));
                } else {
                    assert(announced[ann0.len() as int] == ep);
                    assert(same_key(announced[ann0.len() as int], after[i]));
                }
            }
        } else {
            assert(after == before && announced == ann0);
            assert forall|k: int|
                0 <= k < batch.len() && is_subscribed(shows, batch[k].title@) implies has_key(
                after,
                #[trigger] batch[k],
            ) by {
                if k < prev.len() {
                    assert(has_key(before, prev[k]));
                }
            }
            assert forall|i: int| rows.len() <= i < after.len() implies has_key(
                batch,
                #[trigger] after[i],
            ) by {
                assert(has_key(prev, before[i]));
                let w = choose|w: int| 0 <= w < prev.len() && same_key(prev[w], before[i]);
                assert(same_key(batch[w], after[i]));
            }
            assert forall|j: int| 0 <= j < announced.len() implies batch.contains(
                #[trigger] announced[j],
            ) by {
                assert(prev.contains(ann0[j]));
                let v = choose|v: int| 0 <= v < prev.len() && prev[v] == ann0[j];
                assert(batch[v] == announced[j]);
            }
        }
    }
}

/// A batch whose every episode is either stored already or of a show the
/// user did not subscribe to leaves the rows as they are and announces
/// nothing.
proof fn lemma_reconcile_settled(
    shows: Seq<ShowState>,
    rows: Seq<Episode>,
    batch: Seq<Episode>,
    watched: bool,
    preferred: Option<Resolution>,
)
    requires
        forall|k: int|
            0 <= k < batch.len() ==> has_key(rows, #[trigger] batch[k]) || !is_subscribed(
                shows,
                batch[k].title@,
            ),
    ensures
        reconcile(shows, rows, batch, watched, preferred) == (rows, Seq::<Episode>::empty()),
    decreases batch.len(),
{
    if batch.len() > 0 {
        let prev = batch.drop_last();
        assert forall|k: int| 0 <= k < prev.len() implies has_key(rows, #[trigger] prev[k])
            || !is_subscribed(shows, prev[k].title@) by {
            assert(prev[k] == batch[k]);
        }
        lemma_reconcile_settled(shows, rows, prev, watched, preferred);
        assert(batch.last() == batch[batch.len() - 1]);
    }
}

/// Idempotence: reconciling a batch whose episodes are all stored already
/// (or belong to shows the user did not subscribe to) changes no stored row
/// and announces nothing.
pub proof fn lemma_persisted_batch_changes_nothing(
    store: EpisodeStore,
    batch: Seq<Episode>,
    watched: bool,
    user_resolution: Seq<char>,
)
    requires
        forall|k: int|
            0 <= k < batch.len() ==> has_key(store.episode_list(), #[trigger] batch[k])
                || !is_subscribed(store.show_list(), batch[k].title@),
    ensures
        reconcile(
            store.show_list(),
            store.episode_list(),
            batch,
            watched,
            resolution_from_label(user_resolution),
        ) == (store.episode_list(), Seq::<Episode>::empty()),
{
    lemma_reconcile_settled(
        store.show_list(),
        store.episode_list(),
        batch,
        watched,
        resolution_from_label(user_resolution),
    );
}

/// An episode of a show the user did not subscribe to is never stored nor
/// announced, whatever the batch holds: every stored or announced episode
/// has a title that, trimmed of surrounding whitespace or not, names a
/// subscribed show.
pub proof fn lemma_unsubscribed_never_persisted(
    store: EpisodeStore,
    batch: Seq<Episode>,
    watched: bool,
    user_resolution: Seq<char>,
)
    requires
        store.wf(),
        store.episode_list().len() + batch.len() < u32::MAX,
    ensures
        ({
            let shows = store.show_list();
            let (after, announced) = reconcile(
                shows,
                store.episode_list(),
                batch,
                watched,
                resolution_from_label(user_resolution),
            );
            &&& forall|ep: Episode|
                !is_subscribed(shows, ep.title@) ==> !#[trigger] has_key(after, ep) && !has_key(
                    announced,
                    ep,
                )
            &&& forall|i: int|
                0 <= i < after.len() ==> is_subscribed(shows, trimmed(#[trigger] after[i].title@))
            &&& forall|j: int|
                0 <= j < announced.len() ==> is_subscribed(
                    shows,
                    trimmed(#[trigger] announced[j].title@),
                )
        }),
{
    let shows = store.show_list();
    let preferred = resolution_from_label(user_resolution);
    lemma_reconcile_facts(shows, store.episode_list(), batch, watched, preferred);
    let (after, announced) = reconcile(shows, store.episode_list(), batch, watched, preferred);
    assert forall|ep: Episode| !is_subscribed(shows, ep.title@) implies !#[trigger] has_key(
        after,
        ep,
    ) && !has_key(announced, ep) by {
        if has_key(after, ep) {
            let w = choose|w: int| 0 <= w < after.len() && same_key(after[w], ep);
            assert(row_belongs(shows, after[w]));
            lemma_show_position_unique(shows, after[w].show_id - 1);
        }
        if has_key(announced, ep) {
            let w = choose|w: int| 0 <= w < announced.len() && same_key(announced[w], ep);
            assert(has_key(after, announced[w]));
            let v = choose|v: int| 0 <= v < after.len() && same_key(after[v], announced[w]);
            assert(same_key(after[v], ep));
            assert(row_belongs(shows, after[v]));
            lemma_show_position_unique(shows, after[v].show_id - 1);
        }
    }
    assert forall|i: int| 0 <= i < after.len() implies is_subscribed(
        shows,
        trimmed(#[trigger] after[i].title@),
    ) by {
        assert(row_belongs(shows, after[i]));
        let p = after[i].show_id - 1;
        lemma_show_position_unique(shows, p);
        assert(trimmed(shows[p].title) == shows[p].title);
    }
    assert forall|j: int| 0 <= j < announced.len() implies is_subscribed(
        shows,
        trimmed(#[trigger] announced[j].title@),
    ) by {
        assert(has_key(after, announced[j]));
        let v = choose|v: int| 0 <= v < after.len() && same_key(after[v], announced[j]);
        assert(row_belongs(shows, after[v]));
        let p = after[v].show_id - 1;
        lemma_show_position_unique(shows, p);
        assert(trimmed(shows[p].title) == shows[p].title);
    }
}

/// Reconciling the same batch twice, first against a store that holds no
/// episode: afterwards exactly one row is stored per distinct key among the
/// batch's episodes of subscribed shows, and nothing else; exactly one
/// announcement is made per such key in the preferred resolution, all of
/// them by the first pass; the second pass changes nothing.
pub proof fn lemma_reconcile_twice_from_empty(
    store: EpisodeStore,
    batch: Seq<Episode>,
    watched: bool,
    user_resolution: Seq<char>,
)
    requires
        store.wf(),
        store.episode_list().len() == 0,
        batch.len() < u32::MAX,
    ensures
        ({
            let shows = store.show_list();
            let preferred = resolution_from_label(user_resolution);
            let (first, announced_first) = reconcile(
                shows,
                store.episode_list(),
                batch,
                watched,
                preferred,
            );
            let (second, announced_second) = reconcile(shows, first, batch, watched, preferred);
            &&& second == first
            &&& announced_second.len() == 0
            &&& forall|ep: Episode|
                batch.contains(ep) && is_subscribed(shows, ep.title@) ==> #[trigger] holds_key_once(
                    first,
                    ep,
                )
            &&& forall|i: int| 0 <= i < first.len() ==> has_key(batch, #[trigger] first[i])
            &&& forall|ep: Episode|
                batch.contains(ep) && is_subscribed(shows, ep.title@) && preferred == Some(
                    ep.resolution,
                ) ==> #[trigger] holds_key_once(announced_first, ep)
            &&& forall|j: int|
                0 <= j < announced_first.len() ==> batch.contains(#[trigger] announced_first[j])
        }),
{
    let shows = store.show_list();
    let rows = store.episode_list();
    let preferred = resolution_from_label(user_resolution);
    lemma_reconcile_facts(shows, rows, batch, watched, preferred);
    let (first, ann1) = reconcile(shows, rows, batch, watched, preferred);
    lemma_reconcile_settled(shows, first, batch, watched, preferred);
    assert forall|ep: Episode|
        batch.contains(ep) && is_subscribed(shows, ep.title@) implies #[trigger] holds_key_once(
        first,
        ep,
    ) by {
        let k = choose|k: int| 0 <= k < batch.len() && batch[k] == ep;
        assert(has_key(first, batch[k]));
        let w = choose|w: int| 0 <= w < first.len() && same_key(first[w], ep);
        assert forall|j: int| 0 <= j < first.len() && #[trigger] same_key(first[j], ep) implies j
            == w by {
            if j < w {
                assert(!same_key(first[j], first[w]));
            } else if j > w {
                assert(!same_key(first[w], first[j]));
            }
        }
    }
    assert forall|ep: Episode|
        batch.contains(ep) && is_subscribed(shows, ep.title@) && preferred == Some(ep.resolution)
        implies #[trigger] holds_key_once(ann1, ep) by {
        let k = choose|k: int| 0 <= k < batch.len() && batch[k] == ep;
        assert(has_key(first, batch[k]));
        let w = choose|w: int| 0 <= w < first.len() && same_key(first[w], ep);
        assert(has_key(ann1, first[w]));
        let v = choose|v: int| 0 <= v < ann1.len() && same_key(ann1[v], first[w]);
        assert(same_key(ann1[v], ep));
        assert forall|j: int| 0 <= j < ann1.len() && #[trigger] same_key(ann1[j], ep) implies j
            == v by {
            if j < v {
                assert(!same_key(ann1[j], ann1[v]));
            } else if j > v {
                assert(!same_key(ann1[v], ann1[j]));
            }
        }
    }
}

/// The shows after adding the titles `titles` in turn: a title that no show
/// has yet becomes a new, unsubscribed show with the next identity.
pub open spec fn add_titles(shows: Seq<ShowState>, titles: Seq<Seq<char>>) -> Seq<ShowState>
    decreases titles.len(),
{
    if titles.len() == 0 {
        shows
    } else {
        let before = add_titles(shows, titles.drop_last());
        let t = titles.last();
        if show_position(before, t) >= 0 {
            before
        } else {
            before.push(ShowState { id: before.len() + 1 as int, title: t, subscribed: false })
        }
    }
}

/// Whether the show entries `r` list exactly the identities and titles of `states`.
pub open spec fn lists_shows(r: Seq<Show>, states: Seq<ShowState>) -> bool {
    &&& r.len() == states.len()
    &&& forall|i: int|
        0 <= i < r.len() ==> (#[trigger] r[i]).id == states[i].id && r[i].title@
            == states[i].title
}

/// The show that row `r` belongs to.
pub open spec fn show_of_row(shows: Seq<ShowState>, r: Episode) -> ShowState {
    shows[r.show_id - 1]
}

/// Whether row `r` is of the subscribed show titled `title`, in the resolution `preferred`.
pub open spec fn row_of_show(
    shows: Seq<ShowState>,
    r: Episode,
    title: Seq<char>,
    preferred: Option<Resolution>,
) -> bool {
    &&& 1 <= r.show_id <= shows.len()
    &&& show_of_row(shows, r).subscribed
    &&& show_of_row(shows, r).title == title
    &&& preferred == Some(r.resolution)
}

/// Whether row `r` is of a subscribed show, not watched, in the resolution `preferred`.
pub open spec fn row_is_new(shows: Seq<ShowState>, r: Episode, preferred: Option<Resolution>) -> bool {
    &&& 1 <= r.show_id <= shows.len()
    &&& show_of_row(shows, r).subscribed
    &&& r.watched == 0
    &&& preferred == Some(r.resolution)
}

/// The outcome of reconciling a batch: the rows that were stored, and the
/// episodes to announce.
#[derive(Debug)]
pub struct Reconciled {
    pub inserted: Vec<Episode>,
    pub announced: Vec<Episode>,
}

/// The shows and episodes that the user follows.
#[derive(Debug)]
pub struct EpisodeStore {
    shows: Vec<ShowEntry>,
    episodes: Vec<Episode>,
}

impl EpisodeStore {
    /// The shows, in order of their identities.
    pub closed spec fn show_list(&self) -> Seq<ShowState> {
        self.shows@.map_values(|s: ShowEntry| s@)
    }

    /// The episode rows, in order of their identities.
    pub closed spec fn episode_list(&self) -> Seq<Episode> {
        self.episodes@
    }

    /// The store's invariant.
    pub open spec fn wf(&self) -> bool {
        shows_wf(self.show_list()) && rows_wf(self.show_list(), self.episode_list())
    }

    /// An empty store.
    pub fn new() -> (r: EpisodeStore)
        ensures
            r.wf(),
            r.show_list().len() == 0,
            r.episode_list().len() == 0,
    {
        let r = EpisodeStore { shows: Vec::new(), episodes: Vec::new() };
        assert(r.show_list() =~= Seq::empty());
        r
    }

    /// The number of shows.
    pub fn show_count(&self) -> (r: usize)
        ensures
            r == self.show_list().len(),
    {
        self.shows.len()
    }

    /// The number of episode rows.
    pub fn episode_count(&self) -> (r: usize)
        ensures
            r == self.episode_list().len(),
    {
        self.episodes.len()
    }

    /// The index of the show titled `title`, if there is one.
    fn find_show(&self, title: &String) -> (r: Option<usize>)
        ensures
            match r {
                Some(p) => p as int == show_position(self.show_list(), title@) && p
                    < self.show_list().len(),
                None => show_position(self.show_list(), title@) == -1,
            },
    {
        let ghost shows = self.show_list();
        let mut i: usize = 0;
        while i < self.shows.len()
            invariant
                shows == self.show_list(),
                shows.len() == self.shows@.len(),
                i <= shows.len(),
                show_position(shows, title@) == show_position_from(shows, title@, i as int),
            decreases shows.len() - i,
        {
            if self.shows[i].title == *title {
                return Some(i);
            }
            i += 1;
        }
        None
    }

    /// Whether a row with the key of `ep` is stored.
    fn has_episode(&self, ep: &Episode) -> (r: bool)
        ensures
            r == has_key(self.episode_list(), *ep),
    {
        let mut i: usize = 0;
        while i < self.episodes.len()
            invariant
                i <= self.episodes@.len(),
                forall|k: int| 0 <= k < i ==> !same_key(#[trigger] self.episodes@[k], *ep),
            decreases self.episodes@.len() - i,
        {
            let r = &self.episodes[i];
            if r.title == ep.title && r.episode == ep.episode && r.resolution == ep.resolution {
                assert(same_key(self.episodes@[i as int], *ep));
                return true;
            }
            i += 1;
        }
        false
    }
}

/// Adds a show for each title, trimmed of surrounding whitespace, that no
/// show has yet. Gives the shows that were added.
pub fn insert_show_titles(store: &mut EpisodeStore, titles: &Vec<String>) -> (r: Vec<Show>)
    requires
        old(store).wf(),
        old(store).show_list().len() + titles@.len() < u32::MAX,
    ensures
        final(store).wf(),
        final(store).episode_list() == old(store).episode_list(),
        final(store).show_list() == add_titles(
            old(store).show_list(),
            titles@.map_values(|t: String| trimmed(t@)),
        ),
        lists_shows(
            r@,
            final(store).show_list().subrange(
                old(store).show_list().len() as int,
                final(store).show_list().len() as int,
            ),
        ),
{
    let ghost shows0 = store.show_list();
    let ghost all = titles@.map_values(|t: String| trimmed(t@));
    let mut added: Vec<Show> = Vec::new();
    let mut i: usize = 0;
    while i < titles.len()
        invariant
            i <= titles@.len(),
            all == titles@.map_values(|t: String| trimmed(t@)),
            shows0.len() + titles@.len() < u32::MAX,
            store.show_list() == add_titles(shows0, all.subrange(0, i as int)),
            shows0.len() <= store.show_list().len() <= shows0.len() + i,
            forall|k: int| 0 <= k < shows0.len() ==> #[trigger] store.show_list()[k] == shows0[k],
            shows_wf(store.show_list()),
            rows_wf(store.show_list(), store.episode_list()),
            store.episode_list() == old(store).episode_list(),
            lists_shows(
                added@,
                store.show_list().subrange(shows0.len() as int, store.show_list().len() as int),
            ),
        decreases titles@.len() - i,
    {
        let ghost prefix = all.subrange(0, i as int + 1);
        assert(prefix.drop_last() =~= all.subrange(0, i as int));
        let title = trim_text(titles[i].as_str());
        let ghost before = store.show_list();
        match store.find_show(&title) {
            Some(_) => {},
            None => {
                let id = (store.shows.len() + 1) as u32;
                store.shows.push(ShowEntry { id, title: title.clone(), subscribed: false });
                added.push(Show { id, title });
                proof {
                    let after = store.show_list();
                    lemma_show_position_from(before, all[i as int], 0);
                    lemma_trimmed_idempotent(titles@[i as int]@);
                    assert(all[i as int] == trimmed(titles@[i as int]@));
                    assert(after =~= before.push(
                        ShowState { id: before.len() + 1 as int, title: all[i as int], subscribed: false },
                    ));
                    assert forall|a: int, b: int| 0 <= a < b < after.len() implies (
                    #[trigger] after[a]).title != (#[trigger] after[b]).title by {
                        if b < before.len() {
                            assert(after[a] == before[a] && after[b] == before[b]);
                        } else {
                            assert(after[a] == before[a]);
                        }
                    }
                    assert forall|a: int| 0 <= a < after.len() implies trimmed(
                        (#[trigger] after[a]).title,
                    ) == after[a].title by {
                        if a < before.len() {
                            assert(after[a] == before[a]);
                        }
                    }
                    let rows = store.episode_list();
                    assert forall|k: int| 0 <= k < rows.len() implies row_belongs(
                        after,
                        #[trigger] rows[k],
                    ) by {
                        assert(row_belongs(before, rows[k]));
                        assert(after[rows[k].show_id - 1] == before[rows[k].show_id - 1]);
                    }
                    assert(added@.len() == after.len() - shows0.len());
                }
            },
        }
        i += 1;
    }
    assert(all.subrange(0, i as int) =~= all);
    added
}

/// Marks the show with identity `id` as subscribed; no show changes when
/// there is none with that identity.
pub fn subscribe_to_show(store: &mut EpisodeStore, id: u32)
    requires
        old(store).wf(),
    ensures
        final(store).wf(),
        final(store).episode_list() == old(store).episode_list(),
        final(store).show_list() == if 1 <= id <= old(store).show_list().len() {
            old(store).show_list().update(
                id - 1,
                ShowState { subscribed: true, ..old(store).show_list()[id - 1] },
            )
        } else {
            old(store).show_list()
        },
{
    let ghost before = store.show_list();
    if id >= 1 && id as usize <= store.shows.len() {
        let p = (id - 1) as usize;
        let title = store.shows[p].title.clone();
        store.shows.set(p, ShowEntry { id, title, subscribed: true });
        proof {
            let after = store.show_list();
            assert(after =~= before.update(
                id - 1,
                ShowState { subscribed: true, ..before[id - 1] },
            ));
            assert forall|a: int, b: int| 0 <= a < b < after.len() implies (
            #[trigger] after[a]).title != (#[trigger] after[b]).title by {
                assert(after[a].title == before[a].title && after[b].title == before[b].title);
            }
            let rows = store.episode_list();
            assert forall|k: int| 0 <= k < rows.len() implies row_belongs(
                after,
                #[trigger] rows[k],
            ) by {
                assert(row_belongs(before, rows[k]));
            }
        }
    }
}

/// The shows whose subscribed flag is `subscribed`, in order of identity.
pub fn fetch_shows(store: &EpisodeStore, subscribed: bool) -> (r: Vec<Show>)
    ensures
        lists_shows(r@, store.show_list().filter(|s: ShowState| s.subscribed == subscribed)),
{
    let ghost shows = store.show_list();
    let ghost pred = |s: ShowState| s.subscribed == subscribed;
    let mut r: Vec<Show> = Vec::new();
    let mut i: usize = 0;
    while i < store.shows.len()
        invariant
            shows == store.show_list(),
            shows.len() == store.shows@.len(),
            i <= shows.len(),
            pred == (|s: ShowState| s.subscribed == subscribed),
            lists_shows(r@, shows.subrange(0, i as int).filter(pred)),
        decreases shows.len() - i,
    {
        let ghost prefix = shows.subrange(0, i as int);
        assert(shows.subrange(0, i as int + 1) =~= prefix.push(shows[i as int]));
        proof {
            prefix.lemma_filter_push(shows[i as int], pred);
        }
        let s = &store.shows[i];
        if s.subscribed == subscribed {
            r.push(Show { id: s.id, title: s.title.clone() });
        }
        i += 1;
    }
    assert(shows.subrange(0, i as int) =~= shows);
    r
}

/// Marks the episode with identity `episode_id` as watched. Gives the
/// number of rows that matched: `1`, or `0` when no episode has that identity.
pub fn flag_episode_as_watched(store: &mut EpisodeStore, episode_id: u32) -> (r: usize)
    requires
        old(store).wf(),
    ensures
        final(store).wf(),
        final(store).show_list() == old(store).show_list(),
        if 1 <= episode_id <= old(store).episode_list().len() {
            &&& r == 1
            &&& final(store).episode_list() == old(store).episode_list().update(
                episode_id - 1,
                Episode { watched: 1, ..old(store).episode_list()[episode_id - 1] },
            )
        } else {
            r == 0 && final(store).episode_list() == old(store).episode_list()
        },
{
    if episode_id >= 1 && episode_id as usize <= store.episodes.len() {
        let p = (episode_id - 1) as usize;
        let ghost rows = store.episode_list();
        let mut row = store.episodes[p].clone();
        row.watched = 1;
        store.episodes.set(p, row);
        proof {
            let after = store.episode_list();
            assert forall|a: int, b: int| 0 <= a < b < after.len() implies !same_key(
                #[trigger] after[a],
                #[trigger] after[b],
            ) by {
                assert(same_key(after[a], rows[a]) && same_key(after[b], rows[b]));
            }
            assert forall|k: int| 0 <= k < after.len() implies row_belongs(
                store.show_list(),
                #[trigger] after[k],
            ) by {
                assert(row_belongs(store.show_list(), rows[k]));
            }
        }
        1
    } else {
        0
    }
}

/// The episodes of the subscribed show titled `show_title` in the
/// resolution labelled `user_resolution`, in order of identity.
pub fn fetch_episodes_for_show(store: &EpisodeStore, show_title: &str, user_resolution: &str) -> (r: Vec<
    Episode,
>)
    requires
        store.wf(),
    ensures
        r@ == store.episode_list().filter(
            |e: Episode|
                row_of_show(
                    store.show_list(),
                    e,
                    show_title@,
                    resolution_from_label(user_resolution@),
                ),
        ),
{
    let ghost shows = store.show_list();
    let preferred = Resolution::parse(user_resolution);
    let title = show_title.to_owned();
    let ghost pred = |e: Episode| row_of_show(shows, e, show_title@, preferred);
    let mut r: Vec<Episode> = Vec::new();
    let mut i: usize = 0;
    while i < store.episodes.len()
        invariant
            store.wf(),
            shows == store.show_list(),
            shows.len() == store.shows@.len(),
            title@ == show_title@,
            preferred == resolution_from_label(user_resolution@),
            i <= store.episodes@.len(),
            pred == (|e: Episode| row_of_show(shows, e, show_title@, preferred)),
            r@ == store.episode_list().subrange(0, i as int).filter(pred),
        decreases store.episodes@.len() - i,
    {
        let ghost prefix = store.episode_list().subrange(0, i as int);
        assert(store.episode_list().subrange(0, i as int + 1) =~= prefix.push(
            store.episodes@[i as int],
        ));
        proof {
            prefix.lemma_filter_push(store.episodes@[i as int], pred);
        }
        let e = &store.episodes[i];
        let keep = if e.show_id >= 1 && e.show_id as usize <= store.shows.len() {
            let s = &store.shows[(e.show_id - 1) as usize];
            s.subscribed && s.title == title && match preferred {
                Some(res) => res == e.resolution,
                None => false,
            }
        } else {
            false
        };
        if keep {
            r.push(e.clone());
        }
        i += 1;
    }
    assert(store.episode_list().subrange(0, i as int) =~= store.episode_list());
    r
}

/// The episodes of subscribed shows that are not watched yet, in the
/// resolution of the user's settings, in order of identity.
pub fn fetch_new_episodes(store: &EpisodeStore, config: &Config) -> (r: Vec<Episode>)
    requires
        store.wf(),
    ensures
        r@ == store.episode_list().filter(
            |e: Episode|
                row_is_new(
                    store.show_list(),
                    e,
                    resolution_from_label(config.show_resolution@),
                ),
        ),
{
    let ghost shows = store.show_list();
    let preferred = Resolution::parse(config.show_resolution.as_str());
    let ghost pred = |e: Episode| row_is_new(shows, e, preferred);
    let mut r: Vec<Episode> = Vec::new();
    let mut i: usize = 0;
    while i < store.episodes.len()
        invariant
            store.wf(),
            shows == store.show_list(),
            shows.len() == store.shows@.len(),
            preferred == resolution_from_label(config.show_resolution@),
            i <= store.episodes@.len(),
            pred == (|e: Episode| row_is_new(shows, e, preferred)),
            r@ == store.episode_list().subrange(0, i as int).filter(pred),
        decreases store.episodes@.len() - i,
    {
        let ghost prefix = store.episode_list().subrange(0, i as int);
        assert(store.episode_list().subrange(0, i as int + 1) =~= prefix.push(
            store.episodes@[i as int],
        ));
        proof {
            prefix.lemma_filter_push(store.episodes@[i as int], pred);
        }
        let e = &store.episodes[i];
        let keep = if e.show_id >= 1 && e.show_id as usize <= store.shows.len() {
            store.shows[(e.show_id - 1) as usize].subscribed && e.watched == 0 && match preferred {
                Some(res) => res == e.resolution,
                None => false,
            }
        } else {
            false
        };
        if keep {
            r.push(e.clone());
        }
        i += 1;
    }
    assert(store.episode_list().subrange(0, i as int) =~= store.episode_list());
    r
}

/// Stores the episodes of `episodes` whose show is subscribed and whose
/// key is not stored yet, with the given watched flag, and announces
/// those of them that have the resolution labelled `user_resolution`.
pub fn persist_new_episodes(
    store: &mut EpisodeStore,
    episodes: Vec<Episode>,
    watched: bool,
    user_resolution: &str,
) -> (r: Reconciled)
    requires
        old(store).wf(),
        old(store).episode_list().len() + episodes@.len() < u32::MAX,
    ensures
        final(store).wf(),
        final(store).show_list() == old(store).show_list(),
        (final(store).episode_list(), r.announced@) == reconcile(
            old(store).show_list(),
            old(store).episode_list(),
            episodes@,
            watched,
            resolution_from_label(user_resolution@),
        ),
        r.inserted@ == final(store).episode_list().subrange(
            old(store).episode_list().len() as int,
            final(store).episode_list().len() as int,
        ),
{
    let preferred = Resolution::parse(user_resolution);
    let ghost shows = store.show_list();
    let ghost rows0 = store.episode_list();
    let mut inserted: Vec<Episode> = Vec::new();
    let mut announced: Vec<Episode> = Vec::new();
    let mut i: usize = 0;
    while i < episodes.len()
        invariant
            shows == store.show_list(),
            shows_wf(shows),
            rows_wf(shows, store.episode_list()),
            preferred == resolution_from_label(user_resolution@),
            i <= episodes@.len(),
            rows0.len() + episodes@.len() < u32::MAX,
            store.episode_list().len() <= rows0.len() + i,
            (store.episode_list(), announced@) == reconcile(
                shows,
                rows0,
                episodes@.subrange(0, i as int),
                watched,
                preferred,
            ),
            store.episode_list().len() >= rows0.len(),
            inserted@ == store.episode_list().subrange(
                rows0.len() as int,
                store.episode_list().len() as int,
            ),
        decreases episodes@.len() - i,
    {
        let ghost prefix = episodes@.subrange(0, i as int + 1);
        assert(prefix.drop_last() =~= episodes@.subrange(0, i as int));
        let ep = &episodes[i];
        let ghost rows = store.episode_list();
        match store.find_show(&ep.title) {
            Some(p) => {
                if store.shows[p].subscribed && !store.has_episode(ep) {
                    let n = store.episodes.len();
                    let row = Episode {
                        id: (n + 1) as u32,
                        show_id: (p + 1) as u32,
                        title: ep.title.clone(),
                        episode: ep.episode.clone(),
                        version: ep.version.clone(),
                        watched: if watched {
                            1
                        } else {
                            0
                        },
                        resolution: ep.resolution,
                        torrent_link: ep.torrent_link.clone(),
                    };
                    assert(row == stored_row(*ep, n + 1 as int, p + 1 as int, watched));
                    store.episodes.push(row.clone());
                    inserted.push(row);
                    let announce = match preferred {
                        Some(res) => res == ep.resolution,
                        None => false,
                    };
                    if announce {
                        announced.push(ep.clone());
                    }
                    proof {
                        let rows1 = store.episode_list();
                        assert(rows1 == rows.push(row));
                        assert forall|a: int, b: int|
                            0 <= a < b < rows1.len() implies !same_key(
                            #[trigger] rows1[a],
                            #[trigger] rows1[b],
                        ) by {
                            if b == rows.len() {
                                assert(rows1[a] == rows[a]);
                                if same_key(rows1[a], rows1[b]) {
                                    assert(same_key(rows[a], *ep));
                                }
                            } else {
                                assert(rows1[a] == rows[a] && rows1[b] == rows[b]);
                            }
                        }
                        assert forall|a: int| 0 <= a < rows1.len() implies row_belongs(
                            shows,
                            #[trigger] rows1[a],
                        ) by {
                            if a < rows.len() {
                                assert(rows1[a] == rows[a]);
                            } else {
                                lemma_show_position_from(shows, ep.title@, 0);
                                assert(shows[p as int] == store.shows@[p as int]@);
                            }
                        }
                        assert(inserted@ =~= rows1.subrange(rows0.len() as int, rows1.len() as int));
                    }
                }
            },
            None => {},
        }
        i += 1;
    }
    assert(episodes@.subrange(0, i as int) =~= episodes@);
    Reconciled { inserted, announced }
}

} // verus!
