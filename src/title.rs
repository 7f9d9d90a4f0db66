use vstd::prelude::*;
use crate::resolution::{Resolution, label_of, resolution_from_label, spells_at};
use crate::text::{chars_of, digit_len, digit_run, find_char, find_from, run_len, run_of};

verus! {

/// Where each field of a well-formed release title lies, as character indices.
///
/// A release title reads `[<subber>] <show> - <episode>[.<part>] [<resolution>]<version>`,
/// possibly followed by more text (a file extension, say).
pub ghost struct TitleLayout {
    /// Index of the `]` that closes the subber group; the subber is `1..subber_end`.
    pub subber_end: int,
    /// The show name is `show_start..show_end`.
    pub show_start: int,
    pub show_end: int,
    /// The episode number is `episode_start..episode_end`.
    pub episode_start: int,
    pub episode_end: int,
    pub resolution: Resolution,
    /// The version tag is `version_start..version_end`; it may be empty.
    pub version_start: int,
    pub version_end: int,
}

/// Where the episode number starts when the show name ends at `k`: the name is
/// followed by one or more spaces, a dash, and one or more spaces. `-1` when
/// that separator is not there.
pub open spec fn episode_start_after(s: Seq<char>, k: int) -> int {
    let p = run_of(s, k, ' ') as int;
    let q = run_of(s, k + p + 1, ' ') as int;
    if p >= 1 && k + p < s.len() && s[k + p] == '-' && q >= 1 {
        k + p + 1 + q
    } else {
        -1
    }
}

/// Where an episode number that starts at `e` ends: one or more digits,
/// optionally followed by a dot and one or more digits (the part of a split
/// episode). `-1` when there is no digit at `e`.
pub open spec fn episode_end_from(s: Seq<char>, e: int) -> int {
    let a = digit_run(s, e) as int;
    let b = digit_run(s, e + a + 1) as int;
    if a < 1 {
        -1
    } else if e + a < s.len() && s[e + a] == '.' && 1 <= b {
        e + a + 1 + b
    } else {
        e + a
    }
}

/// The resolution group that starts at `i`: a space, `[`, a recognised
/// resolution label and `]`. Gives the resolution and the index just past `]`.
pub open spec fn resolution_group_at(s: Seq<char>, i: int) -> Option<(Resolution, int)> {
    if 0 <= i && i + 1 < s.len() && s[i] == ' ' && s[i + 1] == '[' {
        let j = find_from(s, i + 2, ']');
        if j < s.len() {
            match resolution_from_label(s.subrange(i + 2, j)) {
                Some(r) => Some((r, j + 1)),
                None => None,
            }
        } else {
            None
        }
    } else {
        None
    }
}

/// The fields that follow a show name ending at `k`, as a layout whose
/// subber and show fields are left for the caller to fill in.
pub open spec fn tail_after(s: Seq<char>, k: int) -> Option<TitleLayout> {
    let e = episode_start_after(s, k);
    let f = episode_end_from(s, e);
    if e < 0 || f < 0 {
        None
    } else {
        match resolution_group_at(s, f) {
            None => None,
            Some((r, g)) => {
                let v = run_of(s, g, 'v') as int;
                let d = digit_run(s, g + v) as int;
                Some(
                    TitleLayout {
                        subber_end: 0,
                        show_start: 0,
                        show_end: k,
                        episode_start: e,
                        episode_end: f,
                        resolution: r,
                        version_start: g,
                        version_end: g + v + d,
                    },
                )
            },
        }
    }
}

/// The shortest show name: the first end `k >= start` after which the rest
/// of the title parses.
pub open spec fn first_show_end(s: Seq<char>, k: int) -> Option<int>
    decreases s.len() - k,
{
    if k >= s.len() {
        None
    } else if tail_after(s, k) is Some {
        Some(k)
    } else {
        first_show_end(s, k + 1)
    }
}

/// The layout of the release title `s`, or `None` when `s` is not one.
///
/// The subber group runs from the leading `[` to the first `]` and is not
/// empty; spaces after it are skipped; the show name is not empty and is the
/// shortest one after which the rest of the title parses.
pub open spec fn title_layout(s: Seq<char>) -> Option<TitleLayout> {
    let j = find_from(s, 1, ']');
    let b = j + 1 + run_of(s, j + 1, ' ');
    if s.len() == 0 || s[0] != '[' || j >= s.len() || j < 2 {
        None
    } else {
        match first_show_end(s, b + 1) {
            None => None,
            Some(k) => {
                let t = tail_after(s, k)->Some_0;
                Some(TitleLayout { subber_end: j, show_start: b, ..t })
            },
        }
    }
}

/// A resolution label between brackets, such as `[720p]`.
pub open spec fn bracketed_label(r: Resolution) -> Seq<char> {
    seq!['['] + label_of(r) + seq![']']
}

/// Whether a recognised resolution label stands between brackets somewhere in `s`.
pub open spec fn has_bracketed_resolution(s: Seq<char>) -> bool {
    exists|i: int, r: Resolution| #[trigger] spells_at(s, i, bracketed_label(r))
}

proof fn lemma_first_show_end_parses(s: Seq<char>, k: int)
    ensures
        first_show_end(s, k) matches Some(m) ==> tail_after(s, m) is Some,
    decreases s.len() - k,
{
    if k < s.len() && tail_after(s, k) is None {
        lemma_first_show_end_parses(s, k + 1);
    }
}

proof fn lemma_find_from_found(s: Seq<char>, i: int, c: char)
    ensures
        0 <= find_from(s, i, c) < s.len() ==> s[find_from(s, i, c)] == c,
    decreases s.len() - i,
{
    if i < s.len() && !(0 <= i && s[i] == c) {
        lemma_find_from_found(s, i + 1, c);
    }
}

/// A title parses only with a recognised resolution label between brackets
/// right after its episode number and one space: the parsed resolution's.
pub proof fn lemma_parsed_title_has_bracketed_resolution(s: Seq<char>)
    requires
        title_layout(s) is Some,
    ensures
        ({
            let l = title_layout(s)->Some_0;
            &&& s[l.episode_end] == ' '
            &&& spells_at(s, l.episode_end + 1, bracketed_label(l.resolution))
        }),
{
    let j0 = find_from(s, 1, ']');
    let b = j0 + 1 + run_of(s, j0 + 1, ' ');
    lemma_first_show_end_parses(s, b + 1);
    let k = first_show_end(s, b + 1)->Some_0;
    let e = episode_start_after(s, k);
    let f = episode_end_from(s, e);
    let (r, g) = resolution_group_at(s, f)->Some_0;
    assert(0 <= f && f + 1 < s.len() && s[f] == ' ' && s[f + 1] == '[');
    let j = find_from(s, f + 2, ']');
    lemma_find_from_found(s, f + 2, ']');
    lemma_find_from_bounds(s, f + 2, ']');
    assert(f + 2 <= j < s.len());
    let inner = s.subrange(f + 2, j);
    assert(resolution_from_label(inner) == Some(r));
    assert(inner == label_of(r)) by {
        if inner != label_of(Resolution::P480) && inner != label_of(Resolution::P720) {
            assert(inner == label_of(Resolution::P1080));
        }
    }
    let w = bracketed_label(r);
    assert(w.len() == inner.len() + 2);
    assert forall|x: int| 0 <= x < w.len() implies s.subrange(f + 1, f + 1 + w.len())[x]
        == w[x] by {
        if x == 0 {
        } else if x < w.len() - 1 {
            assert(w[x] == inner[x - 1]);
        } else {
            assert(f + 1 + x == j);
        }
    }
    assert(s.subrange(f + 1, f + 1 + w.len()) =~= w);
    let l = title_layout(s)->Some_0;
    assert(l.episode_end == f && l.resolution == r);
}

/// A title in which no recognised resolution label stands between brackets
/// does not parse.
pub proof fn lemma_title_needs_bracketed_resolution(s: Seq<char>)
    requires
        !has_bracketed_resolution(s),
    ensures
        title_layout(s) is None,
{
    if title_layout(s) is Some {
        lemma_parsed_title_has_bracketed_resolution(s);
        let l = title_layout(s)->Some_0;
        assert(spells_at(s, l.episode_end + 1, bracketed_label(l.resolution)));
    }
}

/// The fields of a parsed release title.
#[derive(Clone, Debug)]
pub struct ParsedTitle {
    pub subber: String,
    pub title: String,
    pub episode: String,
    pub resolution: Resolution,
    /// Empty when the title carries no version tag.
    pub version: String,
}

/// A release title that does not follow the expected grammar.
#[derive(Clone, Copy, Debug, PartialEq, Eq, Structural)]
pub struct ParseError;

impl ParsedTitle {
    /// Whether these fields are those that `layout` marks out in `s`.
    pub open spec fn follows(&self, s: Seq<char>, layout: TitleLayout) -> bool {
        &&& self.subber@ == s.subrange(1, layout.subber_end)
        &&& self.title@ == s.subrange(layout.show_start, layout.show_end)
        &&& self.episode@ == s.subrange(layout.episode_start, layout.episode_end)
        &&& self.resolution == layout.resolution
        &&& self.version@ == s.subrange(layout.version_start, layout.version_end)
    }
}

/// Where the episode number starts after a show name ending at `k`, if the
/// separator is there.
fn find_episode_start(s: &Vec<char>, k: usize) -> (r: Option<usize>)
    requires
        k <= s@.len(),
    ensures
        match r {
            Some(e) => e as int == episode_start_after(s@, k as int) && e <= s@.len(),
            None => episode_start_after(s@, k as int) == -1,
        },
{
    let n = s.len();
    let p = run_len(s, k, ' ');
    if p == 0 || k + p >= n || s[k + p] != '-' {
        return None;
    }
    let q = run_len(s, k + p + 1, ' ');
    if q == 0 {
        return None;
    }
    Some(k + p + 1 + q)
}

/// Where an episode number starting at `e` ends, if one starts there.
fn find_episode_end(s: &Vec<char>, e: usize) -> (r: Option<usize>)
    requires
        e <= s@.len(),
    ensures
        match r {
            Some(f) => f as int == episode_end_from(s@, e as int) && e < f <= s@.len(),
            None => episode_end_from(s@, e as int) == -1,
        },
{
    let n = s.len();
    let a = digit_len(s, e);
    if a < 1 {
        return None;
    }
    if e + a < n && s[e + a] == '.' {
        let b = digit_len(s, e + a + 1);
        if 1 <= b {
            return Some(e + a + 1 + b);
        }
    }
    Some(e + a)
}

/// The resolution group at `i`, if there is one there.
fn find_resolution_group(s: &Vec<char>, i: usize) -> (r: Option<(Resolution, usize)>)
    requires
        i <= s@.len(),
    ensures
        match r {
            Some((res, g)) => resolution_group_at(s@, i as int) == Some((res, g as int)) && i < g
                <= s@.len(),
            None => resolution_group_at(s@, i as int) is None,
        },
{
    let n = s.len();
    if n < 2 || i > n - 2 || s[i] != ' ' || s[i + 1] != '[' {
        return None;
    }
    let j = find_char(s, i + 2, ']');
    if j >= s.len() {
        return None;
    }
    proof {
        assert(find_from(s@, i + 2, ']') <= j);
        lemma_find_from_bounds(s@, i + 2, ']');
    }
    match Resolution::parse_chars(s, i + 2, j) {
        Some(r) => Some((r, j + 1)),
        None => None,
    }
}

/// `find_from` never goes back before its start.
proof fn lemma_find_from_bounds(s: Seq<char>, i: int, c: char)
    requires
        0 <= i,
    ensures
        i <= find_from(s, i, c) || find_from(s, i, c) == s.len(),
        find_from(s, i, c) <= s.len() || i > s.len(),
    decreases s.len() - i,
{
    if i < s.len() && s[i] != c {
        lemma_find_from_bounds(s, i + 1, c);
    }
}

/// The fields that follow a show name ending at `k`, if they parse.
fn find_tail(s: &Vec<char>, k: usize) -> (r: Option<(usize, usize, Resolution, usize, usize)>)
    requires
        k <= s@.len(),
    ensures
        match r {
            Some((e, f, res, g, v)) => {
                &&& tail_after(s@, k as int) matches Some(t)
                &&& t.episode_start == e && t.episode_end == f && t.resolution == res
                &&& t.version_start == g && t.version_end == v
                &&& t.show_end == k
                &&& k <= e <= f <= g <= v <= s@.len()
            },
            None => tail_after(s@, k as int) is None,
        },
{
    let e = match find_episode_start(s, k) {
        Some(e) => e,
        None => return None,
    };
    let f = match find_episode_end(s, e) {
        Some(f) => f,
        None => return None,
    };
    let (res, g) = match find_resolution_group(s, f) {
        Some(x) => x,
        None => return None,
    };
    let n = s.len();
    let v = run_len(s, g, 'v');
    let d = if g + v < n {
        digit_len(s, g + v)
    } else {
        0
    };
    Some((e, f, res, g, g + v + d))
}

/// Parses a release title such as `[Subs] Show Name - 12 [720p]` into its
/// fields. Titles that do not follow the grammar are rejected.
pub fn parse_title(raw: &str) -> (r: Result<ParsedTitle, ParseError>)
    ensures
        r is Ok <==> title_layout(raw@) is Some,
        r matches Ok(p) ==> p.follows(raw@, title_layout(raw@)->Some_0),
{
    let s = chars_of(raw);
    if s.len() == 0 || s[0] != '[' {
        return Err(ParseError);
    }
    let j = find_char(&s, 1, ']');
    if j >= s.len() || j < 2 {
        return Err(ParseError);
    }
    let b = j + 1 + run_len(&s, j + 1, ' ');
    if b >= s.len() {
        return Err(ParseError);
    }
    let mut k: usize = b + 1;
    while k < s.len()
        invariant
            s@ == raw@,
            2 <= j < b < k <= s@.len(),
            s@[0] == '[',
            j == find_from(s@, 1, ']'),
            b == j + 1 + run_of(s@, j + 1, ' '),
            first_show_end(s@, (b + 1) as int) == first_show_end(s@, k as int),
        decreases s@.len() - k,
    {
        match find_tail(&s, k) {
            Some((e, f, res, g, v)) => {
                let p = ParsedTitle {
                    subber: raw.substring_char(1, j).to_owned(),
                    title: raw.substring_char(b, k).to_owned(),
                    episode: raw.substring_char(e, f).to_owned(),
                    resolution: res,
                    version: raw.substring_char(g, v).to_owned(),
                };
                proof {
                    assert(first_show_end(s@, k as int) == Some(k as int));
                    let t = tail_after(s@, k as int)->Some_0;
                    let l = title_layout(raw@);
                    assert(l == Some(TitleLayout { subber_end: j as int, show_start: b as int, ..t }));
                    assert(p.follows(raw@, l->Some_0));
                }
                return Ok(p);
            },
            None => {},
        }
        k += 1;
    }
    Err(ParseError)
}

} // verus!
