use vstd::prelude::*;
use crate::text::chars_of;
use vstd::string::StringSliceAdditionalSpecFns;
use kuchiki::traits::TendrilSink;

verus! {

/// The text of the first element of the HTML document `html` that the CSS
/// selector `selector` matches; `None` when the selector does not parse or
/// matches nothing. Given by the `kuchiki` crate.
pub uninterp spec fn first_match_text(html: Seq<char>, selector: Seq<char>) -> Option<Seq<char>>;

/// Relies on `kuchiki::parse_html`, `NodeRef::select_first` and
/// `text_contents`: the concatenated text of the first element that the
/// selector matches in the parsed document, which depends on the arguments alone.
/// The parser holds the document in one tendril, which panics beyond
/// `u32::MAX` bytes.
#[verifier::external_body]
fn select_first_text(html: &str, selector: &str) -> (r: Option<String>)
    requires
        html.spec_bytes().len() <= u32::MAX,
    ensures
        match r {
            Some(t) => first_match_text(html@, selector@) == Some(t@),
            None => first_match_text(html@, selector@) is None,
        },
{
    let document = kuchiki::parse_html().one(html);
    document.select_first(selector).ok().map(|element| element.text_contents())
}

/// The typographic dash and apostrophe of the season listing, written as
/// plain `-` and `'`.
pub open spec fn plain_char(c: char) -> char {
    if c == '\u{2013}' {
        '-'
    } else if c == '\u{2019}' {
        '\''
    } else {
        c
    }
}

/// `line` without one trailing carriage return.
pub open spec fn without_cr(line: Seq<char>) -> Seq<char> {
    if line.len() > 0 && line.last() == '\r' {
        line.drop_last()
    } else {
        line
    }
}

/// `titles` with `line` added when it is not empty.
pub open spec fn keep_line(titles: Seq<Seq<char>>, line: Seq<char>) -> Seq<Seq<char>> {
    if line.len() > 0 {
        titles.push(line)
    } else {
        titles
    }
}

/// Reading `s` line by line: the non-empty lines ended so far (without
/// their `\r\n` or `\n` ending), and the line being read.
pub open spec fn scan_lines(s: Seq<char>) -> (Seq<Seq<char>>, Seq<char>)
    decreases s.len(),
{
    if s.len() == 0 {
        (Seq::empty(), Seq::empty())
    } else {
        let (titles, line) = scan_lines(s.drop_last());
        let c = plain_char(s.last());
        if c == '\n' {
            (keep_line(titles, without_cr(line)), Seq::empty())
        } else {
            (titles, line.push(c))
        }
    }
}

/// The show titles of a season listing's text: its non-empty lines, with
/// typographic dashes and apostrophes made plain.
pub open spec fn season_titles_of(text: Seq<char>) -> Seq<Seq<char>> {
    let (titles, line) = scan_lines(text);
    keep_line(titles, line)
}

/// The characters `text[from..to]`, with typographic dashes and apostrophes
/// made plain.
fn plain_string(text: &str, from: usize, to: usize) -> (r: String)
    requires
        from <= to <= text@.len(),
    ensures
        r@ == text@.subrange(from as int, to as int).map_values(|c: char| plain_char(c)),
{
    let dash = "-";
    let apostrophe = "'";
    proof {
        reveal_strlit("-");
        reveal_strlit("'");
    }
    let mut r = String::new();
    let mut i: usize = from;
    while i < to
        invariant
            from <= i <= to <= text@.len(),
            dash@ == seq!['-'],
            apostrophe@ == seq!['\''],
            r@ == text@.subrange(from as int, i as int).map_values(|c: char| plain_char(c)),
        decreases to - i,
    {
        let c = text.get_char(i);
        if c == '\u{2013}' {
            r.append(dash);
        } else if c == '\u{2019}' {
            r.append(apostrophe);
        } else {
            r.append(text.substring_char(i, i + 1));
        }
        assert(text@.subrange(from as int, i as int + 1).map_values(|c: char| plain_char(c))
            =~= text@.subrange(from as int, i as int).map_values(|c: char| plain_char(c)).push(
            plain_char(c),
        ));
        assert(r@ =~= text@.subrange(from as int, i as int + 1).map_values(
            |c: char| plain_char(c),
        ));
        i += 1;
    }
    r
}

/// The show titles of a season listing's text; see `season_titles_of`.
pub fn season_titles(text: &str) -> (r: Vec<String>)
    ensures
        r@.map_values(|t: String| t@) == season_titles_of(text@),
{
    let s = chars_of(text);
    let mut titles: Vec<String> = Vec::new();
    let mut line: Vec<char> = Vec::new();
    let mut line_start: usize = 0;
    let mut i: usize = 0;
    while i < s.len()
        invariant
            s@ == text@,
            line_start <= i <= s@.len(),
            line@ == s@.subrange(line_start as int, i as int).map_values(|c: char| plain_char(c)),
            (titles@.map_values(|t: String| t@), line@) == scan_lines(s@.subrange(0, i as int)),
        decreases s@.len() - i,
    {
        let ghost prefix = s@.subrange(0, i as int + 1);
        assert(prefix.drop_last() =~= s@.subrange(0, i as int));
        let c = s[i];
        let c = if c == '\u{2013}' {
            '-'
        } else if c == '\u{2019}' {
            '\''
        } else {
            c
        };
        if c == '\n' {
            let n = line.len();
            let mut end = i;
            if n > 0 && line[n - 1] == '\r' {
                line.pop();
                end = i - 1;
            }
            assert(line@ =~= s@.subrange(line_start as int, end as int).map_values(
                |c: char| plain_char(c),
            ));
            if line.len() > 0 {
                let ghost before = titles@;
                let title = plain_string(text, line_start, end);
                assert(title@ == line@);
                titles.push(title);
                assert(titles@.map_values(|t: String| t@) =~= before.map_values(|t: String| t@).push(line@));
            }
            line = Vec::new();
            line_start = i + 1;
            assert(line@ =~= s@.subrange(line_start as int, i as int + 1).map_values(
                |c: char| plain_char(c),
            ));
        } else {
            line.push(c);
            assert(line@ =~= s@.subrange(line_start as int, i as int + 1).map_values(
                |c: char| plain_char(c),
            ));
        }
        i += 1;
    }
    assert(s@.subrange(0, i as int) =~= s@);
    if line.len() > 0 {
        let ghost before = titles@;
        let title = plain_string(text, line_start, i);
        titles.push(title);
        assert(titles@.map_values(|t: String| t@) =~= before.map_values(|t: String| t@).push(line@));
    }
    titles
}

/// The show titles of the season listing in the HTML page `html`: those of
/// the text of its first element of class `shows-wrapper`; `None` when it has
/// none. The page may hold at most `u32::MAX` bytes, the most the HTML
/// parser takes.
pub fn season_titles_from_html(html: &str) -> (r: Option<Vec<String>>)
    requires
        html.spec_bytes().len() <= u32::MAX,
    ensures
        match first_match_text(html@, ".shows-wrapper"@) {
            Some(text) => r matches Some(titles) && titles@.map_values(|t: String| t@)
                == season_titles_of(text),
            None => r is None,
        },
{
    match select_first_text(html, ".shows-wrapper") {
        Some(text) => Some(season_titles(text.as_str())),
        None => None,
    }
}

} // verus!
