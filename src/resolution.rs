use vstd::prelude::*;
use crate::text::chars_of;

verus! {

/// The video resolutions a release may be published in.
#[derive(Clone, Copy, Debug, PartialEq, Eq, Structural)]
pub enum Resolution {
    P480,
    P720,
    P1080,
}

/// The text label of a resolution, as it appears inside a release title.
pub open spec fn label_of(r: Resolution) -> Seq<char> {
    match r {
        Resolution::P480 => seq!['4', '8', '0', 'p'],
        Resolution::P720 => seq!['7', '2', '0', 'p'],
        Resolution::P1080 => seq!['1', '0', '8', '0', 'p'],
    }
}

/// The resolution whose label is exactly `s`, if there is one.
pub open spec fn resolution_from_label(s: Seq<char>) -> Option<Resolution> {
    if s == label_of(Resolution::P480) {
        Some(Resolution::P480)
    } else if s == label_of(Resolution::P720) {
        Some(Resolution::P720)
    } else if s == label_of(Resolution::P1080) {
        Some(Resolution::P1080)
    } else {
        None
    }
}

/// Parsing a label gives back the resolution it was formatted from.
pub proof fn lemma_label_round_trip(r: Resolution)
    ensures
        resolution_from_label(label_of(r)) == Some(r),
{
    assert(label_of(Resolution::P480) != label_of(Resolution::P720));
    assert(label_of(Resolution::P480) != label_of(Resolution::P1080));
    assert(label_of(Resolution::P720) != label_of(Resolution::P1080));
}

/// Whether `s[start..start + label.len()]` spells `label`.
pub open spec fn spells_at(s: Seq<char>, start: int, label: Seq<char>) -> bool {
    0 <= start && start + label.len() <= s.len() && s.subrange(start, start + label.len())
        == label
}

/// Checks that `s[start..]` begins with the characters of `label`.
pub fn chars_spell_at(s: &Vec<char>, start: usize, label: &[char]) -> (r: bool)
    ensures
        r == spells_at(s@, start as int, label@),
{
    if start > s.len() || label.len() > s.len() - start {
        return false;
    }
    let mut i: usize = 0;
    while i < label.len()
        invariant
            start + label@.len() <= s@.len(),
            s@.len() == s.len(),
            i <= label@.len(),
            forall|k: int| 0 <= k < i ==> s@[start + k] == label@[k],
        decreases label@.len() - i,
    {
        if s[start + i] != label[i] {
            assert(s@.subrange(start as int, start + label@.len())[i as int] != label@[i as int]);
            return false;
        }
        i += 1;
    }
    assert(s@.subrange(start as int, start + label@.len()) =~= label@);
    true
}

impl Resolution {
    /// All resolutions, from lowest to highest.
    pub fn all() -> (r: Vec<Resolution>)
        ensures
            r@ == seq![Resolution::P480, Resolution::P720, Resolution::P1080],
    {
        vec![Resolution::P480, Resolution::P720, Resolution::P1080]
    }

    /// The label of this resolution: `480p`, `720p` or `1080p`.
    pub fn label(&self) -> (r: String)
        ensures
            r@ == label_of(*self),
    {
        let s = match self {
            Resolution::P480 => "480p",
            Resolution::P720 => "720p",
            Resolution::P1080 => "1080p",
        };
        proof {
            reveal_strlit("480p");
            reveal_strlit("720p");
            reveal_strlit("1080p");
        }
        let r = s.to_owned();
        proof {
            assert(r@ =~= label_of(*self));
        }
        r
    }

    /// The resolution labelled by `s`; `None` for any other text.
    pub fn parse(s: &str) -> (r: Option<Resolution>)
        ensures
            r == resolution_from_label(s@),
    {
        let chars = chars_of(s);
        let n = chars.len();
        assert(chars@.subrange(0, n as int) =~= s@);
        Self::parse_chars(&chars, 0, n)
    }

    /// The characters of this resolution's label.
    pub fn label_chars(&self) -> (r: Vec<char>)
        ensures
            r@ == label_of(*self),
    {
        let r = match self {
            Resolution::P480 => vec!['4', '8', '0', 'p'],
            Resolution::P720 => vec!['7', '2', '0', 'p'],
            Resolution::P1080 => vec!['1', '0', '8', '0', 'p'],
        };
        assert(r@ =~= label_of(*self));
        r
    }

    /// The resolution labelled by `s[start..end]`, if any.
    pub fn parse_chars(s: &Vec<char>, start: usize, end: usize) -> (r: Option<Resolution>)
        requires
            start <= end <= s@.len(),
        ensures
            r == resolution_from_label(s@.subrange(start as int, end as int)),
    {
        let ghost t = s@.subrange(start as int, end as int);
        let all = Self::all();
        let mut i: usize = 0;
        while i < all.len()
            invariant
                all@ == seq![Resolution::P480, Resolution::P720, Resolution::P1080],
                start <= end <= s@.len(),
                t == s@.subrange(start as int, end as int),
                0 <= i <= 3,
                forall|k: int| 0 <= k < i ==> t != label_of(#[trigger] all@[k]),
            decreases all@.len() - i,
        {
            let r = all[i];
            let label = r.label_chars();
            if label.len() == end - start && chars_spell_at(s, start, label.as_slice()) {
                proof {
                    assert(t =~= label_of(r));
                    lemma_label_round_trip(r);
                }
                return Some(r);
            }
            proof {
                if t == label_of(r) {
                    assert(spells_at(s@, start as int, label@));
                }
            }
            i += 1;
        }
        assert(t != label_of(all@[0]));
        assert(t != label_of(all@[1]));
        assert(t != label_of(all@[2]));
        None
    }
}

} // verus!
