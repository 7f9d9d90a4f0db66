use vstd::prelude::*;
use crate::resolution::Resolution;
use crate::text::{chars_of, digit_len, digit_run, is_digit};
use std::cmp::Ordering;

verus! {

/// A show of the season listing.
#[derive(Debug)]
pub struct Show {
    pub id: u32,
    pub title: String,
}

/// An episode release: as parsed from a feed, or as kept in the store, where
/// it also has an identity, the identity of its show and a watched flag.
#[derive(Debug)]
pub struct Episode {
    pub id: u32,
    pub show_id: u32,
    pub title: String,
    /// The episode number as written, such as `12` or `12.5`.
    pub episode: String,
    /// The release version tag, such as `v2`; empty when there is none.
    pub version: String,
    /// `1` once the episode was watched, else `0`.
    pub watched: u8,
    pub resolution: Resolution,
    pub torrent_link: String,
}

/// The user's settings.
#[derive(Clone, Debug)]
pub struct Config {
    pub player_path: String,
    pub show_resolution: String,
    pub feed_url: String,
    pub current_season_url: String,
}

/// `<title> - <episode><version>`, the name under which an episode is listed.
pub open spec fn formatted_title_of(e: Episode) -> Seq<char> {
    e.title@ + seq![' ', '-', ' '] + e.episode@ + e.version@
}

impl Episode {
    /// The name under which this episode is listed: `<title> - <episode><version>`.
    pub fn formatted_title(&self) -> (r: String)
        ensures
            r@ == formatted_title_of(*self),
    {
        let mut r = self.title.clone();
        let sep = " - ";
        proof {
            reveal_strlit(" - ");
            assert(sep@ =~= seq![' ', '-', ' ']);
        }
        r.append(sep);
        r.append(self.episode.as_str());
        r.append(self.version.as_str());
        r
    }
}

impl Clone for Show {
    fn clone(&self) -> (r: Show)
        ensures
            r == *self,
    {
        Show { id: self.id, title: self.title.clone() }
    }
}

impl Clone for Episode {
    fn clone(&self) -> (r: Episode)
        ensures
            r == *self,
    {
        Episode {
            id: self.id,
            show_id: self.show_id,
            title: self.title.clone(),
            episode: self.episode.clone(),
            version: self.version.clone(),
            watched: self.watched,
            resolution: self.resolution,
            torrent_link: self.torrent_link.clone(),
        }
    }
}

impl PartialEq for Episode {
    fn eq(&self, other: &Episode) -> (r: bool) {
        self.formatted_title() == other.formatted_title()
    }
}

impl vstd::std_specs::cmp::PartialEqSpecImpl for Episode {
    open spec fn obeys_eq_spec() -> bool {
        true
    }

    open spec fn eq_spec(&self, other: &Episode) -> bool {
        formatted_title_of(*self) == formatted_title_of(*other)
    }
}

/// The opening words of the line that announces a new episode: one wording
/// for episodes added while subscribing to a show (marked as watched), another
/// for episodes that arrive while watching the feed.
pub fn announcement_heading(watched: bool) -> (r: String)
    ensures
        r@ == if watched {
            "[EPISODE ADDED:"@
        } else {
            "[NEW EPISODE ARRIVAL:"@
        },
{
    if watched {
        "[EPISODE ADDED:".to_owned()
    } else {
        "[NEW EPISODE ARRIVAL:".to_owned()
    }
}

/// The value of an ASCII digit.
pub open spec fn digit_value(c: char) -> int {
    (c as u32) as int - ('0' as u32) as int
}

/// The value of a string of ASCII digits, read in base ten.
pub open spec fn digits_value(s: Seq<char>) -> nat
    decreases s.len(),
{
    if s.len() == 0 {
        0
    } else {
        (digits_value(s.drop_last()) * 10 + digit_value(s.last())) as nat
    }
}

/// Ten to the power `n`.
pub open spec fn pow10(n: nat) -> nat
    decreases n,
{
    if n == 0 {
        1
    } else {
        10 * pow10((n - 1) as nat)
    }
}

/// Whether every element of `s` is an ASCII digit.
pub open spec fn all_digits(s: Seq<char>) -> bool {
    forall|i: int| 0 <= i < s.len() ==> is_digit(#[trigger] s[i])
}

/// Whether `e` is an episode number: one or more digits, optionally followed
/// by a dot and one or more digits (the part of a split episode).
pub open spec fn is_episode_number(e: Seq<char>) -> bool {
    let a = digit_run(e, 0) as int;
    let b = digit_run(e, a + 1) as int;
    &&& 1 <= a
    &&& (a == e.len() || (e[a] == '.' && 1 <= b && a + 1 + b == e.len()))
}

/// The digits of an episode number before its dot.
pub open spec fn whole_part(e: Seq<char>) -> Seq<char> {
    e.subrange(0, digit_run(e, 0) as int)
}

/// The digits of an episode number after its dot; empty when it has no dot.
pub open spec fn split_part(e: Seq<char>) -> Seq<char> {
    let a = digit_run(e, 0) as int;
    if a < e.len() {
        e.subrange(a + 1, e.len() as int)
    } else {
        Seq::empty()
    }
}

/// Whether the decimal fraction `0.<fa>` is at most `0.<fb>`.
pub open spec fn fraction_le(fa: Seq<char>, fb: Seq<char>) -> bool {
    digits_value(fa) * pow10(fb.len()) <= digits_value(fb) * pow10(fa.len())
}

/// Whether episode number `a` sorts no later than `b`: by numeric value, the
/// digits before the dot first and then those after it as a decimal
/// fraction, so that `2` < `10` < `10.25` < `10.5` < `11`. Text that is no
/// episode number sorts after every episode number.
pub open spec fn episode_le(a: Seq<char>, b: Seq<char>) -> bool {
    if !is_episode_number(b) {
        true
    } else if !is_episode_number(a) {
        false
    } else {
        let wa = digits_value(whole_part(a));
        let wb = digits_value(whole_part(b));
        wa < wb || (wa == wb && fraction_le(split_part(a), split_part(b)))
    }
}

/// `s` followed by zeros up to length `n`.
pub open spec fn padded(s: Seq<char>, n: nat) -> Seq<char> {
    s + Seq::new((n - s.len()) as nat, |i: int| '0')
}

proof fn lemma_digits_value_bound(s: Seq<char>)
    requires
        forall|i: int| 0 <= i < s.len() ==> is_digit(#[trigger] s[i]),
    ensures
        digits_value(s) < pow10(s.len()),
    decreases s.len(),
{
    if s.len() > 0 {
        let t = s.drop_last();
        assert forall|i: int| 0 <= i < t.len() implies is_digit(#[trigger] t[i]) by {
            assert(t[i] == s[i]);
        }
        lemma_digits_value_bound(t);
        let v = digits_value(t);
        let p = pow10(t.len());
        let d = digit_value(s.last());
        assert(is_digit(s[s.len() - 1]));
        assert(0 <= d <= 9);
        assert(v * 10 + d < p * 10) by (nonlinear_arith)
            requires
                v < p,
                0 <= d <= 9,
        ;
    }
}

proof fn lemma_digit_run_all_digits(s: Seq<char>, i: int)
    requires
        0 <= i,
    ensures
        forall|k: int| i <= k < i + digit_run(s, i) ==> is_digit(#[trigger] s[k]),
        i + digit_run(s, i) <= s.len() || digit_run(s, i) == 0,
    decreases s.len() - i,
{
    if 0 <= i < s.len() && is_digit(s[i]) {
        lemma_digit_run_all_digits(s, i + 1);
    }
}

proof fn lemma_pow10_positive(n: nat)
    ensures
        pow10(n) >= 1,
    decreases n,
{
    if n > 0 {
        lemma_pow10_positive((n - 1) as nat);
    }
}

proof fn lemma_pow10_add(m: nat, n: nat)
    ensures
        pow10(m + n) == pow10(m) * pow10(n),
    decreases n,
{
    if n > 0 {
        let k = (n - 1) as nat;
        lemma_pow10_add(m, k);
        assert((m + n - 1) as nat == m + k);
        assert(pow10(m + n) == 10 * pow10(m + k));
        assert(pow10(n) == 10 * pow10(k));
        let pm = pow10(m);
        let pk = pow10(k);
        assert(10 * (pm * pk) == pm * (10 * pk)) by (nonlinear_arith);
        assert(pow10(m + n) == pm * pow10(n));
    } else {
        assert(pow10(0) == 1);
        assert(m + n == m);
    }
}

proof fn lemma_pow10_monotone(m: nat, n: nat)
    requires
        m <= n,
    ensures
        pow10(m) <= pow10(n),
    decreases n - m,
{
    if m < n {
        lemma_pow10_monotone(m, (n - 1) as nat);
    }
}

proof fn lemma_mul_cancel_le(x: int, y: int, c: int)
    requires
        c > 0,
    ensures
        (x <= y) == (x * c <= y * c),
{
    if x <= y {
        assert(x * c <= y * c) by (nonlinear_arith)
            requires
                x <= y,
                c > 0,
        ;
    } else {
        assert(x * c > y * c) by (nonlinear_arith)
            requires
                x > y,
                c > 0,
        ;
    }
}

proof fn lemma_value_concat(a: Seq<char>, b: Seq<char>)
    requires
        all_digits(a),
        all_digits(b),
    ensures
        digits_value(a + b) == digits_value(a) * pow10(b.len()) + digits_value(b),
    decreases b.len(),
{
    if b.len() == 0 {
        assert(a + b =~= a);
        assert(pow10(0) == 1);
        assert(digits_value(b) == 0);
    } else {
        let b1 = b.drop_last();
        assert forall|i: int| 0 <= i < b1.len() implies is_digit(#[trigger] b1[i]) by {
            assert(b1[i] == b[i]);
        }
        lemma_value_concat(a, b1);
        assert((a + b).drop_last() =~= a + b1);
        assert((a + b).last() == b.last());
        assert(is_digit(b[b.len() - 1]));
        let va = digits_value(a) as int;
        let p = pow10(b1.len()) as int;
        let v1 = digits_value(b1) as int;
        let d = digit_value(b.last());
        assert(d >= 0);
        assert(digits_value(a + b) == digits_value(a + b1) * 10 + d);
        assert(digits_value(b) == v1 * 10 + d);
        assert(pow10(b.len()) == 10 * p);
        assert((va * p + v1) * 10 + d == va * (10 * p) + (v1 * 10 + d)) by (nonlinear_arith);
        assert(digits_value(a + b1) == va * p + v1);
    }
}

proof fn lemma_value_zeros(z: Seq<char>)
    requires
        forall|i: int| 0 <= i < z.len() ==> z[i] == '0',
    ensures
        digits_value(z) == 0,
    decreases z.len(),
{
    if z.len() > 0 {
        let z1 = z.drop_last();
        assert forall|i: int| 0 <= i < z1.len() implies z1[i] == '0' by {
            assert(z1[i] == z[i]);
        }
        lemma_value_zeros(z1);
        assert(z[z.len() - 1] == '0');
    }
}

proof fn lemma_value_lower(s: Seq<char>)
    requires
        all_digits(s),
        s.len() >= 1,
        s[0] != '0',
    ensures
        digits_value(s) >= pow10((s.len() - 1) as nat),
{
    let h = s.subrange(0, 1);
    let t = s.subrange(1, s.len() as int);
    assert(s =~= h + t);
    assert(is_digit(s[0]));
    assert forall|i: int| 0 <= i < t.len() implies is_digit(#[trigger] t[i]) by {
        assert(t[i] == s[i + 1]);
    }
    assert forall|i: int| 0 <= i < h.len() implies is_digit(#[trigger] h[i]) by {}
    lemma_value_concat(h, t);
    assert(h.drop_last() =~= Seq::<char>::empty());
    assert(h.last() == s[0]);
    let d = digit_value(s[0]);
    assert(d >= 1);
    assert(digits_value(h) == digits_value(h.drop_last()) * 10 + d);
    assert(digits_value(h) == d);
    assert(t.len() == s.len() - 1);
    let p = pow10(t.len()) as int;
    assert(d * p >= p) by (nonlinear_arith)
        requires
            d >= 1,
            p >= 0,
    ;
}

proof fn lemma_value_lex(a: Seq<char>, b: Seq<char>, i: int)
    requires
        all_digits(a),
        all_digits(b),
        a.len() == b.len(),
        0 <= i < a.len(),
        forall|k: int| 0 <= k < i ==> a[k] == b[k],
        digit_value(a[i]) < digit_value(b[i]),
    ensures
        digits_value(a) < digits_value(b),
{
    let n = a.len() as int;
    let p = a.subrange(0, i);
    assert(p =~= b.subrange(0, i));
    let ra = a.subrange(i + 1, n);
    let rb = b.subrange(i + 1, n);
    let ha = p.push(a[i]);
    let hb = p.push(b[i]);
    assert(a =~= ha + ra);
    assert(b =~= hb + rb);
    assert forall|k: int| 0 <= k < ra.len() implies is_digit(#[trigger] ra[k]) by {
        assert(ra[k] == a[i + 1 + k]);
    }
    assert forall|k: int| 0 <= k < rb.len() implies is_digit(#[trigger] rb[k]) by {
        assert(rb[k] == b[i + 1 + k]);
    }
    assert forall|k: int| 0 <= k < ha.len() implies is_digit(#[trigger] ha[k]) by {
        assert(ha[k] == a[k]);
    }
    assert forall|k: int| 0 <= k < hb.len() implies is_digit(#[trigger] hb[k]) by {
        assert(hb[k] == b[k]);
    }
    lemma_value_concat(ha, ra);
    lemma_value_concat(hb, rb);
    assert(ha.drop_last() =~= p);
    assert(hb.drop_last() =~= p);
    assert(is_digit(a[i]) && is_digit(b[i]));
    lemma_digits_value_bound(ra);
    let m = pow10(ra.len()) as int;
    let xa = digits_value(ha) as int;
    let xb = digits_value(hb) as int;
    let wa = digits_value(ra) as int;
    let wb = digits_value(rb) as int;
    assert(xa + 1 <= xb);
    assert(xa * m + wa < xb * m + wb) by (nonlinear_arith)
        requires
            xa + 1 <= xb,
            0 <= wa < m,
            0 <= wb,
    ;
}

proof fn lemma_fraction_scaled(fa: Seq<char>, fb: Seq<char>, l: nat)
    requires
        fa.len() <= l,
        fb.len() <= l,
    ensures
        (digits_value(fa) * pow10((l - fa.len()) as nat) <= digits_value(fb) * pow10(
            (l - fb.len()) as nat,
        )) == fraction_le(fa, fb),
{
    let va = digits_value(fa) as int;
    let vb = digits_value(fb) as int;
    let sa = pow10((l - fa.len()) as nat) as int;
    let sb = pow10((l - fb.len()) as nat) as int;
    let pa = pow10(fa.len()) as int;
    let pb = pow10(fb.len()) as int;
    let pl = pow10(l) as int;
    lemma_pow10_add((l - fa.len()) as nat, fa.len());
    lemma_pow10_add((l - fb.len()) as nat, fb.len());
    assert(((l - fa.len()) as nat + fa.len()) as nat == l);
    assert(((l - fb.len()) as nat + fb.len()) as nat == l);
    lemma_pow10_positive(fa.len());
    lemma_pow10_positive(fb.len());
    lemma_pow10_positive(l);
    assert(pa * pb > 0) by (nonlinear_arith)
        requires
            pa >= 1,
            pb >= 1,
    ;
    lemma_mul_cancel_le(va * sa, vb * sb, pa * pb);
    assert((va * sa) * (pa * pb) == (va * pb) * pl) by (nonlinear_arith)
        requires
            pl == sa * pa,
    ;
    assert((vb * sb) * (pa * pb) == (vb * pa) * pl) by (nonlinear_arith)
        requires
            pl == sb * pb,
    ;
    lemma_mul_cancel_le(va * pb, vb * pa, pl);
}

proof fn lemma_fraction_le_transitive(fa: Seq<char>, fb: Seq<char>, fc: Seq<char>)
    requires
        fraction_le(fa, fb),
        fraction_le(fb, fc),
    ensures
        fraction_le(fa, fc),
{
    let x = digits_value(fa) as int;
    let y = digits_value(fb) as int;
    let z = digits_value(fc) as int;
    let p = pow10(fa.len()) as int;
    let q = pow10(fb.len()) as int;
    let r = pow10(fc.len()) as int;
    lemma_pow10_positive(fa.len());
    lemma_pow10_positive(fb.len());
    lemma_pow10_positive(fc.len());
    assert(x * q * r <= y * p * r) by (nonlinear_arith)
        requires
            x * q <= y * p,
            r >= 1,
    ;
    assert(y * r * p <= z * q * p) by (nonlinear_arith)
        requires
            y * r <= z * q,
            p >= 1,
    ;
    assert((x * r) * q <= (z * p) * q) by (nonlinear_arith)
        requires
            x * q * r <= y * p * r,
            y * r * p <= z * q * p,
    ;
    lemma_mul_cancel_le(x * r, z * p, q);
}

/// Any two episode numbers are ordered one way or the other.
pub proof fn lemma_episode_le_total(a: Seq<char>, b: Seq<char>)
    ensures
        episode_le(a, b) || episode_le(b, a),
{
}

/// The order of episode numbers is transitive.
pub proof fn lemma_episode_le_transitive(a: Seq<char>, b: Seq<char>, c: Seq<char>)
    requires
        episode_le(a, b),
        episode_le(b, c),
    ensures
        episode_le(a, c),
{
    if is_episode_number(a) && is_episode_number(b) && is_episode_number(c) {
        let wa = digits_value(whole_part(a));
        let wb = digits_value(whole_part(b));
        let wc = digits_value(whole_part(c));
        if wa == wb && wb == wc {
            lemma_fraction_le_transitive(split_part(a), split_part(b), split_part(c));
        }
    }
}

/// Where the digits before the dot end, when `x` is an episode number.
fn episode_shape(x: &Vec<char>) -> (r: Option<usize>)
    ensures
        r is Some <==> is_episode_number(x@),
        r matches Some(w) ==> w == digit_run(x@, 0),
{
    let n = x.len();
    let a = digit_len(x, 0);
    if a < 1 {
        return None;
    }
    if a == n {
        return Some(a);
    }
    if x[a] != '.' {
        return None;
    }
    let b = digit_len(x, a + 1);
    if b < 1 || a + 1 + b != n {
        return None;
    }
    Some(a)
}

/// The first index in `start..end` that does not hold `0`, or `end`.
fn skip_zeros(x: &Vec<char>, start: usize, end: usize) -> (z: usize)
    requires
        start <= end <= x@.len(),
    ensures
        start <= z <= end,
        forall|k: int| start <= k < z ==> x@[k] == '0',
        z < end ==> x@[z as int] != '0',
{
    let mut z = start;
    while z < end && x[z] == '0'
        invariant
            start <= z <= end <= x@.len(),
            forall|k: int| start <= k < z ==> x@[k] == '0',
        decreases end - z,
    {
        z += 1;
    }
    z
}

/// Compares the digits `x[a0..a1]` and `y[b0..b1]`, each followed by zeros
/// up to `len` digits, by value.
fn compare_padded(
    x: &Vec<char>,
    a0: usize,
    a1: usize,
    y: &Vec<char>,
    b0: usize,
    b1: usize,
    len: usize,
) -> (r: Ordering)
    requires
        a0 <= a1 <= x@.len(),
        b0 <= b1 <= y@.len(),
        a1 - a0 <= len,
        b1 - b0 <= len,
        all_digits(x@.subrange(a0 as int, a1 as int)),
        all_digits(y@.subrange(b0 as int, b1 as int)),
    ensures
        ({
            let va = digits_value(padded(x@.subrange(a0 as int, a1 as int), len as nat));
            let vb = digits_value(padded(y@.subrange(b0 as int, b1 as int), len as nat));
            &&& (r == Ordering::Less) == (va < vb)
            &&& (r == Ordering::Equal) == (va == vb)
            &&& (r == Ordering::Greater) == (va > vb)
        }),
{
    let ghost sa = x@.subrange(a0 as int, a1 as int);
    let ghost sb = y@.subrange(b0 as int, b1 as int);
    let ghost pa = padded(sa, len as nat);
    let ghost pb = padded(sb, len as nat);
    proof {
        assert forall|k: int| 0 <= k < pa.len() implies is_digit(#[trigger] pa[k]) by {
            if k < sa.len() {
                assert(pa[k] == sa[k]);
            }
        }
        assert forall|k: int| 0 <= k < pb.len() implies is_digit(#[trigger] pb[k]) by {
            if k < sb.len() {
                assert(pb[k] == sb[k]);
            }
        }
    }
    let mut i: usize = 0;
    while i < len
        invariant
            i <= len,
            a0 <= a1 <= x@.len(),
            b0 <= b1 <= y@.len(),
            sa == x@.subrange(a0 as int, a1 as int),
            sb == y@.subrange(b0 as int, b1 as int),
            pa == padded(sa, len as nat),
            pb == padded(sb, len as nat),
            pa.len() == len && pb.len() == len,
            all_digits(pa),
            all_digits(pb),
            forall|k: int| 0 <= k < i ==> pa[k] == pb[k],
        decreases len - i,
    {
        let ca = if i < a1 - a0 {
            x[a0 + i]
        } else {
            '0'
        };
        let cb = if i < b1 - b0 {
            y[b0 + i]
        } else {
            '0'
        };
        assert(ca == pa[i as int]);
        assert(cb == pb[i as int]);
        if ca < cb {
            proof {
                lemma_value_lex(pa, pb, i as int);
            }
            return Ordering::Less;
        }
        if cb < ca {
            proof {
                lemma_value_lex(pb, pa, i as int);
            }
            return Ordering::Greater;
        }
        i += 1;
    }
    assert(pa =~= pb);
    Ordering::Equal
}

/// Orders two episode numbers; see `episode_le`.
pub fn compare_episode_numbers(a: &str, b: &str) -> (r: Ordering)
    ensures
        (r == Ordering::Less) == !episode_le(b@, a@),
        (r == Ordering::Equal) == (episode_le(a@, b@) && episode_le(b@, a@)),
        (r == Ordering::Greater) == !episode_le(a@, b@),
{
    let x = chars_of(a);
    let y = chars_of(b);
    let (wa, wb) = match (episode_shape(&x), episode_shape(&y)) {
        (None, None) => return Ordering::Equal,
        (None, Some(_)) => return Ordering::Greater,
        (Some(_), None) => return Ordering::Less,
        (Some(wa), Some(wb)) => (wa, wb),
    };
    let za = skip_zeros(&x, 0, wa);
    let zb = skip_zeros(&y, 0, wb);
    let ghost whole_a = x@.subrange(za as int, wa as int);
    let ghost whole_b = y@.subrange(zb as int, wb as int);
    proof {
        lemma_digit_run_all_digits(x@, 0);
        lemma_digit_run_all_digits(y@, 0);
        lemma_whole_value(x@, za as int, wa as int);
        lemma_whole_value(y@, zb as int, wb as int);
    }
    let la = wa - za;
    let lb = wb - zb;
    if la < lb {
        proof {
            lemma_digits_value_bound(whole_a);
            lemma_pow10_monotone(la as nat, (lb - 1) as nat);
            lemma_value_lower(whole_b);
        }
        return Ordering::Less;
    }
    if lb < la {
        proof {
            lemma_digits_value_bound(whole_b);
            lemma_pow10_monotone(lb as nat, (la - 1) as nat);
            lemma_value_lower(whole_a);
        }
        return Ordering::Greater;
    }
    let c = compare_padded(&x, za, wa, &y, zb, wb, la);
    assert(padded(whole_a, la as nat) =~= whole_a);
    assert(padded(whole_b, lb as nat) =~= whole_b);
    match c {
        Ordering::Less => return Ordering::Less,
        Ordering::Greater => return Ordering::Greater,
        Ordering::Equal => {},
    }
    let n = x.len();
    let m = y.len();
    let (fa0, fa1) = if wa < n {
        (wa + 1, n)
    } else {
        (wa, wa)
    };
    let (fb0, fb1) = if wb < m {
        (wb + 1, m)
    } else {
        (wb, wb)
    };
    let l = if fa1 - fa0 < fb1 - fb0 {
        fb1 - fb0
    } else {
        fa1 - fa0
    };
    proof {
        lemma_split_part(x@, wa as int, fa0 as int, fa1 as int);
        lemma_split_part(y@, wb as int, fb0 as int, fb1 as int);
        lemma_padded_value(split_part(x@), l as nat);
        lemma_padded_value(split_part(y@), l as nat);
        lemma_fraction_scaled(split_part(x@), split_part(y@), l as nat);
        lemma_fraction_scaled(split_part(y@), split_part(x@), l as nat);
    }
    compare_padded(&x, fa0, fa1, &y, fb0, fb1, l)
}

proof fn lemma_whole_value(s: Seq<char>, z: int, w: int)
    requires
        0 <= z <= w <= s.len(),
        w == digit_run(s, 0),
        forall|k: int| 0 <= k < digit_run(s, 0) ==> is_digit(#[trigger] s[k]),
        forall|k: int| 0 <= k < z ==> s[k] == '0',
    ensures
        digits_value(whole_part(s)) == digits_value(s.subrange(z, w)),
        all_digits(s.subrange(z, w)),
{
    let zs = s.subrange(0, z);
    let rest = s.subrange(z, w);
    assert(whole_part(s) =~= zs + rest);
    assert forall|k: int| 0 <= k < zs.len() implies zs[k] == '0' by {
        assert(zs[k] == s[k]);
    }
    assert forall|k: int| 0 <= k < zs.len() implies is_digit(#[trigger] zs[k]) by {
        assert(zs[k] == s[k]);
    }
    assert forall|k: int| 0 <= k < rest.len() implies is_digit(#[trigger] rest[k]) by {
        assert(rest[k] == s[z + k]);
    }
    lemma_value_zeros(zs);
    lemma_value_concat(zs, rest);
}

proof fn lemma_split_part(s: Seq<char>, w: int, f0: int, f1: int)
    requires
        is_episode_number(s),
        w == digit_run(s, 0),
        (w < s.len() && f0 == w + 1 && f1 == s.len()) || (w == s.len() && f0 == w && f1 == w),
    ensures
        split_part(s) == s.subrange(f0, f1),
        all_digits(split_part(s)),
{
    if w < s.len() {
        lemma_digit_run_all_digits(s, w + 1);
        assert forall|k: int| 0 <= k < split_part(s).len() implies is_digit(
            #[trigger] split_part(s)[k],
        ) by {
            assert(split_part(s)[k] == s[w + 1 + k]);
        }
    } else {
        assert(s.subrange(f0, f1) =~= Seq::<char>::empty());
    }
}

proof fn lemma_padded_value(s: Seq<char>, n: nat)
    requires
        all_digits(s),
        s.len() <= n,
    ensures
        digits_value(padded(s, n)) == digits_value(s) * pow10((n - s.len()) as nat),
{
    let z = Seq::new((n - s.len()) as nat, |i: int| '0');
    assert forall|k: int| 0 <= k < z.len() implies is_digit(#[trigger] z[k]) by {}
    lemma_value_zeros(z);
    lemma_value_concat(s, z);
}

/// Orders two episodes by the numeric value of their episode numbers.
pub fn compare_episodes(a: &Episode, b: &Episode) -> (r: Ordering)
    ensures
        (r == Ordering::Less) == !episode_le(b.episode@, a.episode@),
        (r == Ordering::Equal) == (episode_le(a.episode@, b.episode@) && episode_le(
            b.episode@,
            a.episode@,
        )),
        (r == Ordering::Greater) == !episode_le(a.episode@, b.episode@),
{
    compare_episode_numbers(a.episode.as_str(), b.episode.as_str())
}

/// Whether `s` is in ascending order of episode number.
pub open spec fn sorted_by_episode(s: Seq<Episode>) -> bool {
    forall|i: int, j: int|
        0 <= i < j < s.len() ==> episode_le(#[trigger] s[i].episode@, #[trigger] s[j].episode@)
}

/// Sorts episodes by the numeric value of their episode numbers.
pub fn sort_episodes(episodes: Vec<Episode>) -> (r: Vec<Episode>)
    ensures
        sorted_by_episode(r@),
        r@.to_multiset() == episodes@.to_multiset(),
{
    broadcast use vstd::multiset::group_multiset_axioms, vstd::seq_lib::group_to_multiset_ensures;

    let mut rest = episodes;
    let mut sorted: Vec<Episode> = Vec::new();
    while rest.len() > 0
        invariant
            sorted_by_episode(sorted@),
            sorted@.to_multiset().add(rest@.to_multiset()) == episodes@.to_multiset(),
        decreases rest@.len(),
    {
        assert(sorted@.to_multiset().add(rest@.to_multiset()) == episodes@.to_multiset());
        let ghost rest0 = rest@;
        let e = rest.remove(0);
        proof {
            vstd::seq_lib::to_multiset_remove(rest0, 0);
            assert(rest0[0] == e);
            assert(rest0.contains(e));
            rest0.to_multiset_ensures();
            assert(rest0.to_multiset().count(e) > 0);
            assert(rest0.to_multiset().remove(e).insert(e) =~= rest0.to_multiset());
        }
        let mut pos: usize = 0;
        let mut found = false;
        while pos < sorted.len() && !found
            invariant
                pos <= sorted@.len(),
                forall|i: int| 0 <= i < pos ==> episode_le(#[trigger] sorted@[i].episode@, e.episode@),
                found ==> pos < sorted@.len() && !episode_le(sorted@[pos as int].episode@, e.episode@),
            decreases sorted@.len() - pos + if found {
                0int
            } else {
                1int
            },
        {
            match compare_episodes(&sorted[pos], &e) {
                Ordering::Greater => {
                    found = true;
                },
                _ => {
                    pos += 1;
                },
            }
        }
        let ghost before = sorted@;
        sorted.insert(pos, e);
        proof {
            vstd::seq_lib::to_multiset_insert(before, pos as int, e);
            assert forall|i: int, j: int| 0 <= i < j < sorted@.len() implies episode_le(
                #[trigger] sorted@[i].episode@,
                #[trigger] sorted@[j].episode@,
            ) by {
                if j == pos {
                    assert(sorted@[i] == before[i]);
                } else if i == pos {
                    assert(sorted@[j] == before[j - 1]);
                    lemma_episode_le_total(before[pos as int].episode@, e.episode@);
                    if j - 1 > pos {
                        lemma_episode_le_transitive(
                            e.episode@,
                            before[pos as int].episode@,
                            before[j - 1].episode@,
                        );
                    }
                } else {
                    let i0 = if i < pos {
                        i
                    } else {
                        i - 1
                    };
                    let j0 = if j < pos {
                        j
                    } else {
                        j - 1
                    };
                    assert(sorted@[i] == before[i0]);
                    assert(sorted@[j] == before[j0]);
                }
            }
            assert(sorted@.to_multiset().add(rest@.to_multiset()) =~= episodes@.to_multiset());
        }
    }
    sorted
}

} // verus!
