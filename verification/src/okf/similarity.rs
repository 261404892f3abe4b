//! Similarity of knowledge entries, for duplicate detection before a write
//! and for grouping suspected duplicates.
//!
//! Signals are the file name and the frontmatter description only. Features
//! are ASCII words (two characters or more) and the character bigrams of CJK
//! runs; two feature sets score their Dice coefficient `2|A∩B| / (|A|+|B|)`,
//! kept as an exact fraction.

use vstd::prelude::*;

use crate::text::{chars_of, lowercase_chars, same_chars, string_from, unicode_lower, views};

verus! {

// ---------------------------------------------------------------------------
// feature sets
// ---------------------------------------------------------------------------

/// CJK unified ideographs (extension A, the basic block, compatibility).
pub open spec fn is_cjk_char(c: char) -> bool {
    let u = c as u32;
    (0x3400 <= u && u <= 0x4DBF) || (0x4E00 <= u && u <= 0x9FFF) || (0xF900 <= u && u <= 0xFAFF)
}

/// `char::is_ascii_alphanumeric`.
pub open spec fn is_ascii_alnum(c: char) -> bool {
    ('0' <= c && c <= '9') || ('a' <= c && c <= 'z') || ('A' <= c && c <= 'Z')
}

pub fn is_cjk(c: char) -> (b: bool)
    ensures
        b == is_cjk_char(c),
{
    let u = c as u32;
    (0x3400 <= u && u <= 0x4DBF) || (0x4E00 <= u && u <= 0x9FFF) || (0xF900 <= u && u <= 0xFAFF)
}

fn is_alnum(c: char) -> (b: bool)
    ensures
        b == is_ascii_alnum(c),
{
    ('0' <= c && c <= '9') || ('a' <= c && c <= 'z') || ('A' <= c && c <= 'Z')
}

/// The feature a finished ASCII word gives: itself, when two characters or
/// longer.
pub open spec fn word_set(w: Seq<char>) -> Set<Seq<char>> {
    if w.len() >= 2 {
        set![w]
    } else {
        Set::empty()
    }
}

/// The bigrams of a finished CJK run (a single character gives none).
pub open spec fn bigram_set(c: Seq<char>) -> Set<Seq<char>> {
    Set::new(|b: Seq<char>| exists|i: int| 0 <= i && i + 1 < c.len() && b == #[trigger] c.subrange(i, i + 2))
}

/// State of the feature scan: the pending word, the pending CJK run, and the
/// features so far.
pub struct FeatScan {
    pub word: Seq<char>,
    pub cjk: Seq<char>,
    pub set: Set<Seq<char>>,
}

pub open spec fn feat_step(st: FeatScan, ch: char) -> FeatScan {
    if is_ascii_alnum(ch) {
        FeatScan { word: st.word.push(ch), cjk: Seq::empty(), set: st.set + bigram_set(st.cjk) }
    } else if is_cjk_char(ch) {
        FeatScan { word: Seq::empty(), cjk: st.cjk.push(ch), set: st.set + word_set(st.word) }
    } else {
        FeatScan {
            word: Seq::empty(),
            cjk: Seq::empty(),
            set: st.set + word_set(st.word) + bigram_set(st.cjk),
        }
    }
}

pub open spec fn feat_scan(s: Seq<char>) -> FeatScan
    decreases s.len(),
{
    if s.len() == 0 {
        FeatScan { word: Seq::empty(), cjk: Seq::empty(), set: Set::empty() }
    } else {
        feat_step(feat_scan(s.drop_last()), s.last())
    }
}

/// The features of a text: its lowercased ASCII words and CJK bigrams.
pub open spec fn feature_set(s: Seq<char>) -> Set<Seq<char>> {
    let st = feat_scan(unicode_lower(s));
    st.set + word_set(st.word) + bigram_set(st.cjk)
}

/// A finite set of short texts, held without repeats.
pub struct FeatureSet {
    items: Vec<Vec<char>>,
}

impl View for FeatureSet {
    type V = Set<Seq<char>>;

    closed spec fn view(&self) -> Set<Seq<char>> {
        views(self.items@).to_set()
    }
}

impl FeatureSet {
    /// No member is held twice.
    #[verifier::type_invariant]
    spec fn wf(&self) -> bool {
        views(self.items@).no_duplicates()
    }

    pub closed spec fn items_view(&self) -> Seq<Seq<char>> {
        views(self.items@)
    }

    proof fn lemma_wf_len(&self)
        requires
            self.wf(),
        ensures
            self@.finite(),
            self@.len() == self.items_view().len(),
            self.items_view().to_set() == self@,
            self.items_view().no_duplicates(),
    {
        views(self.items@).unique_seq_to_set();
        vstd::seq_lib::seq_to_set_is_finite(views(self.items@));
    }

    /// The empty set.
    pub fn new() -> (r: Self)
        ensures
            r@ == Set::<Seq<char>>::empty(),
    {
        let r = FeatureSet { items: Vec::new() };
        assert(views(r.items@) =~= Seq::<Seq<char>>::empty());
        assert(r@ =~= Set::<Seq<char>>::empty());
        r
    }

    /// Number of members.
    pub fn len(&self) -> (n: usize)
        ensures
            n == self@.len(),
    {
        proof {
            use_type_invariant(self);
            self.lemma_wf_len();
        }
        self.items.len()
    }

    /// Whether there are no members.
    pub fn is_empty(&self) -> (b: bool)
        ensures
            b == (self@.len() == 0),
    {
        proof {
            use_type_invariant(self);
            self.lemma_wf_len();
        }
        self.items.len() == 0
    }

    fn contains_chars(&self, x: &[char]) -> (b: bool)
        ensures
            b == self@.contains(x@),
    {
        let mut k: usize = 0;
        while k < self.items.len()
            invariant
                k <= self.items.len(),
                forall|m: int| 0 <= m < k ==> self.items@[m]@ != x@,
            decreases self.items.len() - k,
        {
            if same_chars(self.items[k].as_slice(), x) {
                proof {
                    assert(views(self.items@)[k as int] == x@);
                }
                return true;
            }
            k = k + 1;
        }
        proof {
            if views(self.items@).to_set().contains(x@) {
                let m = choose|m: int| 0 <= m < views(self.items@).len() && views(self.items@)[m] == x@;
                assert(self.items@[m]@ == x@);
            }
        }
        false
    }

    /// Whether `s` is a member.
    pub fn contains(&self, s: &str) -> (b: bool)
        ensures
            b == self@.contains(s@),
    {
        let v = chars_of(s);
        self.contains_chars(v.as_slice())
    }

    /// Adds `x`.
    pub fn insert(&mut self, x: Vec<char>)
        ensures
            final(self)@ == old(self)@.insert(x@),
    {
        proof {
            use_type_invariant(&*self);
        }
        if !self.contains_chars(x.as_slice()) {
            let ghost before = views(self.items@);
            let mut items: Vec<Vec<char>> = Vec::new();
            std::mem::swap(&mut items, &mut self.items);
            assert(views(items@) == before);
            items.push(x);
            proof {
                assert(views(items@) =~= before.push(x@));
                before.lemma_push_to_set_commute(x@);
                assert(!before.contains(x@));
                assert forall|i: int, j: int|
                    0 <= i < j < views(items@).len() implies views(items@)[i] != views(items@)[j] by {
                    if j == before.len() {
                        assert(before[i] == views(items@)[i]);
                    }
                }
            }
            self.items = items;
        } else {
            assert(self@.insert(x@) =~= self@);
        }
    }

    /// The members, as strings.
    pub fn to_vec(&self) -> (r: Vec<String>)
        ensures
            r@.len() == self.items_view().len(),
            forall|i: int| 0 <= i < r@.len() ==> #[trigger] r@[i]@ == self.items_view()[i],
    {
        let mut r: Vec<String> = Vec::new();
        let mut k: usize = 0;
        while k < self.items.len()
            invariant
                k <= self.items.len(),
                r@.len() == k,
                forall|i: int| 0 <= i < k ==> #[trigger] r@[i]@ == self.items@[i]@,
            decreases self.items.len() - k,
        {
            r.push(string_from(self.items[k].as_slice()));
            k = k + 1;
        }
        r
    }
}

/// Adds the feature of a finished word, and clears the word.
fn push_word(word: &mut Vec<char>, set: &mut FeatureSet)
    ensures
        final(set)@ == old(set)@ + word_set(old(word)@),
        final(word)@ == Seq::<char>::empty(),
{
    if word.len() >= 2 {
        let w = word.clone();
        assert(w@ == word@);
        set.insert(w);
        assert(set@ =~= old(set)@ + word_set(old(word)@));
    } else {
        assert(old(set)@ + word_set(old(word)@) =~= old(set)@);
    }
    *word = Vec::new();
}

/// Adds the bigrams of a finished CJK run, and clears the run.
fn push_cjk(cjk: &mut Vec<char>, set: &mut FeatureSet)
    ensures
        final(set)@ == old(set)@ + bigram_set(old(cjk)@),
        final(cjk)@ == Seq::<char>::empty(),
{
    let ghost c = cjk@;
    let mut i: usize = 0;
    while i < cjk.len() && i + 1 < cjk.len()
        invariant
            cjk@ == c,
            i <= cjk.len(),
            set@ == old(set)@ + Set::new(
                |b: Seq<char>| exists|j: int| 0 <= j < i && j + 1 < c.len() && b == #[trigger] c.subrange(j, j + 2),
            ),
        decreases cjk.len() - i,
    {
        let mut b: Vec<char> = Vec::new();
        b.push(cjk[i]);
        b.push(cjk[i + 1]);
        let ghost before = set@;
        set.insert(b);
        proof {
            assert(b@ =~= c.subrange(i as int, i + 2));
            assert(set@ =~= old(set)@ + Set::new(
                |x: Seq<char>| exists|j: int| 0 <= j < i + 1 && j + 1 < c.len() && x == #[trigger] c.subrange(j, j + 2),
            )) by {
                assert forall|x: Seq<char>| set@.contains(x) <==> (old(set)@ + Set::new(
                    |y: Seq<char>| exists|j: int| 0 <= j < i + 1 && j + 1 < c.len() && y == #[trigger] c.subrange(j, j + 2),
                )).contains(x) by {
                    if x == c.subrange(i as int, i + 2) {
                    }
                }
            }
        }
        i = i + 1;
    }
    proof {
        assert(set@ =~= old(set)@ + bigram_set(c)) by {
            assert forall|x: Seq<char>| set@.contains(x) <==> (old(set)@ + bigram_set(c)).contains(x) by {
                if bigram_set(c).contains(x) {
                    let j = choose|j: int| 0 <= j && j + 1 < c.len() && x == #[trigger] c.subrange(j, j + 2);
                    assert(j < i);
                }
            }
        }
    }
    *cjk = Vec::new();
}

/// Features of `s` (see [`feature_set`]).
pub fn features(s: &str) -> (r: FeatureSet)
    ensures
        r@ == feature_set(s@),
{
    let sv = chars_of(s);
    let low = lowercase_chars(sv.as_slice());
    let mut set = FeatureSet::new();
    let mut word: Vec<char> = Vec::new();
    let mut cjk: Vec<char> = Vec::new();
    let mut k: usize = 0;
    while k < low.len()
        invariant
            k <= low.len(),
            low@ == unicode_lower(s@),
            feat_scan(low@.take(k as int)) == (FeatScan { word: word@, cjk: cjk@, set: set@ }),
        decreases low.len() - k,
    {
        let ch = low[k];
        proof {
            assert(low@.take(k + 1).drop_last() =~= low@.take(k as int));
            assert(low@.take(k + 1).last() == ch);
        }
        if is_alnum(ch) {
            push_cjk(&mut cjk, &mut set);
            word.push(ch);
        } else if is_cjk(ch) {
            push_word(&mut word, &mut set);
            cjk.push(ch);
        } else {
            push_word(&mut word, &mut set);
            push_cjk(&mut cjk, &mut set);
        }
        k = k + 1;
    }
    proof {
        assert(low@.take(low@.len() as int) =~= low@);
    }
    push_word(&mut word, &mut set);
    push_cjk(&mut cjk, &mut set);
    set
}


// ---------------------------------------------------------------------------
// scores
// ---------------------------------------------------------------------------

/// An exact non-negative fraction `num / den` (`den > 0`).
#[derive(Debug, Clone, Copy, PartialEq, Eq)]
pub struct Score {
    pub num: u128,
    pub den: u128,
}

/// `a >= b` as numbers.
pub open spec fn score_ge(a: Score, b: Score) -> bool {
    a.num * b.den >= b.num * a.den
}

/// `a >= n / d` as numbers.
pub open spec fn at_least(a: Score, n: int, d: int) -> bool {
    a.num * d >= n * a.den
}

/// The Dice coefficient of two feature sets; empty sets score zero.
pub open spec fn dice_spec(a: Set<Seq<char>>, b: Set<Seq<char>>) -> Score {
    if a.len() == 0 || b.len() == 0 {
        Score { num: 0, den: 1 }
    } else {
        Score { num: (2 * a.intersect(b).len()) as u128, den: (a.len() + b.len()) as u128 }
    }
}

/// Name threshold of a write-time duplicate warning: 1/2.
pub open spec fn name_threshold(s: Score) -> bool {
    at_least(s, 1, 2)
}

/// Description threshold of a write-time duplicate warning: 19/50 (0.38).
pub open spec fn desc_threshold(s: Score) -> bool {
    at_least(s, 19, 50)
}

/// Threshold of the duplicate grouping: 2/5 (0.4).
pub open spec fn group_threshold(s: Score) -> bool {
    at_least(s, 2, 5)
}

/// The larger of two scores (the first on a tie).
pub open spec fn score_max(a: Score, b: Score) -> Score {
    if score_ge(a, b) { a } else { b }
}

proof fn lemma_take_step(s: Seq<Seq<char>>, k: int, b: Set<Seq<char>>)
    requires
        s.no_duplicates(),
        0 <= k < s.len(),
    ensures
        s.take(k).to_set().intersect(b).finite(),
        !s.take(k).to_set().intersect(b).contains(s[k]),
        s.take(k + 1).to_set().intersect(b) == (if b.contains(s[k]) {
            s.take(k).to_set().intersect(b).insert(s[k])
        } else {
            s.take(k).to_set().intersect(b)
        }),
{
    vstd::seq_lib::seq_to_set_is_finite(s.take(k));
    vstd::set::axiom_set_intersect_finite(s.take(k).to_set(), b);
    assert(s.take(k + 1) =~= s.take(k).push(s[k]));
    s.take(k).lemma_push_to_set_commute(s[k]);
    if s.take(k).to_set().contains(s[k]) {
        let j = choose|j: int| 0 <= j < s.take(k).len() && s.take(k)[j] == s[k];
        assert(s[j] == s[k]);
    }
    assert(s.take(k + 1).to_set().intersect(b) =~= (if b.contains(s[k]) {
        s.take(k).to_set().intersect(b).insert(s[k])
    } else {
        s.take(k).to_set().intersect(b)
    }));
}

/// Number of common members.
fn common_count(a: &FeatureSet, b: &FeatureSet) -> (n: usize)
    ensures
        n == a@.intersect(b@).len(),
{
    proof {
        use_type_invariant(a);
        a.lemma_wf_len();
    }
    let v = a.to_vec();
    let ghost s = a.items_view();
    let mut n: usize = 0;
    let mut k: usize = 0;
    proof {
        assert(s.take(0).to_set().intersect(b@) =~= Set::<Seq<char>>::empty());
    }
    while k < v.len()
        invariant
            k <= v.len(),
            v@.len() == s.len(),
            forall|i: int| 0 <= i < v@.len() ==> #[trigger] v@[i]@ == s[i],
            s.no_duplicates(),
            n == s.take(k as int).to_set().intersect(b@).len(),
            n <= k,
        decreases v.len() - k,
    {
        proof {
            lemma_take_step(s, k as int, b@);
        }
        if b.contains(v[k].as_str()) {
            n = n + 1;
        }
        k = k + 1;
    }
    proof {
        assert(s.take(s.len() as int) =~= s);
    }
    n
}

/// The Dice coefficient `2|A∩B| / (|A|+|B|)`; zero when either set is empty.
pub fn dice(a: &FeatureSet, b: &FeatureSet) -> (r: Score)
    ensures
        r == dice_spec(a@, b@),
        r.den > 0,
{
    if a.is_empty() || b.is_empty() {
        return Score { num: 0, den: 1 };
    }
    let inter = common_count(a, b);
    Score { num: 2 * (inter as u128), den: (a.len() as u128) + (b.len() as u128) }
}

/// `x * y` as a 256-bit number `(high, low)`.
fn mul_wide(x: u128, y: u128) -> (r: (u128, u128))
    ensures
        r.0 * 0x1_0000_0000_0000_0000_0000_0000_0000_0000int + r.1 == x * y,
{
    let b: u128 = 0x1_0000_0000_0000_0000;
    let x0 = x % b;
    let x1 = x / b;
    let y0 = y % b;
    let y1 = y / b;
    proof {
        assert(x1 < b && y1 < b) by (nonlinear_arith)
            requires x1 == x / b, y1 == y / b, b == 0x1_0000_0000_0000_0000, x < b * b, y < b * b;
        assert(x0 < b && y0 < b);
    }
    proof {
        assert(x0 * y0 < b * b) by (nonlinear_arith) requires x0 < b, y0 < b;
        assert(x0 * y1 < b * b) by (nonlinear_arith) requires x0 < b, y1 < b;
        assert(x1 * y0 < b * b) by (nonlinear_arith) requires x1 < b, y0 < b;
        assert(x1 * y1 < b * b) by (nonlinear_arith) requires x1 < b, y1 < b;
    }
    let p00 = x0 * y0;
    let p01 = x0 * y1;
    let p10 = x1 * y0;
    let p11 = x1 * y1;
    let mid = p00 / b + p01 % b + p10 % b;
    let lo = p00 % b + (mid % b) * b;
    proof {
        assert(p00 / b < b) by (nonlinear_arith) requires p00 < b * b, b > 0;
        assert(p01 / b < b) by (nonlinear_arith) requires p01 < b * b, b > 0;
        assert(p10 / b < b) by (nonlinear_arith) requires p10 < b * b, b > 0;
        assert(mid / b < 3);
        assert(p11 <= (b - 1) * (b - 1)) by (nonlinear_arith) requires p11 == x1 * y1, x1 < b, y1 < b;
    }
    let ghost hi_i: int = p11 + p01 / b + p10 / b + mid / b;
    proof {
        let bb: int = b as int;
        assert(x == x1 * bb + x0);
        assert(y == y1 * bb + y0);
        assert(x * y == p11 * (bb * bb) + (p01 + p10) * bb + p00) by (nonlinear_arith)
            requires x == x1 * bb + x0, y == y1 * bb + y0, p00 == x0 * y0, p01 == x0 * y1,
                p10 == x1 * y0, p11 == x1 * y1;
        assert(p00 == (p00 / b) * bb + p00 % b);
        assert(p01 == (p01 / b) * bb + p01 % b);
        assert(p10 == (p10 / b) * bb + p10 % b);
        assert(mid == (mid / b) * bb + mid % b);
        assert(bb * bb == 0x1_0000_0000_0000_0000_0000_0000_0000_0000int);
        let w: int = bb * bb;
        let a0: int = (p00 / b) as int;
        let r0: int = (p00 % b) as int;
        let a1: int = (p01 / b) as int;
        let r1: int = (p01 % b) as int;
        let a2: int = (p10 / b) as int;
        let r2: int = (p10 % b) as int;
        let m1: int = (mid / b) as int;
        let mr: int = (mid % b) as int;
        assert((a1 * bb + r1) * bb == a1 * w + r1 * bb) by (nonlinear_arith) requires w == bb * bb;
        assert((a2 * bb + r2) * bb == a2 * w + r2 * bb) by (nonlinear_arith) requires w == bb * bb;
        assert((m1 * bb + mr) * bb == m1 * w + mr * bb) by (nonlinear_arith) requires w == bb * bb;
        assert((p01 + p10) * bb == p01 * bb + p10 * bb) by (nonlinear_arith);
        assert(p01 * bb == (a1 * bb + r1) * bb);
        assert(p10 * bb == (a2 * bb + r2) * bb);
        assert((a0 + r1 + r2) * bb == a0 * bb + r1 * bb + r2 * bb) by (nonlinear_arith);
        assert(mid * bb == (m1 * bb + mr) * bb);
        assert(hi_i * w == p11 * w + a1 * w + a2 * w + m1 * w) by (nonlinear_arith)
            requires hi_i == p11 + a1 + a2 + m1;
        assert(mr * bb == (mid % b) * bb);
        assert(hi_i * (bb * bb) + lo == x * y);
        assert(x * y < (bb * bb) * (bb * bb)) by (nonlinear_arith)
            requires x < bb * bb, y < bb * bb, x >= 0, y >= 0;
        assert(hi_i < bb * bb) by (nonlinear_arith)
            requires hi_i * (bb * bb) + lo == x * y, x * y < (bb * bb) * (bb * bb), lo >= 0, bb > 0;
    }
    let t1 = p11 + p01 / b;
    let t2 = t1 + p10 / b;
    let hi = t2 + mid / b;
    (hi, lo)
}

/// `a >= b` as numbers.
pub fn score_at_least(a: Score, b: Score) -> (r: bool)
    ensures
        r == score_ge(a, b),
{
    let (h1, l1) = mul_wide(a.num, b.den);
    let (h2, l2) = mul_wide(b.num, a.den);
    proof {
        let w: int = 0x1_0000_0000_0000_0000_0000_0000_0000_0000int;
        assert((h1 > h2 || (h1 == h2 && l1 >= l2)) == (h1 * w + l1 >= h2 * w + l2)) by (nonlinear_arith)
            requires w == 0x1_0000_0000_0000_0000_0000_0000_0000_0000int, l1 < w, l2 < w, h1 >= 0, h2 >= 0;
    }
    h1 > h2 || (h1 == h2 && l1 >= l2)
}


/// `s >= n / d` for a small threshold fraction.
fn score_reaches(s: Score, n: u128, d: u128) -> (r: bool)
    requires
        n <= 100,
        d <= 100,
    ensures
        r == at_least(s, n as int, d as int),
{
    let (h1, l1) = mul_wide(s.num, d);
    let (h2, l2) = mul_wide(n, s.den);
    proof {
        let w: int = 0x1_0000_0000_0000_0000_0000_0000_0000_0000int;
        assert((h1 > h2 || (h1 == h2 && l1 >= l2)) == (h1 * w + l1 >= h2 * w + l2)) by (nonlinear_arith)
            requires w == 0x1_0000_0000_0000_0000_0000_0000_0000_0000int, l1 < w, l2 < w, h1 >= 0, h2 >= 0;
    }
    h1 > h2 || (h1 == h2 && l1 >= l2)
}

/// `(name score, description score)` of two entries.
pub open spec fn pair_spec(name_a: Seq<char>, desc_a: Seq<char>, name_b: Seq<char>, desc_b: Seq<char>) -> (Score, Score) {
    (dice_spec(feature_set(name_a), feature_set(name_b)), dice_spec(feature_set(desc_a), feature_set(desc_b)))
}

/// The name and description Dice scores of two entries.
pub fn pair_scores(name_a: &str, desc_a: &str, name_b: &str, desc_b: &str) -> (r: (Score, Score))
    ensures
        r == pair_spec(name_a@, desc_a@, name_b@, desc_b@),
        r.0.den > 0,
        r.1.den > 0,
{
    let fa = features(name_a);
    let fb = features(name_b);
    let ga = features(desc_a);
    let gb = features(desc_b);
    (dice(&fa, &fb), dice(&ga, &gb))
}

/// Overall similarity of two entries: the larger of the name and the
/// description score.
pub open spec fn similarity_spec(name_a: Seq<char>, desc_a: Seq<char>, name_b: Seq<char>, desc_b: Seq<char>) -> Score {
    let p = pair_spec(name_a, desc_a, name_b, desc_b);
    score_max(p.0, p.1)
}

/// The larger of the name and the description score of two entries.
pub fn similarity_score(name_a: &str, desc_a: &str, name_b: &str, desc_b: &str) -> (r: Score)
    ensures
        r == similarity_spec(name_a@, desc_a@, name_b@, desc_b@),
{
    let (n, d) = pair_scores(name_a, desc_a, name_b, desc_b);
    if score_at_least(n, d) {
        n
    } else {
        d
    }
}


// ---------------------------------------------------------------------------
// entries of a directory
// ---------------------------------------------------------------------------

/// `(name, description)` views of entries.
pub open spec fn entry_views(v: Seq<(String, String)>) -> Seq<(Seq<char>, Seq<char>)> {
    Seq::new(v.len(), |i: int| (v[i].0@, v[i].1@))
}

/// How many entries carry description `d`.
pub open spec fn desc_count(items: Seq<(Seq<char>, Seq<char>)>, d: Seq<char>) -> nat
    decreases items.len(),
{
    if items.len() == 0 {
        0
    } else {
        desc_count(items.drop_last(), d) + (if items.last().1 == d { 1nat } else { 0nat })
    }
}

/// A description without distinguishing power: the placeholder an old
/// initialisation wrote, or one shared by three entries or more.
pub open spec fn is_boilerplate(items: Seq<(Seq<char>, Seq<char>)>, d: Seq<char>) -> bool {
    unicode_lower(crate::text::trim(d)) == "自动初始化的 okf 文档"@ || (d.len() > 0 && desc_count(items, d) >= 3)
}

/// Entries with boilerplate descriptions blanked.
pub open spec fn neutralized(items: Seq<(Seq<char>, Seq<char>)>) -> Seq<(Seq<char>, Seq<char>)> {
    Seq::new(items.len(), |i: int| (items[i].0, if is_boilerplate(items, items[i].1) { Seq::empty() } else { items[i].1 }))
}

fn count_desc(items: &[(String, String)], d: &String) -> (n: usize)
    ensures
        n == desc_count(entry_views(items@), d@),
{
    let mut n: usize = 0;
    let mut k: usize = 0;
    proof {
        assert(entry_views(items@).take(0) =~= Seq::<(Seq<char>, Seq<char>)>::empty());
    }
    while k < items.len()
        invariant
            k <= items.len(),
            n <= k,
            n == desc_count(entry_views(items@).take(k as int), d@),
        decreases items.len() - k,
    {
        proof {
            assert(entry_views(items@).take(k + 1).drop_last() =~= entry_views(items@).take(k as int));
        }
        if items[k].1 == *d {
            n = n + 1;
        }
        k = k + 1;
    }
    proof {
        assert(entry_views(items@).take(items@.len() as int) =~= entry_views(items@));
    }
    n
}

/// Blanks the descriptions that cannot tell entries apart (see
/// [`is_boilerplate`]); names and order are kept.
pub fn neutralize_descriptions(items: &[(String, String)]) -> (r: Vec<(String, String)>)
    ensures
        entry_views(r@) == neutralized(entry_views(items@)),
{
    let mut r: Vec<(String, String)> = Vec::new();
    let mut k: usize = 0;
    while k < items.len()
        invariant
            k <= items.len(),
            r@.len() == k,
            forall|i: int| 0 <= i < k ==> #[trigger] entry_views(r@)[i] == neutralized(entry_views(items@))[i],
        decreases items.len() - k,
    {
        let (n, d) = &items[k];
        let dv = chars_of(d.as_str());
        let (a, b) = crate::text::trim_bounds(&dv, 0, dv.len());
        let tv = crate::text::string_of_range(&dv, a, b);
        let low = crate::text::to_lowercase(tv.as_str());
        proof {
            assert(dv@.subrange(0, dv@.len() as int) =~= dv@);
        }
        let placeholder = low == "自动初始化的 okf 文档".to_owned();
        let boiler = placeholder || (dv.len() > 0 && count_desc(items, d) >= 3);
        let nd = if boiler { String::new() } else { d.clone() };
        proof {
            assert(entry_views(items@)[k as int] == (n@, d@));
        }
        let ghost old_r = r@;
        r.push((n.clone(), nd));
        proof {
            assert forall|i: int| 0 <= i < k implies #[trigger] entry_views(r@)[i] == entry_views(old_r)[i] by {
                assert(r@[i] == old_r[i]);
            }
            assert(entry_views(r@)[k as int] == neutralized(entry_views(items@))[k as int]);
        }
        k = k + 1;
    }
    proof {
        assert(entry_views(r@) =~= neutralized(entry_views(items@)));
    }
    r
}


// ---------------------------------------------------------------------------
// write-time duplicate candidates
// ---------------------------------------------------------------------------

/// An existing entry suspected to duplicate a new one.
#[derive(Debug, Clone)]
pub struct SimilarCandidate {
    pub name: String,
    pub description: String,
    pub score: Score,
}

pub open spec fn cand_view(c: SimilarCandidate) -> (Seq<char>, Seq<char>, Score) {
    (c.name@, c.description@, c.score)
}

pub open spec fn cand_views(v: Seq<SimilarCandidate>) -> Seq<(Seq<char>, Seq<char>, Score)> {
    Seq::new(v.len(), |i: int| cand_view(v[i]))
}

/// The entries, in order, that a new entry `(name, desc)` may duplicate:
/// not the entry of the same name (ASCII case ignored, the new name
/// trimmed), and with a name score of at least 1/2 or a description score
/// of at least 19/50; each with the larger of its two scores.
pub open spec fn candidates_spec(items: Seq<(Seq<char>, Seq<char>)>, name: Seq<char>, desc: Seq<char>) -> Seq<(Seq<char>, Seq<char>, Score)>
    decreases items.len(),
{
    if items.len() == 0 {
        Seq::empty()
    } else {
        let prev = candidates_spec(items.drop_last(), name, desc);
        let e = items.last();
        let p = pair_spec(name, desc, e.0, e.1);
        if crate::text::eq_ignore_ascii_case(e.0, crate::text::trim(name)) {
            prev
        } else if name_threshold(p.0) || desc_threshold(p.1) {
            prev.push((e.0, e.1, score_max(p.0, p.1)))
        } else {
            prev
        }
    }
}

/// `p` lists each of `0..n` once.
pub open spec fn is_permutation(p: Seq<int>, n: int) -> bool {
    &&& p.len() == n
    &&& forall|i: int| 0 <= i < n ==> 0 <= #[trigger] p[i] < n
    &&& forall|i: int, j: int| 0 <= i < j < n ==> p[i] != p[j]
}

/// `out` is `inp` stably sorted by descending score: a permutation of it in
/// which scores never rise, and equal scores keep their input order.
pub open spec fn stably_sorted_desc(out: Seq<(Seq<char>, Seq<char>, Score)>, inp: Seq<(Seq<char>, Seq<char>, Score)>) -> bool {
    exists|p: Seq<int>| {
        &&& is_permutation(p, inp.len() as int)
        &&& out.len() == inp.len()
        &&& forall|i: int| 0 <= i < out.len() ==> #[trigger] out[i] == inp[p[i]]
        &&& forall|i: int, j: int| 0 <= i < j < out.len() ==> score_ge(#[trigger] out[i].2, #[trigger] out[j].2)
            && (score_ge(out[j].2, out[i].2) ==> p[i] < p[j])
    }
}

proof fn lemma_score_lt_trans(a: Score, b: Score, c: Score)
    requires
        a.den > 0,
        b.den > 0,
        c.den > 0,
        score_ge(a, b),
        !score_ge(a, c),
    ensures
        !score_ge(b, c),
{
    let an = a.num as int;
    let ad = a.den as int;
    let bn = b.num as int;
    let bd = b.den as int;
    let cn = c.num as int;
    let cd = c.den as int;
    assert(bn * cd < cn * bd) by (nonlinear_arith)
        requires an * bd >= bn * ad, an * cd < cn * ad, ad > 0, bd > 0, cd > 0, bn >= 0, an >= 0, cn >= 0;
}

/// The entries that may duplicate a new entry `(name, description)`, most
/// similar first (see [`candidates_spec`]; `entries` as prepared by
/// [`neutralize_descriptions`]).
#[verifier::rlimit(40)]
pub fn find_similar_in(entries: &[(String, String)], name: &str, description: Option<&str>) -> (r: Vec<SimilarCandidate>)
    ensures
        stably_sorted_desc(
            cand_views(r@),
            candidates_spec(entry_views(entries@), name@, match description { Some(d) => d@, None => Seq::empty() }),
        ),
        forall|i: int| 0 <= i < r@.len() ==> scored_entry(
            entry_views(entries@),
            name@,
            match description { Some(d) => d@, None => Seq::empty() },
            #[trigger] cand_view(r@[i]),
        ),
{
    let desc: &str = match description {
        Some(d) => d,
        None => "",
    };
    proof {
        reveal_strlit("");
    }
    let ghost dv: Seq<char> = match description { Some(d) => d@, None => Seq::empty() };
    assert(desc@ == dv);
    let nv = chars_of(name);
    let (ta, tb) = crate::text::trim_bounds(&nv, 0, nv.len());
    proof {
        assert(nv@.subrange(0, nv@.len() as int) =~= nv@);
    }
    let tn = crate::text::string_of_range(&nv, ta, tb);
    let tnv = chars_of(tn.as_str());
    let ghost inp = candidates_spec(entry_views(entries@), name@, dv);
    let mut cands: Vec<SimilarCandidate> = Vec::new();
    let mut k: usize = 0;
    while k < entries.len()
        invariant
            k <= entries.len(),
            desc@ == dv,
            tnv@ == crate::text::trim(name@),
            cand_views(cands@) == candidates_spec(entry_views(entries@).take(k as int), name@, dv),
            forall|i: int| 0 <= i < cands@.len() ==> (#[trigger] cands@[i]).score.den > 0,
        decreases entries.len() - k,
    {
        let (ex, ed) = &entries[k];
        proof {
            assert(entry_views(entries@).take(k + 1).drop_last() =~= entry_views(entries@).take(k as int));
            assert(entry_views(entries@).take(k + 1).last() == (ex@, ed@));
        }
        let exv = chars_of(ex.as_str());
        let same = crate::text::eq_ignore_case_at(&exv, 0, exv.len(), tnv.as_slice());
        proof {
            assert(exv@.subrange(0, exv@.len() as int) =~= exv@);
        }
        if !same {
            let (n, d) = pair_scores(name, desc, ex.as_str(), ed.as_str());
            if score_reaches(n, 1, 2) || score_reaches(d, 19, 50) {
                let sc = if score_at_least(n, d) { n } else { d };
                let ghost before = cands@;
                cands.push(SimilarCandidate { name: ex.clone(), description: ed.clone(), score: sc });
                proof {
                    assert(cand_views(cands@) =~= cand_views(before).push((ex@, ed@, sc)));
                }
            }
        }
        k = k + 1;
    }
    proof {
        assert(entry_views(entries@).take(entries@.len() as int) =~= entry_views(entries@));
    }
    // stable insertion by descending score
    let mut out: Vec<SimilarCandidate> = Vec::new();
    let ghost mut p: Seq<int> = Seq::empty();
    let mut m: usize = 0;
    while m < cands.len()
        invariant
            m <= cands.len(),
            cand_views(cands@) == inp,
            forall|i: int| 0 <= i < cands@.len() ==> (#[trigger] cands@[i]).score.den > 0,
            is_permutation(p, m as int),
            out@.len() == m,
            forall|i: int| 0 <= i < out@.len() ==> #[trigger] cand_view(out@[i]) == inp[p[i]],
            forall|i: int| 0 <= i < out@.len() ==> (#[trigger] out@[i]).score.den > 0,
            forall|i: int, j: int| 0 <= i < j < out@.len() ==> score_ge(#[trigger] out@[i].score, #[trigger] out@[j].score)
                && (score_ge(out@[j].score, out@[i].score) ==> p[i] < p[j]),
        decreases cands.len() - m,
    {
        let x = SimilarCandidate {
            name: cands[m].name.clone(),
            description: cands[m].description.clone(),
            score: cands[m].score,
        };
        proof {
            assert(cand_view(cands@[m as int]) == inp[m as int]);
        }
        let mut pos: usize = 0;
        while pos < out.len() && score_at_least(out[pos].score, x.score)
            invariant
                pos <= out.len(),
                forall|i: int| 0 <= i < pos ==> score_ge((#[trigger] out@[i]).score, x.score),
            decreases out.len() - pos,
        {
            pos = pos + 1;
        }
        proof {
            if pos < out.len() {
                assert forall|j: int| pos <= j < out@.len() implies !score_ge(#[trigger] out@[j].score, x.score) by {
                    if j > pos {
                        lemma_score_lt_trans(out@[pos as int].score, out@[j].score, x.score);
                    }
                }
            }
        }
        let ghost old_out = out@;
        let ghost old_p = p;
        out.insert(pos, x);
        proof {
            p = old_p.insert(pos as int, m as int);
            old_out.insert_ensures(pos as int, x);
            old_p.insert_ensures(pos as int, m as int);
            assert(is_permutation(p, m + 1)) by {
                assert forall|i: int, j: int| 0 <= i < j < m + 1 implies p[i] != p[j] by {
                    if i < pos && j > pos {
                        assert(p[j] == old_p[j - 1]);
                    } else if i > pos {
                        assert(p[i] == old_p[i - 1] && p[j] == old_p[j - 1]);
                    }
                }
                assert forall|i: int| 0 <= i < m + 1 implies 0 <= #[trigger] p[i] < m + 1 by {
                    if i > pos {
                        assert(p[i] == old_p[i - 1]);
                    }
                }
            }
            assert forall|i: int| 0 <= i < out@.len() implies #[trigger] cand_view(out@[i]) == inp[p[i]] by {
                if i > pos {
                    assert(out@[i] == old_out[i - 1]);
                    assert(p[i] == old_p[i - 1]);
                }
            }
            assert forall|i: int| 0 <= i < out@.len() implies (#[trigger] out@[i]).score.den > 0 by {
                if i > pos {
                    assert(out@[i] == old_out[i - 1]);
                }
            }
            assert forall|i: int, j: int| 0 <= i < j < out@.len() implies score_ge(#[trigger] out@[i].score, #[trigger] out@[j].score)
                && (score_ge(out@[j].score, out@[i].score) ==> p[i] < p[j]) by {
                if j < pos {
                } else if j == pos {
                    assert(old_p[i] < m);
                } else if i == pos {
                    assert(out@[j] == old_out[j - 1]);
                    assert(!score_ge(old_out[j - 1].score, x.score));
                } else if i < pos {
                    assert(out@[j] == old_out[j - 1]);
                    assert(p[j] == old_p[j - 1]);
                } else {
                    assert(out@[i] == old_out[i - 1]);
                    assert(out@[j] == old_out[j - 1]);
                    assert(p[i] == old_p[i - 1]);
                    assert(p[j] == old_p[j - 1]);
                }
            }
        }
        m = m + 1;
    }
    proof {
        assert(cand_views(out@).len() == inp.len());
        assert forall|i: int| 0 <= i < cand_views(out@).len() implies #[trigger] cand_views(out@)[i] == inp[p[i]] by {
            assert(cand_views(out@)[i] == cand_view(out@[i]));
        }
        assert forall|i: int, j: int| 0 <= i < j < cand_views(out@).len() implies score_ge(#[trigger] cand_views(out@)[i].2, #[trigger] cand_views(out@)[j].2)
            && (score_ge(cand_views(out@)[j].2, cand_views(out@)[i].2) ==> p[i] < p[j]) by {
            assert(cand_views(out@)[i].2 == out@[i].score);
            assert(cand_views(out@)[j].2 == out@[j].score);
        }
        lemma_candidate_scores(entry_views(entries@), name@, dv);
        assert forall|i: int| 0 <= i < out@.len() implies scored_entry(entry_views(entries@), name@, dv, #[trigger] cand_view(out@[i])) by {
            assert(cand_view(out@[i]) == inp[p[i]]);
        }
    }
    out
}


/// `s` is the larger of the name and the description Dice score of the
/// entry `e` against a new entry `(name, desc)`: one of the two, and at
/// least as large as either.
pub open spec fn larger_score(name: Seq<char>, desc: Seq<char>, e: (Seq<char>, Seq<char>), s: Score) -> bool {
    let n = dice_spec(feature_set(name), feature_set(e.0));
    let d = dice_spec(feature_set(desc), feature_set(e.1));
    &&& (s == n || s == d)
    &&& score_ge(s, n)
    &&& score_ge(s, d)
}

/// The candidate `c` is one of the entries `items`, with its name and
/// description, scored with the larger of its two scores.
pub open spec fn scored_entry(items: Seq<(Seq<char>, Seq<char>)>, name: Seq<char>, desc: Seq<char>, c: (Seq<char>, Seq<char>, Score)) -> bool {
    exists|k: int| 0 <= k < items.len() && #[trigger] items[k] == (c.0, c.1) && larger_score(name, desc, items[k], c.2)
}

/// Law of write-time duplicate detection: every candidate is one of the
/// entries, and its score is the larger of its name and its description
/// Dice score against the new entry.
pub proof fn lemma_candidate_scores(items: Seq<(Seq<char>, Seq<char>)>, name: Seq<char>, desc: Seq<char>)
    ensures
        forall|i: int| 0 <= i < candidates_spec(items, name, desc).len()
            ==> scored_entry(items, name, desc, #[trigger] candidates_spec(items, name, desc)[i]),
    decreases items.len(),
{
    if items.len() > 0 {
        let init = items.drop_last();
        lemma_candidate_scores(init, name, desc);
        let prev = candidates_spec(init, name, desc);
        let cur = candidates_spec(items, name, desc);
        let e = items.last();
        assert forall|i: int| 0 <= i < cur.len() implies scored_entry(items, name, desc, #[trigger] cur[i]) by {
            if i < prev.len() {
                assert(cur[i] == prev[i]);
                assert(scored_entry(init, name, desc, prev[i]));
                let k = choose|k: int| 0 <= k < init.len() && #[trigger] init[k] == (prev[i].0, prev[i].1)
                    && larger_score(name, desc, init[k], prev[i].2);
                assert(items[k] == init[k]);
            } else {
                let k = items.len() - 1;
                assert(items[k] == e);
                let p = pair_spec(name, desc, e.0, e.1);
                assert(cur[i] == (e.0, e.1, score_max(p.0, p.1)));
                assert(larger_score(name, desc, items[k], cur[i].2));
            }
        }
    }
}

/// Law: similarity does not depend on the order of the two entries.
pub proof fn lemma_similarity_symmetric(name_a: Seq<char>, desc_a: Seq<char>, name_b: Seq<char>, desc_b: Seq<char>)
    ensures
        similarity_spec(name_a, desc_a, name_b, desc_b) == similarity_spec(name_b, desc_b, name_a, desc_a),
        pair_spec(name_a, desc_a, name_b, desc_b) == pair_spec(name_b, desc_b, name_a, desc_a),
{
    let (fa, fb) = (feature_set(name_a), feature_set(name_b));
    let (ga, gb) = (feature_set(desc_a), feature_set(desc_b));
    assert(fa.intersect(fb) =~= fb.intersect(fa));
    assert(ga.intersect(gb) =~= gb.intersect(ga));
}


// ---------------------------------------------------------------------------
// groups of suspected duplicates
// ---------------------------------------------------------------------------

/// Entries `i` and `j` are similar enough to be grouped (score at least
/// 2/5, scored with the lower index first).
pub open spec fn edge(items: Seq<(Seq<char>, Seq<char>)>, i: int, j: int) -> bool {
    &&& 0 <= i < items.len()
    &&& 0 <= j < items.len()
    &&& i != j
    &&& group_threshold(
        if i < j {
            similarity_spec(items[i].0, items[i].1, items[j].0, items[j].1)
        } else {
            similarity_spec(items[j].0, items[j].1, items[i].0, items[i].1)
        },
    )
}

/// A chain of similar entries.
pub open spec fn is_path(items: Seq<(Seq<char>, Seq<char>)>, p: Seq<int>) -> bool {
    &&& p.len() >= 1
    &&& forall|t: int| 0 <= t < p.len() ==> 0 <= #[trigger] p[t] < items.len()
    &&& forall|t: int| 0 <= t < p.len() - 1 ==> edge(items, #[trigger] p[t], p[t + 1])
}

/// Entries joined by a chain of similar entries (the transitive closure).
pub open spec fn connected(items: Seq<(Seq<char>, Seq<char>)>, a: int, b: int) -> bool {
    exists|p: Seq<int>| #[trigger] is_path(items, p) && p[0] == a && p.last() == b
}

proof fn lemma_connected_refl(items: Seq<(Seq<char>, Seq<char>)>, a: int)
    requires
        0 <= a < items.len(),
    ensures
        connected(items, a, a),
{
    let p = seq![a];
    assert(is_path(items, p));
}

proof fn lemma_connected_edge(items: Seq<(Seq<char>, Seq<char>)>, a: int, b: int)
    requires
        edge(items, a, b),
    ensures
        connected(items, a, b),
{
    let p = seq![a, b];
    assert(is_path(items, p));
}

proof fn lemma_connected_sym(items: Seq<(Seq<char>, Seq<char>)>, a: int, b: int)
    requires
        connected(items, a, b),
    ensures
        connected(items, b, a),
{
    let p = choose|p: Seq<int>| #[trigger] is_path(items, p) && p[0] == a && p.last() == b;
    let q = p.reverse();
    assert forall|t: int| 0 <= t < q.len() - 1 implies edge(items, #[trigger] q[t], q[t + 1]) by {
        let u = p.len() - 2 - t;
        assert(q[t] == p[u + 1] && q[t + 1] == p[u]);
        assert(edge(items, p[u], p[u + 1]));
    }
    assert forall|t: int| 0 <= t < q.len() implies 0 <= #[trigger] q[t] < items.len() by {
        assert(q[t] == p[p.len() - 1 - t]);
    }
    assert(is_path(items, q));
}

proof fn lemma_connected_trans(items: Seq<(Seq<char>, Seq<char>)>, a: int, b: int, c: int)
    requires
        connected(items, a, b),
        connected(items, b, c),
    ensures
        connected(items, a, c),
{
    let p = choose|p: Seq<int>| #[trigger] is_path(items, p) && p[0] == a && p.last() == b;
    let q = choose|q: Seq<int>| #[trigger] is_path(items, q) && q[0] == b && q.last() == c;
    let r = p + q.drop_first();
    assert forall|t: int| 0 <= t < r.len() implies 0 <= #[trigger] r[t] < items.len() by {
        if t >= p.len() {
            assert(r[t] == q[t - p.len() + 1]);
        }
    }
    assert forall|t: int| 0 <= t < r.len() - 1 implies edge(items, #[trigger] r[t], r[t + 1]) by {
        if t < p.len() - 1 {
            assert(r[t] == p[t] && r[t + 1] == p[t + 1]);
        } else if t == p.len() - 1 {
            assert(r[t] == p.last() && r[t] == q[0]);
            assert(r[t + 1] == q[1]);
        } else {
            assert(r[t] == q[t - p.len() + 1] && r[t + 1] == q[t - p.len() + 2]);
        }
    }
    if q.len() == 1 {
        assert(r =~= p);
    } else {
        assert(r.last() == q.last());
    }
    assert(is_path(items, r));
}

/// Indices below `m` labelled `r`, ascending.
pub open spec fn class_upto(lab: Seq<int>, r: int, m: int) -> Seq<int>
    decreases m,
{
    if m <= 0 {
        Seq::empty()
    } else {
        class_upto(lab, r, m - 1) + (if lab[m - 1] == r { seq![m - 1] } else { Seq::empty() })
    }
}

/// A labelling of the entries whose classes are the connected components:
/// similar entries share a label, and entries sharing a label are chained.
pub open spec fn components(items: Seq<(Seq<char>, Seq<char>)>, lab: Seq<int>) -> bool {
    &&& lab.len() == items.len()
    &&& forall|p: int, q: int| #[trigger] edge(items, p, q) ==> lab[p] == lab[q]
    &&& forall|a: int, b: int| 0 <= a < lab.len() && 0 <= b < lab.len() && lab[a] == lab[b] ==> #[trigger] connected(items, a, b)
}

/// `groups` lists the label classes of two entries or more, each once, each
/// ascending, larger classes first.
pub open spec fn groups_of(lab: Seq<int>, groups: Seq<Seq<int>>) -> bool {
    &&& forall|k: int| 0 <= k < groups.len() ==> (#[trigger] groups[k]).len() >= 2
        && 0 <= groups[k][0] < lab.len()
        && groups[k] == class_upto(lab, lab[groups[k][0]], lab.len() as int)
    &&& forall|i: int| 0 <= i < lab.len() && #[trigger] class_upto(lab, lab[i], lab.len() as int).len() >= 2
        ==> exists|k: int| 0 <= k < groups.len() && groups[k] == class_upto(lab, lab[i], lab.len() as int)
    &&& forall|k1: int, k2: int| 0 <= k1 < k2 < groups.len() ==> (#[trigger] groups[k1])[0] != (#[trigger] groups[k2])[0]
    &&& forall|k1: int, k2: int| 0 <= k1 < k2 < groups.len() ==> (#[trigger] groups[k1]).len() >= (#[trigger] groups[k2]).len()
}


pub open spec fn lab_view(v: Seq<usize>) -> Seq<int> {
    Seq::new(v.len(), |i: int| v[i] as int)
}

fn is_edge(items: &[(String, String)], i: usize, j: usize) -> (b: bool)
    requires
        i < j < items.len(),
    ensures
        b == edge(entry_views(items@), i as int, j as int),
{
    let s = similarity_score(items[i].0.as_str(), items[i].1.as_str(), items[j].0.as_str(), items[j].1.as_str());
    proof {
        assert(entry_views(items@)[i as int] == (items@[i as int].0@, items@[i as int].1@));
        assert(entry_views(items@)[j as int] == (items@[j as int].0@, items@[j as int].1@));
    }
    score_reaches(s, 2, 5)
}

/// Replaces label `from` by `to` everywhere.
fn relabel(lab: &mut Vec<usize>, from: usize, to: usize)
    ensures
        final(lab)@.len() == old(lab)@.len(),
        forall|m: int| 0 <= m < old(lab)@.len() ==> #[trigger] final(lab)@[m] == (if old(lab)@[m] == from { to } else { old(lab)@[m] }),
{
    let mut k: usize = 0;
    while k < lab.len()
        invariant
            k <= lab@.len(),
            lab@.len() == old(lab)@.len(),
            forall|m: int| 0 <= m < k ==> #[trigger] lab@[m] == (if old(lab)@[m] == from { to } else { old(lab)@[m] }),
            forall|m: int| k <= m < lab@.len() ==> #[trigger] lab@[m] == old(lab)@[m],
        decreases lab@.len() - k,
    {
        if lab[k] == from {
            lab.set(k, to);
        }
        k = k + 1;
    }
}

/// Labels the entries by connected component of the similarity relation
/// (see [`components`]).
#[verifier::rlimit(40)]
pub fn label_components(items: &[(String, String)]) -> (lab: Vec<usize>)
    ensures
        components(entry_views(items@), lab_view(lab@)),
        forall|k: int| 0 <= k < lab@.len() ==> (#[trigger] lab@[k]) < items@.len(),
{
    let ghost iv = entry_views(items@);
    let n = items.len();
    let mut lab: Vec<usize> = Vec::new();
    let mut k: usize = 0;
    while k < n
        invariant
            k <= n,
            n == items@.len(),
            iv == entry_views(items@),
            lab@.len() == k,
            forall|m: int| 0 <= m < k ==> #[trigger] lab@[m] == m,
        decreases n - k,
    {
        lab.push(k);
        k = k + 1;
    }
    proof {
        assert forall|m: int| 0 <= m < n implies connected(iv, m, #[trigger] lab@[m] as int) by {
            lemma_connected_refl(iv, m);
        }
    }
    let mut i: usize = 0;
    while i < n
        invariant
            i <= n,
            n == items@.len(),
            iv == entry_views(items@),
            iv.len() == n,
            lab@.len() == n,
            forall|m: int| 0 <= m < n ==> (#[trigger] lab@[m]) < n,
            forall|m: int| 0 <= m < n ==> connected(iv, m, #[trigger] lab@[m] as int),
            forall|p: int, q: int| 0 <= p < i && p < q < n && #[trigger] edge(iv, p, q) ==> lab@[p] == lab@[q],
        decreases n - i,
    {
        let mut j: usize = i + 1;
        while j < n
            invariant
                i < n,
                i + 1 <= j <= n,
                n == items@.len(),
                iv == entry_views(items@),
                iv.len() == n,
                lab@.len() == n,
                forall|m: int| 0 <= m < n ==> (#[trigger] lab@[m]) < n,
                forall|m: int| 0 <= m < n ==> connected(iv, m, #[trigger] lab@[m] as int),
                forall|p: int, q: int| 0 <= p < i && p < q < n && #[trigger] edge(iv, p, q) ==> lab@[p] == lab@[q],
                forall|q: int| i < q < j && #[trigger] edge(iv, i as int, q) ==> lab@[i as int] == lab@[q],
            decreases n - j,
        {
            if is_edge(items, i, j) && lab[i] != lab[j] {
                let r1 = lab[i];
                let r2 = lab[j];
                let ghost before = lab@;
                relabel(&mut lab, r2, r1);
                proof {
                    assert(edge(iv, j as int, i as int));
                    lemma_connected_edge(iv, j as int, i as int);
                    assert(connected(iv, j as int, r2 as int));
                    lemma_connected_sym(iv, j as int, r2 as int);
                    assert(connected(iv, i as int, r1 as int));
                    lemma_connected_trans(iv, j as int, i as int, r1 as int);
                    lemma_connected_trans(iv, r2 as int, j as int, r1 as int);
                    assert forall|m: int| 0 <= m < n implies connected(iv, m, #[trigger] lab@[m] as int) by {
                        assert(connected(iv, m, before[m] as int));
                        if before[m] == r2 {
                            lemma_connected_trans(iv, m, r2 as int, r1 as int);
                        }
                    }
                    assert forall|p: int, q: int| 0 <= p < i && p < q < n && #[trigger] edge(iv, p, q) implies lab@[p] == lab@[q] by {
                        assert(before[p] == before[q]);
                    }
                    assert forall|q: int| i < q < j + 1 && #[trigger] edge(iv, i as int, q) implies lab@[i as int] == lab@[q] by {
                        if q < j {
                            assert(before[i as int] == before[q]);
                        }
                    }
                }
            }
            j = j + 1;
        }
        i = i + 1;
    }
    proof {
        let lv = lab_view(lab@);
        assert forall|p: int, q: int| #[trigger] edge(iv, p, q) implies lv[p] == lv[q] by {
            if p < q {
                assert(lab@[p] == lab@[q]);
            } else {
                assert(edge(iv, q, p));
                assert(lab@[q] == lab@[p]);
            }
        }
        assert forall|a: int, b: int| 0 <= a < lv.len() && 0 <= b < lv.len() && lv[a] == lv[b] implies #[trigger] connected(iv, a, b) by {
            let r = lab@[a] as int;
            assert(connected(iv, a, r));
            assert(connected(iv, b, lab@[b] as int));
            lemma_connected_sym(iv, b, r);
            lemma_connected_trans(iv, a, r, b);
        }
    }
    lab
}


proof fn lemma_class_props(lab: Seq<int>, r: int, m: int)
    requires
        0 <= m <= lab.len(),
    ensures
        class_upto(lab, r, m).len() <= m,
        forall|t: int| 0 <= t < class_upto(lab, r, m).len() ==> 0 <= #[trigger] class_upto(lab, r, m)[t] < m
            && lab[class_upto(lab, r, m)[t]] == r,
        forall|t1: int, t2: int| 0 <= t1 < t2 < class_upto(lab, r, m).len() ==> #[trigger] class_upto(lab, r, m)[t1] < #[trigger] class_upto(lab, r, m)[t2],
        forall|i: int| 0 <= i < m && lab[i] == r ==> #[trigger] class_upto(lab, r, m).contains(i),
    decreases m,
{
    if m > 0 {
        lemma_class_props(lab, r, m - 1);
        let prev = class_upto(lab, r, m - 1);
        let cur = class_upto(lab, r, m);
        assert forall|t: int| 0 <= t < prev.len() implies cur[t] == prev[t] by {}
        assert forall|i: int| 0 <= i < m && lab[i] == r implies #[trigger] cur.contains(i) by {
            if i < m - 1 {
                assert(prev.contains(i));
                let t = choose|t: int| 0 <= t < prev.len() && prev[t] == i;
                assert(cur[t] == i);
            } else {
                assert(cur[prev.len() as int] == i);
            }
        }
    }
}

proof fn lemma_class_prefix(lab: Seq<int>, r: int, m1: int, m2: int)
    requires
        0 <= m1 <= m2 <= lab.len(),
    ensures
        class_upto(lab, r, m1).len() <= class_upto(lab, r, m2).len(),
        forall|t: int| 0 <= t < class_upto(lab, r, m1).len() ==> #[trigger] class_upto(lab, r, m2)[t] == class_upto(lab, r, m1)[t],
    decreases m2 - m1,
{
    if m1 < m2 {
        lemma_class_prefix(lab, r, m1, m2 - 1);
    }
}

/// The class of `lab[k]`, when `k` is its first member, starts at `k`.
proof fn lemma_class_first(lab: Seq<int>, k: int)
    requires
        0 <= k < lab.len(),
        class_upto(lab, lab[k], k).len() == 0,
    ensures
        class_upto(lab, lab[k], lab.len() as int).len() >= 1,
        class_upto(lab, lab[k], lab.len() as int)[0] == k,
{
    assert(class_upto(lab, lab[k], k + 1) =~= seq![k]);
    lemma_class_prefix(lab, lab[k], k + 1, lab.len() as int);
}

/// The first member of a class has no earlier member.
proof fn lemma_class_head(lab: Seq<int>, r: int)
    requires
        class_upto(lab, r, lab.len() as int).len() >= 1,
    ensures
        ({
            let f = class_upto(lab, r, lab.len() as int)[0];
            0 <= f < lab.len() && lab[f] == r && class_upto(lab, r, f).len() == 0
        }),
{
    let n = lab.len() as int;
    lemma_class_props(lab, r, n);
    let f = class_upto(lab, r, n)[0];
    lemma_class_props(lab, r, f);
    if class_upto(lab, r, f).len() > 0 {
        let e = class_upto(lab, r, f)[0];
        assert(0 <= e < f && lab[e] == r);
        assert(class_upto(lab, r, n).contains(e));
        let t = choose|t: int| 0 <= t < class_upto(lab, r, n).len() && class_upto(lab, r, n)[t] == e;
        if t > 0 {
            assert(class_upto(lab, r, n)[0] < class_upto(lab, r, n)[t]);
        }
    }
}

fn collect_class(lab: &Vec<usize>, r: usize) -> (v: Vec<usize>)
    ensures
        lab_view(v@) == class_upto(lab_view(lab@), r as int, lab@.len() as int),
{
    let mut v: Vec<usize> = Vec::new();
    let mut k: usize = 0;
    while k < lab.len()
        invariant
            k <= lab@.len(),
            lab_view(v@) == class_upto(lab_view(lab@), r as int, k as int),
        decreases lab@.len() - k,
    {
        let ghost before = v@;
        if lab[k] == r {
            v.push(k);
        }
        proof {
            assert(lab_view(v@) =~= class_upto(lab_view(lab@), r as int, (k + 1) as int));
        }
        k = k + 1;
    }
    v
}

fn is_first_of_class(lab: &Vec<usize>, k: usize) -> (b: bool)
    requires
        k < lab@.len(),
    ensures
        b == (class_upto(lab_view(lab@), lab@[k as int] as int, k as int).len() == 0),
{
    let mut m: usize = 0;
    while m < k
        invariant
            m <= k < lab@.len(),
            class_upto(lab_view(lab@), lab@[k as int] as int, m as int).len() == 0,
        decreases k - m,
    {
        if lab[m] == lab[k] {
            proof {
                lemma_class_props(lab_view(lab@), lab@[k as int] as int, k as int);
                assert(class_upto(lab_view(lab@), lab@[k as int] as int, k as int).contains(m as int));
            }
            return false;
        }
        m = m + 1;
    }
    true
}


pub open spec fn group_views(g: Seq<Vec<usize>>) -> Seq<Seq<int>> {
    Seq::new(g.len(), |t: int| lab_view(g[t]@))
}

/// The classes of two members or more, larger first (see [`groups_of`]).
#[verifier::rlimit(60)]
fn group_indices(lab: &Vec<usize>) -> (groups: Vec<Vec<usize>>)
    ensures
        groups_of(lab_view(lab@), group_views(groups@)),
{
    let ghost l = lab_view(lab@);
    let n = lab.len();
    let mut groups: Vec<Vec<usize>> = Vec::new();
    let mut s = n;
    proof {
        assert forall|i: int| 0 <= i < n implies #[trigger] class_upto(l, l[i], n as int).len() <= s by {
            lemma_class_props(l, l[i], n as int);
        }
    }
    while s >= 2
        invariant
            s <= n,
            n == lab@.len(),
            l == lab_view(lab@),
            forall|t: int| 0 <= t < groups@.len() ==> (#[trigger] group_views(groups@)[t]).len() >= 2
                && 0 <= group_views(groups@)[t][0] < n
                && group_views(groups@)[t] == class_upto(l, l[group_views(groups@)[t][0]], n as int)
                && class_upto(l, l[group_views(groups@)[t][0]], group_views(groups@)[t][0]).len() == 0
                && group_views(groups@)[t].len() > s,
            forall|i: int| 0 <= i < n && #[trigger] class_upto(l, l[i], n as int).len() > s
                ==> exists|t: int| 0 <= t < groups@.len() && group_views(groups@)[t] == class_upto(l, l[i], n as int),
            forall|k1: int, k2: int| 0 <= k1 < k2 < groups@.len() ==> (#[trigger] group_views(groups@)[k1])[0] != (#[trigger] group_views(groups@)[k2])[0],
            forall|k1: int, k2: int| 0 <= k1 < k2 < groups@.len() ==> (#[trigger] group_views(groups@)[k1]).len() >= (#[trigger] group_views(groups@)[k2]).len(),
        decreases s,
    {
        let mut k: usize = 0;
        proof {
            assert forall|i: int| 0 <= i < n && class_upto(l, l[i], n as int).len() >= 1 implies
                class_upto(l, l[i], n as int)[0] >= 0 by {
                lemma_class_props(l, l[i], n as int);
            }
        }
        while k < n
            invariant
                2 <= s <= n,
                k <= n,
                n == lab@.len(),
                l == lab_view(lab@),
                forall|t: int| 0 <= t < groups@.len() ==> (#[trigger] group_views(groups@)[t]).len() >= 2
                    && 0 <= group_views(groups@)[t][0] < n
                    && group_views(groups@)[t] == class_upto(l, l[group_views(groups@)[t][0]], n as int)
                    && class_upto(l, l[group_views(groups@)[t][0]], group_views(groups@)[t][0]).len() == 0
                    && (group_views(groups@)[t].len() > s || (group_views(groups@)[t].len() == s && group_views(groups@)[t][0] < k)),
                forall|i: int| 0 <= i < n && (#[trigger] class_upto(l, l[i], n as int).len() > s
                    || (class_upto(l, l[i], n as int).len() == s && class_upto(l, l[i], n as int)[0] < k))
                    ==> exists|t: int| 0 <= t < groups@.len() && group_views(groups@)[t] == class_upto(l, l[i], n as int),
                forall|k1: int, k2: int| 0 <= k1 < k2 < groups@.len() ==> (#[trigger] group_views(groups@)[k1])[0] != (#[trigger] group_views(groups@)[k2])[0],
                forall|k1: int, k2: int| 0 <= k1 < k2 < groups@.len() ==> (#[trigger] group_views(groups@)[k1]).len() >= (#[trigger] group_views(groups@)[k2]).len(),
                forall|t: int| 0 <= t < groups@.len() ==> (#[trigger] group_views(groups@)[t]).len() >= s,
            decreases n - k,
        {
            if is_first_of_class(lab, k) {
                let c = collect_class(lab, lab[k]);
                proof {
                    lemma_class_first(l, k as int);
                }
                if c.len() == s {
                    let ghost before = groups@;
                    groups.push(c);
                    proof {
                        let gv = group_views(groups@);
                        let ck = class_upto(l, l[k as int], n as int);
                        assert(gv =~= group_views(before).push(ck));
                        assert forall|t: int| 0 <= t < group_views(before).len() implies group_views(before)[t][0] != k by {
                            let g = group_views(before)[t];
                            if g[0] == k {
                                assert(g.len() > s || g[0] < k);
                                assert(g == ck);
                            }
                        }
                        assert forall|i: int| 0 <= i < n && (#[trigger] class_upto(l, l[i], n as int).len() > s
                            || (class_upto(l, l[i], n as int).len() == s && class_upto(l, l[i], n as int)[0] < k + 1))
                            implies exists|t: int| 0 <= t < groups@.len() && group_views(groups@)[t] == class_upto(l, l[i], n as int) by {
                            let ci = class_upto(l, l[i], n as int);
                            if ci.len() == s && ci[0] == k {
                                lemma_class_head(l, l[i]);
                                assert(l[k as int] == l[i]);
                                assert(gv[before.len() as int] == ci);
                            } else {
                                let t = choose|t: int| 0 <= t < before.len() && group_views(before)[t] == ci;
                                assert(gv[t] == ci);
                            }
                        }
                    }
                } else {
                    proof {
                        let ck = class_upto(l, l[k as int], n as int);
                        assert forall|i: int| 0 <= i < n && (#[trigger] class_upto(l, l[i], n as int).len() > s
                            || (class_upto(l, l[i], n as int).len() == s && class_upto(l, l[i], n as int)[0] < k + 1))
                            implies exists|t: int| 0 <= t < groups@.len() && group_views(groups@)[t] == class_upto(l, l[i], n as int) by {
                            let ci = class_upto(l, l[i], n as int);
                            if ci.len() == s && ci[0] == k {
                                lemma_class_head(l, l[i]);
                                assert(l[k as int] == l[i]);
                            }
                        }
                    }
                }
            } else {
                proof {
                    assert forall|i: int| 0 <= i < n && (#[trigger] class_upto(l, l[i], n as int).len() > s
                        || (class_upto(l, l[i], n as int).len() == s && class_upto(l, l[i], n as int)[0] < k + 1))
                        implies exists|t: int| 0 <= t < groups@.len() && group_views(groups@)[t] == class_upto(l, l[i], n as int) by {
                        let ci = class_upto(l, l[i], n as int);
                        if ci.len() == s && ci[0] == k {
                            lemma_class_head(l, l[i]);
                            assert(l[k as int] == l[i]);
                        }
                    }
                }
            }
            k = k + 1;
        }
        proof {
            assert forall|i: int| 0 <= i < n && #[trigger] class_upto(l, l[i], n as int).len() > s - 1
                implies exists|t: int| 0 <= t < groups@.len() && group_views(groups@)[t] == class_upto(l, l[i], n as int) by {
                let ci = class_upto(l, l[i], n as int);
                if ci.len() == s {
                    lemma_class_props(l, l[i], n as int);
                    assert(ci.contains(i));
                    assert(0 <= ci[0] < n);
                }
            }
        }
        s = s - 1;
    }
    proof {
        let gv = group_views(groups@);
        assert forall|i: int| 0 <= i < l.len() && #[trigger] class_upto(l, l[i], l.len() as int).len() >= 2
            implies exists|k: int| 0 <= k < gv.len() && gv[k] == class_upto(l, l[i], l.len() as int) by {
            if n < 2 {
                lemma_class_props(l, l[i], n as int);
                assert(class_upto(l, l[i], n as int)[1] < n);
                assert(class_upto(l, l[i], n as int)[0] < class_upto(l, l[i], n as int)[1]);
            }
        }
    }
    groups
}


/// `out` is `inp` stably sorted by name: a permutation of it with names in
/// `str` order, entries of equal names in their input order.
pub open spec fn stably_sorted_by_name(out: Seq<(Seq<char>, Seq<char>)>, inp: Seq<(Seq<char>, Seq<char>)>) -> bool {
    exists|p: Seq<int>| {
        &&& is_permutation(p, inp.len() as int)
        &&& out.len() == inp.len()
        &&& forall|i: int| 0 <= i < out.len() ==> #[trigger] out[i] == inp[p[i]]
        &&& forall|i: int, j: int| 0 <= i < j < out.len() ==> crate::text::lex_le(#[trigger] out[i].0, #[trigger] out[j].0)
            && (out[i].0 == out[j].0 ==> p[i] < p[j])
    }
}

/// Sorts entries by name, stably.
#[verifier::rlimit(40)]
pub fn sort_by_name(items: &[(String, String)]) -> (r: Vec<(String, String)>)
    ensures
        stably_sorted_by_name(entry_views(r@), entry_views(items@)),
{
    let ghost inp = entry_views(items@);
    let mut out: Vec<(String, String)> = Vec::new();
    let ghost mut p: Seq<int> = Seq::empty();
    let mut m: usize = 0;
    while m < items.len()
        invariant
            m <= items@.len(),
            inp == entry_views(items@),
            is_permutation(p, m as int),
            out@.len() == m,
            forall|i: int| 0 <= i < out@.len() ==> #[trigger] entry_views(out@)[i] == inp[p[i]],
            forall|i: int, j: int| 0 <= i < j < out@.len() ==> crate::text::lex_le(#[trigger] entry_views(out@)[i].0, #[trigger] entry_views(out@)[j].0)
                && (entry_views(out@)[i].0 == entry_views(out@)[j].0 ==> p[i] < p[j]),
        decreases items@.len() - m,
    {
        let x = (items[m].0.clone(), items[m].1.clone());
        proof {
            assert(inp[m as int] == (x.0@, x.1@));
        }
        let mut pos: usize = 0;
        while pos < out.len() && !crate::text::str_lt(x.0.as_str(), out[pos].0.as_str())
            invariant
                pos <= out@.len(),
                forall|i: int| 0 <= i < pos ==> !crate::text::lex_lt(x.0@, (#[trigger] out@[i]).0@),
            decreases out@.len() - pos,
        {
            pos = pos + 1;
        }
        let ghost old_out = out@;
        let ghost ov = entry_views(out@);
        let ghost old_p = p;
        proof {
            assert forall|i: int| 0 <= i < pos implies crate::text::lex_le(#[trigger] ov[i].0, x.0@) by {
                assert(ov[i].0 == old_out[i].0@);
                crate::text::lemma_lex_total(x.0@, ov[i].0);
            }
            if pos < old_out.len() {
                assert(crate::text::lex_lt(x.0@, ov[pos as int].0));
                assert forall|j: int| pos <= j < ov.len() implies crate::text::lex_lt(x.0@, #[trigger] ov[j].0) by {
                    if j > pos {
                        assert(crate::text::lex_le(ov[pos as int].0, ov[j].0));
                        if ov[pos as int].0 != ov[j].0 {
                            crate::text::lemma_lex_trans(x.0@, ov[pos as int].0, ov[j].0);
                        }
                    }
                }
            }
        }
        out.insert(pos, x);
        proof {
            p = old_p.insert(pos as int, m as int);
            old_p.insert_ensures(pos as int, m as int);
            old_out.insert_ensures(pos as int, x);
            let nv = entry_views(out@);
            assert forall|i: int| 0 <= i < nv.len() implies #[trigger] nv[i] == (if i < pos { ov[i] } else if i == pos { (x.0@, x.1@) } else { ov[i - 1] }) by {
                if i > pos {
                    assert(out@[i] == old_out[i - 1]);
                }
            }
            assert(is_permutation(p, m + 1)) by {
                assert forall|i: int, j: int| 0 <= i < j < m + 1 implies p[i] != p[j] by {
                    if i < pos && j > pos {
                        assert(p[j] == old_p[j - 1]);
                    } else if i > pos {
                        assert(p[i] == old_p[i - 1] && p[j] == old_p[j - 1]);
                    }
                }
                assert forall|i: int| 0 <= i < m + 1 implies 0 <= #[trigger] p[i] < m + 1 by {
                    if i > pos {
                        assert(p[i] == old_p[i - 1]);
                    }
                }
            }
            assert forall|i: int| 0 <= i < nv.len() implies #[trigger] nv[i] == inp[p[i]] by {
                if i > pos {
                    assert(p[i] == old_p[i - 1]);
                }
            }
            assert forall|i: int, j: int| 0 <= i < j < nv.len() implies crate::text::lex_le(#[trigger] nv[i].0, #[trigger] nv[j].0)
                && (nv[i].0 == nv[j].0 ==> p[i] < p[j]) by {
                if j < pos {
                } else if j == pos {
                    assert(old_p[i] < m);
                } else if i == pos {
                    assert(nv[j] == ov[j - 1]);
                    assert(crate::text::lex_lt(x.0@, ov[j - 1].0));
                    crate::text::lemma_lex_total(x.0@, ov[j - 1].0);
                } else if i < pos {
                    assert(p[j] == old_p[j - 1]);
                } else {
                    assert(p[i] == old_p[i - 1]);
                    assert(p[j] == old_p[j - 1]);
                }
            }
        }
        m = m + 1;
    }
    proof {
        let ov = entry_views(out@);
        assert(is_permutation(p, inp.len() as int));
        assert(ov.len() == inp.len());
        assert(forall|i: int| 0 <= i < ov.len() ==> #[trigger] ov[i] == inp[p[i]]);
    }
    out
}

/// A directory's entries as the similarity checks use them: sorted by name,
/// boilerplate descriptions blanked.
pub fn entries_with_desc(raw: &[(String, String)]) -> (r: Vec<(String, String)>)
    ensures
        exists|sorted: Seq<(Seq<char>, Seq<char>)>| #[trigger] stably_sorted_by_name(sorted, entry_views(raw@))
            && entry_views(r@) == neutralized(sorted),
{
    let sorted = sort_by_name(raw);
    neutralize_descriptions(sorted.as_slice())
}

/// The entries of a directory `(name, description)` that may duplicate a new
/// entry, most similar first: the entries as [`entries_with_desc`] prepares
/// them, run through [`find_similar_in`].
pub fn find_similar_in_dir(raw: &[(String, String)], name: &str, description: Option<&str>) -> (r: Vec<SimilarCandidate>)
    ensures
        exists|sorted: Seq<(Seq<char>, Seq<char>)>| #[trigger] stably_sorted_by_name(sorted, entry_views(raw@))
            && stably_sorted_desc(
                cand_views(r@),
                candidates_spec(neutralized(sorted), name@, match description { Some(d) => d@, None => Seq::empty() }),
            ),
{
    let items = entries_with_desc(raw);
    find_similar_in(items.as_slice(), name, description)
}

pub open spec fn name_groups(items: Seq<(Seq<char>, Seq<char>)>, g: Seq<Seq<int>>) -> Seq<Seq<Seq<char>>> {
    Seq::new(g.len(), |k: int| Seq::new(g[k].len(), |t: int| items[g[k][t]].0))
}

pub open spec fn string_groups(v: Seq<Vec<String>>) -> Seq<Seq<Seq<char>>> {
    Seq::new(v.len(), |k: int| Seq::new(v[k]@.len(), |t: int| v[k]@[t]@))
}

/// `out` is the grouping of the entries `raw` that [`duplicate_groups`]
/// describes.
pub open spec fn grouping_of(raw: Seq<(Seq<char>, Seq<char>)>, out: Seq<Seq<Seq<char>>>) -> bool {
    exists|sorted: Seq<(Seq<char>, Seq<char>)>, lab: Seq<int>, g: Seq<Seq<int>>| {
        &&& #[trigger] stably_sorted_by_name(sorted, raw)
        &&& #[trigger] components(neutralized(sorted), lab)
        &&& #[trigger] groups_of(lab, g)
        &&& out == name_groups(neutralized(sorted), g)
    }
}

/// Groups of suspected duplicates among a directory's entries `(name,
/// description)`: the entries are sorted by name and boilerplate
/// descriptions blanked (see [`entries_with_desc`]); two entries scoring at
/// least 2/5 are linked, and the groups are the linked components (the
/// transitive closure) of two entries or more, names ascending, larger
/// groups first.
pub fn duplicate_groups(raw: &[(String, String)]) -> (r: Vec<Vec<String>>)
    ensures
        grouping_of(entry_views(raw@), string_groups(r@)),
{
    let items = entries_with_desc(raw);
    let lab = label_components(items.as_slice());
    let gi = group_indices(&lab);
    let mut out: Vec<Vec<String>> = Vec::new();
    let ghost iv = entry_views(items@);
    let ghost gv = group_views(gi@);
    let mut k: usize = 0;
    while k < gi.len()
        invariant
            k <= gi@.len(),
            out@.len() == k,
            iv == entry_views(items@),
            gv == group_views(gi@),
            groups_of(lab_view(lab@), gv),
            lab@.len() == items@.len(),
            forall|q: int| 0 <= q < k ==> #[trigger] string_groups(out@)[q] == name_groups(iv, gv)[q],
        decreases gi@.len() - k,
    {
        let g = &gi[k];
        let mut names: Vec<String> = Vec::new();
        let mut t: usize = 0;
        proof {
            assert(gv[k as int] == lab_view(g@));
            lemma_class_props(lab_view(lab@), lab_view(lab@)[gv[k as int][0]], lab@.len() as int);
            assert forall|u: int| 0 <= u < g@.len() implies (#[trigger] g@[u]) < items@.len() by {
                assert(lab_view(g@)[u] == g@[u] as int);
                assert(gv[k as int][u] < lab@.len());
            }
        }
        while t < g.len()
            invariant
                t <= g@.len(),
                names@.len() == t,
                gv[k as int] == lab_view(g@),
                lab@.len() == items@.len(),
                iv == entry_views(items@),
                forall|u: int| 0 <= u < g@.len() ==> (#[trigger] g@[u]) < items@.len(),
                forall|u: int| 0 <= u < t ==> (#[trigger] names@[u])@ == iv[g@[u] as int].0,
            decreases g@.len() - t,
        {
            let idx = g[t];
            names.push(items[idx].0.clone());
            proof {
                assert(iv[idx as int] == (items@[idx as int].0@, items@[idx as int].1@));
            }
            t = t + 1;
        }
        let ghost before = out@;
        out.push(names);
        proof {
            assert(string_groups(out@)[k as int] =~= name_groups(iv, gv)[k as int]);
            assert forall|q: int| 0 <= q < k + 1 implies #[trigger] string_groups(out@)[q] == name_groups(iv, gv)[q] by {
                if q < k {
                    assert(string_groups(out@)[q] == string_groups(before)[q]);
                }
            }
        }
        k = k + 1;
    }
    proof {
        assert(string_groups(out@) =~= name_groups(iv, gv));
        let sorted = choose|sorted: Seq<(Seq<char>, Seq<char>)>| #[trigger] stably_sorted_by_name(sorted, entry_views(raw@))
            && entry_views(items@) == neutralized(sorted);
        assert(components(neutralized(sorted), lab_view(lab@)));
        assert(stably_sorted_by_name(sorted, entry_views(raw@)) && components(neutralized(sorted), lab_view(lab@))
            && groups_of(lab_view(lab@), gv) && string_groups(out@) == name_groups(neutralized(sorted), gv));
    }
    out
}

} // verus!
