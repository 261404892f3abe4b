//! Markdown body operations: heading blocks, heading index, deduplication.

use vstd::prelude::*;

use crate::okf::frontmatter::{fence, fence_at, fence_from, is_fence_line};
use crate::text::{chars_of, eq_ignore_ascii_case, eq_ignore_case_at, join, join_ranges, line_ranges, lines, lowercase_chars, push_range, push_slice, range_texts, ranges_in, starts_with, string_from, string_of_range, strip_leading, trim, trim_bounds, unicode_lower, views, has_prefix_at, push_joined, same_chars};

verus! {

/// A line whose trimmed text starts with `#`.
pub open spec fn is_heading(line: Seq<char>) -> bool {
    trim(line).len() > 0 && trim(line)[0] == '#'
}

/// The text of a heading line: trimmed, leading `#`s dropped, trimmed again.
pub open spec fn heading_text(line: Seq<char>) -> Seq<char> {
    trim(strip_leading(trim(line), '#'))
}

/// A heading line whose text equals `h` ignoring ASCII case.
pub open spec fn heading_matches(line: Seq<char>, h: Seq<char>) -> bool {
    is_heading(line) && eq_ignore_ascii_case(heading_text(line), h)
}

/// First index at or after `from` of a heading line matching `h`, or `-1`.
pub open spec fn match_from(ls: Seq<Seq<char>>, h: Seq<char>, from: int) -> int
    decreases ls.len() - from,
{
    if from < 0 || from >= ls.len() {
        -1
    } else if heading_matches(ls[from], h) {
        from
    } else {
        match_from(ls, h, from + 1)
    }
}

/// First index at or after `from` of any heading line, or `ls.len()`.
pub open spec fn heading_from(ls: Seq<Seq<char>>, from: int) -> int
    decreases ls.len() - from,
{
    if from < 0 || from >= ls.len() {
        ls.len() as int
    } else if is_heading(ls[from]) {
        from
    } else {
        heading_from(ls, from + 1)
    }
}

/// The level of a heading line: how many `#`s its trimmed text starts with.
pub open spec fn heading_level(line: Seq<char>) -> int {
    trim(line).len() - strip_leading(trim(line), '#').len()
}

/// A line that closes a section of level `lvl`: a heading of that level or
/// of a higher one (fewer `#`s).
pub open spec fn closes_section(line: Seq<char>, lvl: int) -> bool {
    is_heading(line) && heading_level(line) <= lvl
}

/// First index at or after `from` of a line closing a section of level
/// `lvl`, or `ls.len()`.
pub open spec fn section_end(ls: Seq<Seq<char>>, lvl: int, from: int) -> int
    decreases ls.len() - from,
{
    if from < 0 || from >= ls.len() {
        ls.len() as int
    } else if closes_section(ls[from], lvl) {
        from
    } else {
        section_end(ls, lvl, from + 1)
    }
}

/// What `extract_block` returns: the trimmed lines after the first heading
/// matching `h`, up to the next heading of the same or a higher level (a
/// deeper sub-heading stays in the block).
pub open spec fn block_of(content: Seq<char>, h: Seq<char>) -> Option<Seq<char>> {
    let ls = lines(content);
    let i = match_from(ls, h, 0);
    if i < 0 {
        None
    } else {
        Some(trim(join(ls.subrange(i + 1, section_end(ls, heading_level(ls[i]), i + 1)), seq!['\n'])))
    }
}

pub proof fn lemma_section_end_props(ls: Seq<Seq<char>>, lvl: int, from: int)
    requires
        0 <= from <= ls.len(),
    ensures
        from <= section_end(ls, lvl, from) <= ls.len(),
        forall|m: int| from <= m < section_end(ls, lvl, from) ==> !closes_section(#[trigger] ls[m], lvl),
        section_end(ls, lvl, from) < ls.len() ==> closes_section(ls[section_end(ls, lvl, from)], lvl),
    decreases ls.len() - from,
{
    if from < ls.len() && !closes_section(ls[from], lvl) {
        lemma_section_end_props(ls, lvl, from + 1);
    }
}

pub proof fn lemma_section_end_at(ls: Seq<Seq<char>>, lvl: int, from: int, at: int)
    requires
        0 <= from <= at < ls.len(),
        forall|j: int| from <= j < at ==> !closes_section(#[trigger] ls[j], lvl),
        closes_section(ls[at], lvl),
    ensures
        section_end(ls, lvl, from) == at,
    decreases at - from,
{
    if from < at {
        lemma_section_end_at(ls, lvl, from + 1, at);
    }
}

pub proof fn lemma_section_end_none(ls: Seq<Seq<char>>, lvl: int, from: int)
    requires
        0 <= from <= ls.len(),
        forall|j: int| from <= j < ls.len() ==> !closes_section(#[trigger] ls[j], lvl),
    ensures
        section_end(ls, lvl, from) == ls.len(),
    decreases ls.len() - from,
{
    if from < ls.len() {
        lemma_section_end_none(ls, lvl, from + 1);
    }
}

pub proof fn lemma_match_from_bounds(ls: Seq<Seq<char>>, h: Seq<char>, from: int)
    requires
        0 <= from,
    ensures
        match_from(ls, h, from) == -1 || from <= match_from(ls, h, from) < ls.len(),
    decreases ls.len() - from,
{
    if from < ls.len() && !heading_matches(ls[from], h) {
        lemma_match_from_bounds(ls, h, from + 1);
    }
}

/// Whether `s[lo..hi]` is a heading line.
pub fn heading_at(s: &Vec<char>, lo: usize, hi: usize) -> (b: bool)
    requires
        lo <= hi <= s.len(),
    ensures
        b == is_heading(s@.subrange(lo as int, hi as int)),
{
    let (a, b) = trim_bounds(s, lo, hi);
    let r = a < b && s[a] == '#';
    proof {
        if a < b {
            assert(s@.subrange(a as int, b as int)[0] == s@[a as int]);
        }
    }
    r
}

/// Bounds of the heading text of the heading line `s[lo..hi]`.
pub fn heading_text_bounds(s: &Vec<char>, lo: usize, hi: usize) -> (r: (usize, usize))
    requires
        lo <= hi <= s.len(),
    ensures
        r.0 <= r.1 <= s.len(),
        s@.subrange(r.0 as int, r.1 as int) == heading_text(s@.subrange(lo as int, hi as int)),
{
    let (a, b) = trim_bounds(s, lo, hi);
    let mut k = a;
    while k < b && s[k] == '#'
        invariant
            a <= k <= b <= s.len(),
            strip_leading(s@.subrange(a as int, b as int), '#') == strip_leading(
                s@.subrange(k as int, b as int),
                '#',
            ),
        decreases b - k,
    {
        assert(s@.subrange(k as int, b as int).drop_first() =~= s@.subrange(k + 1, b as int));
        k = k + 1;
    }
    proof {
        let u = s@.subrange(k as int, b as int);
        assert(!(u.len() > 0 && u[0] == '#'));
    }
    trim_bounds(s, k, b)
}

/// The level of the line `s[lo..hi]` (see [`heading_level`]).
pub fn heading_level_at(s: &Vec<char>, lo: usize, hi: usize) -> (n: usize)
    requires
        lo <= hi <= s.len(),
    ensures
        n == heading_level(s@.subrange(lo as int, hi as int)),
{
    let (a, b) = trim_bounds(s, lo, hi);
    let mut k = a;
    while k < b && s[k] == '#'
        invariant
            a <= k <= b <= s.len(),
            strip_leading(s@.subrange(a as int, b as int), '#') == strip_leading(s@.subrange(k as int, b as int), '#'),
        decreases b - k,
    {
        assert(s@.subrange(k as int, b as int).drop_first() =~= s@.subrange(k + 1, b as int));
        k = k + 1;
    }
    proof {
        let u = s@.subrange(k as int, b as int);
        assert(!(u.len() > 0 && u[0] == '#'));
        assert(strip_leading(u, '#') == u);
    }
    k - a
}

/// Whether the line `s[lo..hi]` is a heading matching `h`.
pub fn heading_matches_at(s: &Vec<char>, lo: usize, hi: usize, h: &[char]) -> (b: bool)
    requires
        lo <= hi <= s.len(),
    ensures
        b == heading_matches(s@.subrange(lo as int, hi as int), h@),
{
    if !heading_at(s, lo, hi) {
        return false;
    }
    let (a, b) = heading_text_bounds(s, lo, hi);
    eq_ignore_case_at(s, a, b, h)
}

/// Content under the first heading matching `heading` (ASCII case ignored),
/// up to the next heading of the same or a higher level, trimmed; `None`
/// when no heading matches.
pub fn extract_block(content: &str, heading: &str) -> (r: Option<String>)
    ensures
        match block_of(content@, heading@) {
            Some(b) => r matches Some(x) && x@ == b,
            None => r is None,
        },
{
    let s = chars_of(content);
    let h = chars_of(heading);
    extract_block_chars(&s, h.as_slice())
}

/// [`extract_block`] on character buffers.
pub fn extract_block_chars(s: &Vec<char>, h: &[char]) -> (r: Option<String>)
    ensures
        match block_of(s@, h@) {
            Some(b) => r matches Some(x) && x@ == b,
            None => r is None,
        },
{
    let r = line_ranges(s);
    let ghost ls = range_texts(s@, r@);
    let mut i: usize = 0;
    while i < r.len()
        invariant
            i <= r.len(),
            ranges_in(s@, r@),
            ls == range_texts(s@, r@),
            match_from(ls, h@, 0) == match_from(ls, h@, i as int),
        ensures
            i <= r.len(),
            match_from(ls, h@, 0) == (if i < r.len() {
                i as int
            } else {
                -1
            }),
        decreases r.len() - i,
    {
        let (lo, hi) = r[i];
        proof {
            assert(r@[i as int].0 <= r@[i as int].1 <= s@.len());
        }
        if heading_matches_at(s, lo, hi, h) {
            break;
        }
        i = i + 1;
    }
    if i == r.len() {
        return None;
    }
    let (lo0, hi0) = r[i];
    proof {
        assert(r@[i as int].0 <= r@[i as int].1 <= s@.len());
    }
    let lvl = heading_level_at(s, lo0, hi0);
    let ghost g = lvl as int;
    assert(g == heading_level(ls[i as int]));
    let mut j: usize = i + 1;
    while j < r.len()
        invariant
            i < j <= r.len(),
            ranges_in(s@, r@),
            ls == range_texts(s@, r@),
            g == lvl,
            section_end(ls, g, i + 1) == section_end(ls, g, j as int),
        ensures
            i < j <= r.len(),
            section_end(ls, g, i + 1) == j,
        decreases r.len() - j,
    {
        let (lo, hi) = r[j];
        proof {
            assert(r@[j as int].0 <= r@[j as int].1 <= s@.len());
        }
        if heading_at(s, lo, hi) && heading_level_at(s, lo, hi) <= lvl {
            break;
        }
        j = j + 1;
    }
    let nl = ['\n'];
    let joined = join_ranges(s, &r, i + 1, j, &nl);
    let (a, b) = trim_bounds(&joined, 0, joined.len());
    proof {
        assert(nl@ =~= seq!['\n']);
        assert(joined@.subrange(0, joined@.len() as int) =~= joined@);
    }
    Some(string_of_range(&joined, a, b))
}

/// The heading prefix of a level: `level` `#`s and a space.
pub open spec fn level_prefix(level: nat) -> Seq<char> {
    Seq::new(level, |i: int| '#').push(' ')
}

/// Scan state of `extract_headings`: past any leading blank lines, inside a
/// leading frontmatter block, headings found so far.
pub struct HeadingScan {
    pub started: bool,
    pub in_fm: bool,
    pub found: Seq<Seq<char>>,
}

/// One line of `extract_headings`.
pub open spec fn heading_step(st: HeadingScan, line: Seq<char>, prefix: Seq<char>) -> HeadingScan {
    let t = trim(line);
    if !st.started && t == fence() {
        HeadingScan { started: true, in_fm: true, found: st.found }
    } else if !st.started && t.len() == 0 {
        st
    } else if st.in_fm {
        HeadingScan { started: true, in_fm: t != fence(), found: st.found }
    } else if starts_with(t, prefix) && !(t.len() > prefix.len() && t[prefix.len() as int] == '#') {
        HeadingScan { started: true, in_fm: false, found: st.found.push(trim(t.skip(prefix.len() as int))) }
    } else {
        HeadingScan { started: true, in_fm: false, found: st.found }
    }
}

pub open spec fn heading_scan(ls: Seq<Seq<char>>, prefix: Seq<char>) -> HeadingScan
    decreases ls.len(),
{
    if ls.len() == 0 {
        HeadingScan { started: false, in_fm: false, found: Seq::empty() }
    } else {
        heading_step(heading_scan(ls.drop_last(), prefix), ls.last(), prefix)
    }
}

/// What `extract_headings` returns: the texts of the headings of exactly
/// that level, outside a leading frontmatter block, in order.
pub open spec fn headings_of(content: Seq<char>, level: nat) -> Seq<Seq<char>> {
    heading_scan(lines(content), level_prefix(level)).found
}

/// A heading of exactly `level`: its trimmed text starts with `level` `#`s
/// and a space, and no further `#` follows them.
pub open spec fn is_level_heading(line: Seq<char>, level: nat) -> bool {
    let t = trim(line);
    let p = level_prefix(level);
    &&& starts_with(t, p)
    &&& !(t.len() > p.len() && t[p.len() as int] == '#')
}

/// The text of such a heading: what follows the `#`s and the space, trimmed.
pub open spec fn level_heading_text(line: Seq<char>, level: nat) -> Seq<char> {
    trim(trim(line).skip(level_prefix(level).len() as int))
}

/// The texts of the headings of exactly `level` among `ls`, in order.
pub open spec fn level_heading_texts(ls: Seq<Seq<char>>, level: nat) -> Seq<Seq<char>>
    decreases ls.len(),
{
    if ls.len() == 0 {
        Seq::empty()
    } else if is_level_heading(ls.last(), level) {
        level_heading_texts(ls.drop_last(), level).push(level_heading_text(ls.last(), level))
    } else {
        level_heading_texts(ls.drop_last(), level)
    }
}

/// Index of the first line at or after `from` that is not blank, or
/// `ls.len()`.
pub open spec fn first_filled(ls: Seq<Seq<char>>, from: int) -> int
    decreases ls.len() - from,
{
    if from < 0 || from >= ls.len() {
        ls.len() as int
    } else if trim(ls[from]).len() > 0 {
        from
    } else {
        first_filled(ls, from + 1)
    }
}

/// Where the body of a document's lines starts: after a frontmatter block
/// that opens it (its first non-blank line a `---`, up to and including the
/// next `---` line; the whole rest when none closes it), else at its first
/// non-blank line.
pub open spec fn body_start(ls: Seq<Seq<char>>) -> int {
    let f = first_filled(ls, 0);
    if f < ls.len() && is_fence_line(ls[f]) {
        let e = fence_from(ls, f + 1);
        if e < 0 {
            ls.len() as int
        } else {
            e + 1
        }
    } else {
        f
    }
}

proof fn lemma_first_filled_props(ls: Seq<Seq<char>>, from: int)
    requires
        0 <= from <= ls.len(),
    ensures
        from <= first_filled(ls, from) <= ls.len(),
        forall|j: int| from <= j < first_filled(ls, from) ==> trim(#[trigger] ls[j]).len() == 0,
        first_filled(ls, from) < ls.len() ==> trim(ls[first_filled(ls, from)]).len() > 0,
    decreases ls.len() - from,
{
    if from < ls.len() && trim(ls[from]).len() == 0 {
        lemma_first_filled_props(ls, from + 1);
    }
}

proof fn lemma_fence_from_props(ls: Seq<Seq<char>>, from: int)
    requires
        0 <= from,
    ensures
        fence_from(ls, from) == -1 || from <= fence_from(ls, from) < ls.len(),
        fence_from(ls, from) >= 0 ==> is_fence_line(ls[fence_from(ls, from)]),
        forall|j: int| from <= j < ls.len() && (fence_from(ls, from) < 0 || j < fence_from(ls, from))
            ==> !is_fence_line(#[trigger] ls[j]),
    decreases ls.len() - from,
{
    if from < ls.len() && !is_fence_line(ls[from]) {
        lemma_fence_from_props(ls, from + 1);
    }
}

/// The scan of `extract_headings` after the first `k` lines: nothing before
/// the first non-blank line; inside an opening frontmatter block nothing is
/// listed; after it (or from the first non-blank line when there is none)
/// the headings of the level so far.
#[verifier::spinoff_prover]
#[verifier::rlimit(60)]
proof fn lemma_heading_scan_prefix(ls: Seq<Seq<char>>, level: nat, k: int)
    requires
        0 <= k <= ls.len(),
    ensures
        ({
            let st = heading_scan(ls.take(k), level_prefix(level));
            let f = first_filled(ls, 0);
            let e = fence_from(ls, f + 1);
            let fm = f < ls.len() && is_fence_line(ls[f]);
            &&& k <= f ==> st == (HeadingScan { started: false, in_fm: false, found: Seq::empty() })
            &&& f < k && fm && (e < 0 || k <= e) ==> st == (HeadingScan { started: true, in_fm: true, found: Seq::empty() })
            &&& f < k && fm && 0 <= e < k ==> st == (HeadingScan {
                started: true,
                in_fm: false,
                found: level_heading_texts(ls.subrange(e + 1, k), level),
            })
            &&& f < k && !fm ==> st == (HeadingScan {
                started: true,
                in_fm: false,
                found: level_heading_texts(ls.subrange(f, k), level),
            })
        }),
    decreases k,
{
    let p = level_prefix(level);
    let f = first_filled(ls, 0);
    lemma_first_filled_props(ls, 0);
    let e = fence_from(ls, f + 1);
    lemma_fence_from_props(ls, f + 1);
    let fm = f < ls.len() && is_fence_line(ls[f]);
    if k == 0 {
        assert(ls.take(0) =~= Seq::<Seq<char>>::empty());
    } else {
        lemma_heading_scan_prefix(ls, level, k - 1);
        let x = ls[k - 1];
        assert(ls.take(k).drop_last() =~= ls.take(k - 1));
        assert(ls.take(k).last() == x);
        let prev = heading_scan(ls.take(k - 1), p);
        assert(heading_scan(ls.take(k), p) == heading_step(prev, x, p));
        let t = trim(x);
        let st = heading_scan(ls.take(k), p);
        if k - 1 < f {
            assert(t.len() == 0);
            assert(t != fence());
            assert(st == prev);
        } else if k - 1 == f {
            assert(t.len() > 0);
            assert(prev == (HeadingScan { started: false, in_fm: false, found: Seq::empty() }));
            if fm {
                assert(t == fence());
                assert(st == (HeadingScan { started: true, in_fm: true, found: Seq::<Seq<char>>::empty() }));
            } else {
                assert(t != fence());
                let w = ls.subrange(f, k);
                assert(w.drop_last() =~= Seq::<Seq<char>>::empty());
                assert(w.last() == x);
                assert(level_heading_texts(w.drop_last(), level) =~= Seq::<Seq<char>>::empty());
                assert(st.found == level_heading_texts(w, level));
            }
        } else {
            let a = if fm { e + 1 } else { f };
            if fm && (e < 0 || k - 1 < e) {
                assert(!is_fence_line(x));
                assert(prev.in_fm && prev.started);
                assert(st == prev);
            } else if fm && k - 1 == e {
                assert(is_fence_line(x));
                assert(prev.in_fm && prev.started);
                assert(ls.subrange(e + 1, k) =~= Seq::<Seq<char>>::empty());
                assert(st.found == prev.found);
            } else {
                assert(!prev.in_fm && prev.started);
                assert(prev.found == level_heading_texts(ls.subrange(a, k - 1), level));
                let w = ls.subrange(a, k);
                assert(w.drop_last() =~= ls.subrange(a, k - 1));
                assert(w.last() == x);
                assert(st.found == level_heading_texts(w, level));
            }
        }
    }
}

/// Law of heading listing: the headings `extract_headings` lists are all
/// the lines of the body (what follows a frontmatter block that opens the
/// document) that are headings of exactly the level, with their texts, in
/// order, whatever other lines (a `---` rule among them) the body holds.
pub proof fn lemma_headings_listed(content: Seq<char>, level: nat)
    ensures
        headings_of(content, level) == level_heading_texts(lines(content).skip(body_start(lines(content))), level),
{
    let ls = lines(content);
    lemma_heading_scan_prefix(ls, level, ls.len() as int);
    assert(ls.take(ls.len() as int) =~= ls);
    lemma_first_filled_props(ls, 0);
    let f = first_filled(ls, 0);
    lemma_fence_from_props(ls, f + 1);
    let b = body_start(ls);
    assert(ls.skip(b) =~= ls.subrange(b, ls.len() as int));
    if b == ls.len() {
        assert(ls.skip(b) =~= Seq::<Seq<char>>::empty());
    }
}

pub(crate) fn prefix_of_level(level: usize) -> (p: Vec<char>)
    ensures
        p@ == level_prefix(level as nat),
{
    let mut p: Vec<char> = Vec::new();
    let mut k: usize = 0;
    while k < level
        invariant
            k <= level,
            p@ == Seq::new(k as nat, |i: int| '#'),
        decreases level - k,
    {
        p.push('#');
        k = k + 1;
        assert(p@ =~= Seq::new(k as nat, |i: int| '#'));
    }
    p.push(' ');
    p
}

/// Texts of the headings of level `level` (`## ` for 2), skipping a leading
/// frontmatter block.
pub fn extract_headings(content: &str, level: usize) -> (r: Vec<String>)
    ensures
        r@.map_values(|x: String| x@) == headings_of(content@, level as nat),
{
    let s = chars_of(content);
    let prefix = prefix_of_level(level);
    let r = line_ranges(&s);
    let ghost ls = range_texts(s@, r@);
    let mut out: Vec<String> = Vec::new();
    let mut started = false;
    let mut in_fm = false;
    let mut i: usize = 0;
    proof {
        assert(ls.take(0).len() == 0);
        assert(out@.map_values(|x: String| x@) =~= Seq::<Seq<char>>::empty());
    }
    while i < r.len()
        invariant
            i <= r.len(),
            ranges_in(s@, r@),
            ls == range_texts(s@, r@),
            prefix@ == level_prefix(level as nat),
            heading_scan(ls.take(i as int), prefix@) == (HeadingScan {
                started,
                in_fm,
                found: out@.map_values(|x: String| x@),
            }),
        decreases r.len() - i,
    {
        let (lo, hi) = r[i];
        proof {
            assert(r@[i as int].0 <= r@[i as int].1 <= s@.len());
            assert(ls.take(i + 1).drop_last() =~= ls.take(i as int));
            assert(ls.take(i + 1).last() == s@.subrange(lo as int, hi as int));
        }
        let ghost line = s@.subrange(lo as int, hi as int);
        let (a, b) = trim_bounds(&s, lo, hi);
        let ghost t = s@.subrange(a as int, b as int);
        let is_fence = fence_at(&s, lo, hi);
        if !started && is_fence {
            started = true;
            in_fm = true;
        } else if !started && a == b {
        } else if in_fm {
            started = true;
            in_fm = !is_fence;
        } else {
            started = true;
            let pl = prefix.len();
            if has_prefix_at(&s, a, b, prefix.as_slice()) && !(b - a > pl && s[a + pl] == '#') {
                let (ha, hb) = trim_bounds(&s, a + pl, b);
                let ghost before = out@;
                out.push(string_of_range(&s, ha, hb));
                proof {
                    assert(t.skip(pl as int) =~= s@.subrange(a + pl, b as int));
                    assert(out@.map_values(|x: String| x@) =~= before.map_values(|x: String| x@).push(
                        trim(t.skip(pl as int)),
                    ));
                }
            } else {
                proof {
                    if b - a > pl {
                        assert(t[pl as int] == s@[a + pl]);
                    }
                }
            }
        }
        i = i + 1;
    }
    proof {
        assert(ls.take(r@.len() as int) =~= ls);
    }
    out
}

/// Scan state of `upsert_block`.
pub struct UpsertScan {
    pub out: Seq<Seq<char>>,
    pub skipping: bool,
    pub written: bool,
}

/// One line of `upsert_block`: a heading matching `h` is kept and followed by
/// `c`, and the old lines under it are dropped up to the next heading.
pub open spec fn upsert_step(st: UpsertScan, line: Seq<char>, h: Seq<char>, c: Seq<char>) -> UpsertScan {
    if is_heading(line) {
        if heading_matches(line, h) {
            UpsertScan { out: st.out.push(line).push(c), skipping: true, written: true }
        } else {
            UpsertScan { out: st.out.push(line), skipping: false, written: st.written }
        }
    } else if st.skipping {
        st
    } else {
        UpsertScan { out: st.out.push(line), skipping: false, written: st.written }
    }
}

pub open spec fn upsert_scan(ls: Seq<Seq<char>>, h: Seq<char>, c: Seq<char>) -> UpsertScan
    decreases ls.len(),
{
    if ls.len() == 0 {
        UpsertScan { out: Seq::empty(), skipping: false, written: false }
    } else {
        upsert_step(upsert_scan(ls.drop_last(), h, c), ls.last(), h, c)
    }
}

/// The lines of `upsert_block`'s result: the scanned lines, and when no
/// heading matched, a blank separator (after a non-blank last line), a new
/// heading of `level` and `c`.
pub open spec fn upserted_lines(body: Seq<char>, h: Seq<char>, c: Seq<char>, level: nat) -> Seq<
    Seq<char>,
> {
    let st = upsert_scan(lines(body), h, c);
    if st.written {
        st.out
    } else {
        let o = if st.out.len() > 0 && st.out.last().len() > 0 {
            st.out.push(Seq::empty())
        } else {
            st.out
        };
        o.push(level_prefix(level) + h).push(c)
    }
}

/// The lines of `s` run through [`upsert_scan`], joined with newlines; with
/// whether any line was kept, whether the last kept one is empty, and
/// whether a heading matched.
#[verifier::rlimit(40)]
pub(crate) fn scan_upsert(s: &Vec<char>, h: &[char], c: &[char]) -> (r: (Vec<char>, bool, bool, bool))
    ensures
        r.0@ == join(upsert_scan(lines(s@), h@, c@).out, seq!['\n']),
        r.1 == (upsert_scan(lines(s@), h@, c@).out.len() > 0),
        r.2 == (upsert_scan(lines(s@), h@, c@).out.len() > 0 && upsert_scan(lines(s@), h@, c@).out.last().len() == 0),
        r.3 == upsert_scan(lines(s@), h@, c@).written,
{
    let nl = ['\n'];
    let r = line_ranges(s);
    let ghost ls = range_texts(s@, r@);
    let mut buf: Vec<char> = Vec::new();
    let mut count = false;
    let mut last_empty = false;
    let mut skipping = false;
    let mut written = false;
    let ghost mut outl: Seq<Seq<char>> = Seq::empty();
    let mut i: usize = 0;
    proof {
        assert(nl@ =~= seq!['\n']);
        assert(ls.take(0).len() == 0);
    }
    while i < r.len()
        invariant
            i <= r.len(),
            ranges_in(s@, r@),
            ls == range_texts(s@, r@),
            nl@ == seq!['\n'],
            upsert_scan(ls.take(i as int), h@, c@) == (UpsertScan { out: outl, skipping, written }),
            buf@ == join(outl, seq!['\n']),
            count == (outl.len() > 0),
            last_empty == (outl.len() > 0 && outl.last().len() == 0),
        decreases r.len() - i,
    {
        let (lo, hi) = r[i];
        proof {
            assert(r@[i as int].0 <= r@[i as int].1 <= s@.len());
            assert(ls.take(i + 1).drop_last() =~= ls.take(i as int));
            assert(ls.take(i + 1).last() == s@.subrange(lo as int, hi as int));
        }
        let ghost line = s@.subrange(lo as int, hi as int);
        let mut lv: Vec<char> = Vec::new();
        push_range(&mut lv, s, lo, hi);
        assert(lv@ =~= line);
        if heading_at(s, lo, hi) {
            skipping = false;
            if heading_matches_at(s, lo, hi, h) {
                push_joined(&mut buf, count, lv.as_slice(), &nl, Ghost(outl));
                proof { outl = outl.push(line); }
                count = true;
                push_joined(&mut buf, count, c, &nl, Ghost(outl));
                proof { outl = outl.push(c@); }
                count = true;
                last_empty = c.len() == 0;
                skipping = true;
                written = true;
            } else {
                push_joined(&mut buf, count, lv.as_slice(), &nl, Ghost(outl));
                proof { outl = outl.push(line); }
                count = true;
                last_empty = lv.len() == 0;
            }
        } else if !skipping {
            push_joined(&mut buf, count, lv.as_slice(), &nl, Ghost(outl));
            proof { outl = outl.push(line); }
            count = true;
            last_empty = lv.len() == 0;
        }
        i = i + 1;
    }
    proof {
        assert(ls.take(r@.len() as int) =~= ls);
    }
    (buf, count, last_empty, written)
}

/// Replaces the block under heading `heading` (ASCII case ignored) with
/// `content`, or appends a new `level` heading with `content`.
pub fn upsert_block(body: &str, heading: &str, content: &str, level: usize) -> (r: String)
    ensures
        r@ == join(upserted_lines(body@, heading@, content@, level as nat), seq!['\n']),
{
    let s = chars_of(body);
    let h = chars_of(heading);
    let c = chars_of(content);
    let nl = ['\n'];
    proof {
        assert(nl@ =~= seq!['\n']);
    }
    let (mut buf, mut count, last_empty, written) = scan_upsert(&s, h.as_slice(), c.as_slice());
    let ghost mut outl: Seq<Seq<char>> = upsert_scan(lines(body@), heading@, content@).out;
    if !written {
        if count && !last_empty {
            let empty: Vec<char> = Vec::new();
            push_joined(&mut buf, count, empty.as_slice(), &nl, Ghost(outl));
            proof { outl = outl.push(Seq::empty()); }
            count = true;
        }
        let mut head = prefix_of_level(level);
        push_slice(&mut head, h.as_slice());
        push_joined(&mut buf, count, head.as_slice(), &nl, Ghost(outl));
        proof { outl = outl.push(level_prefix(level as nat) + h@); }
        count = true;
        push_joined(&mut buf, count, c.as_slice(), &nl, Ghost(outl));
        proof { outl = outl.push(c@); }
    }
    string_from(buf.as_slice())
}

/// Scan state of `deduplicate`.
pub struct DedupScan {
    pub out: Seq<Seq<char>>,
    pub seen: Set<Seq<char>>,
    pub skipping: bool,
    pub in_yaml: bool,
}

/// One line of `deduplicate`: `---` lines toggle a frontmatter region kept as
/// is; outside it a heading already seen (lowercased text) starts a dropped
/// block, a new heading is kept and remembered.
pub open spec fn dedup_step(st: DedupScan, line: Seq<char>) -> DedupScan {
    let t = trim(line);
    if t == fence() {
        DedupScan { out: st.out.push(line), seen: st.seen, skipping: st.skipping, in_yaml: !st.in_yaml }
    } else if st.in_yaml {
        DedupScan { out: st.out.push(line), ..st }
    } else if is_heading(line) {
        let k = unicode_lower(heading_text(line));
        if st.seen.contains(k) {
            DedupScan { skipping: true, ..st }
        } else {
            DedupScan { out: st.out.push(line), seen: st.seen.insert(k), skipping: false, in_yaml: false }
        }
    } else if !st.skipping {
        DedupScan { out: st.out.push(line), ..st }
    } else {
        st
    }
}

pub open spec fn dedup_scan(ls: Seq<Seq<char>>) -> DedupScan
    decreases ls.len(),
{
    if ls.len() == 0 {
        DedupScan { out: Seq::empty(), seen: Set::empty(), skipping: false, in_yaml: false }
    } else {
        dedup_step(dedup_scan(ls.drop_last()), ls.last())
    }
}

/// What `deduplicate` returns.
pub open spec fn deduplicated(content: Seq<char>) -> Seq<char> {
    join(dedup_scan(lines(content)).out, seq!['\n'])
}

/// Removes repeated heading blocks outside frontmatter, keeping the first.
pub fn deduplicate(content: &str) -> (r: String)
    ensures
        r@ == deduplicated(content@),
{
    let s = chars_of(content);
    deduplicate_chars(&s)
}

/// [`deduplicate`] on a character buffer.
pub fn deduplicate_chars(s: &Vec<char>) -> (r: String)
    ensures
        r@ == deduplicated(s@),
{
    let nl = ['\n'];
    let r = line_ranges(s);
    let ghost ls = range_texts(s@, r@);
    let mut buf: Vec<char> = Vec::new();
    let mut count = false;
    let mut seen: Vec<Vec<char>> = Vec::new();
    let mut skipping = false;
    let mut in_yaml = false;
    let ghost mut outl: Seq<Seq<char>> = Seq::empty();
    let mut i: usize = 0;
    proof {
        assert(nl@ =~= seq!['\n']);
        assert(ls.take(0).len() == 0);
        assert(views(seen@).to_set() =~= Set::<Seq<char>>::empty());
    }
    while i < r.len()
        invariant
            i <= r.len(),
            ranges_in(s@, r@),
            ls == range_texts(s@, r@),
            nl@ == seq!['\n'],
            dedup_scan(ls.take(i as int)) == (DedupScan {
                out: outl,
                seen: views(seen@).to_set(),
                skipping,
                in_yaml,
            }),
            buf@ == join(outl, seq!['\n']),
            count == (outl.len() > 0),
        decreases r.len() - i,
    {
        let (lo, hi) = r[i];
        proof {
            assert(r@[i as int].0 <= r@[i as int].1 <= s@.len());
            assert(ls.take(i + 1).drop_last() =~= ls.take(i as int));
            assert(ls.take(i + 1).last() == s@.subrange(lo as int, hi as int));
        }
        let ghost line = s@.subrange(lo as int, hi as int);
        let mut lv: Vec<char> = Vec::new();
        push_range(&mut lv, s, lo, hi);
        assert(lv@ =~= line);
        if fence_at(s, lo, hi) {
            push_joined(&mut buf, count, lv.as_slice(), &nl, Ghost(outl));
            proof { outl = outl.push(line); }
            count = true;
            in_yaml = !in_yaml;
        } else if in_yaml {
            push_joined(&mut buf, count, lv.as_slice(), &nl, Ghost(outl));
            proof { outl = outl.push(line); }
            count = true;
        } else if heading_at(s, lo, hi) {
            let (ta, tb) = heading_text_bounds(s, lo, hi);
            let mut tv: Vec<char> = Vec::new();
            push_range(&mut tv, s, ta, tb);
            let key = lowercase_chars(tv.as_slice());
            let mut found = false;
            let mut k: usize = 0;
            while k < seen.len()
                invariant
                    k <= seen.len(),
                    found == exists|m: int| 0 <= m < k && seen@[m]@ == key@,
                decreases seen.len() - k,
            {
                if same_chars(seen[k].as_slice(), key.as_slice()) {
                    found = true;
                }
                k = k + 1;
            }
            proof {
                if found {
                    let m = choose|m: int| 0 <= m < seen@.len() && seen@[m]@ == key@;
                    assert(views(seen@)[m] == key@);
                    assert(views(seen@).to_set().contains(key@));
                } else {
                    if views(seen@).to_set().contains(key@) {
                        let m = choose|m: int| 0 <= m < views(seen@).len() && views(seen@)[m] == key@;
                        assert(seen@[m]@ == key@);
                    }
                }
            }
            if found {
                skipping = true;
            } else {
                let ghost before = seen@;
                seen.push(key);
                proof {
                    assert(views(seen@) =~= views(before).push(key@));
                    assert(views(seen@).to_set() =~= views(before).to_set().insert(key@)) by {
                        views(before).lemma_push_to_set_commute(key@);
                    }
                }
                skipping = false;
                push_joined(&mut buf, count, lv.as_slice(), &nl, Ghost(outl));
                proof { outl = outl.push(line); }
                count = true;
            }
        } else if !skipping {
            push_joined(&mut buf, count, lv.as_slice(), &nl, Ghost(outl));
            proof { outl = outl.push(line); }
            count = true;
        }
        i = i + 1;
    }
    proof {
        assert(ls.take(r@.len() as int) =~= ls);
    }
    string_from(buf.as_slice())
}

// ---------------------------------------------------------------------------
// facts used by the laws of the store
// ---------------------------------------------------------------------------

pub proof fn lemma_match_from_at(ls: Seq<Seq<char>>, h: Seq<char>, from: int, k: int)
    requires
        0 <= from <= k < ls.len(),
        forall|j: int| from <= j < k ==> !heading_matches(#[trigger] ls[j], h),
        heading_matches(ls[k], h),
    ensures
        match_from(ls, h, from) == k,
    decreases k - from,
{
    if from < k {
        lemma_match_from_at(ls, h, from + 1, k);
    }
}

} // verus!
