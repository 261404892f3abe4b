//! Why a block written into a document reads back: the facts about heading
//! search, block replacement, deduplication and frontmatter that the
//! read-after-write laws of the knowledge base rest on, and the form a
//! write leaves a document in.

use vstd::prelude::*;

use crate::okf::frontmatter::{
    apply_line, entry_text, entry_texts, fence, fence_from, is_fence_line, lemma_fence_from_at, lemma_serialized_lines, parse_lines,
    serialized, set_entry, split_spec, Entries,
};
use crate::okf::markdown::{
    block_of, closes_section, dedup_scan, dedup_step, deduplicated, heading_from, heading_level, heading_matches, heading_text,
    is_heading, level_prefix, lemma_section_end_at, lemma_section_end_none, lemma_section_end_props, match_from, section_end,
    upserted_lines, upsert_scan, upsert_step,
};
use crate::text::{
    find, is_plain_line, is_ws, join, lemma_join_lines, lemma_lines_join, lemma_nl_index_props, lemma_trim_newline, lines,
    ltrim, nl_index, occurs_at, rtrim, strip_cr, strip_leading, trim, unicode_lower, eq_ignore_ascii_case,
};

verus! {

/// [`block_of`] on the lines of a document.
pub open spec fn block_in(ls: Seq<Seq<char>>, h: Seq<char>) -> Option<Seq<char>> {
    let i = match_from(ls, h, 0);
    if i < 0 {
        None
    } else {
        Some(trim(join(ls.subrange(i + 1, section_end(ls, heading_level(ls[i]), i + 1)), seq!['\n'])))
    }
}

/// The heading that ends the lines a write under `h` replaces (the next
/// heading after the first one matching `h`), if there is one, is no deeper
/// than the matching heading; so a read of `h` stops there too.
pub open spec fn block_closed(ls: Seq<Seq<char>>, h: Seq<char>) -> bool {
    let i = match_from(ls, h, 0);
    let j = heading_from(ls, i + 1);
    i >= 0 && j < ls.len() ==> heading_level(ls[j]) <= heading_level(ls[i])
}

proof fn lemma_match_from_right(pre: Seq<Seq<char>>, ls: Seq<Seq<char>>, h: Seq<char>, from: int)
    requires
        pre.len() <= from <= pre.len() + ls.len(),
    ensures
        match_from(pre + ls, h, from) == (if match_from(ls, h, from - pre.len()) < 0 {
            -1
        } else {
            pre.len() + match_from(ls, h, from - pre.len())
        }),
    decreases pre.len() + ls.len() - from,
{
    let all = pre + ls;
    if from < all.len() {
        assert(all[from] == ls[from - pre.len()]);
        lemma_match_from_right(pre, ls, h, from + 1);
    }
}

proof fn lemma_match_from_left(pre: Seq<Seq<char>>, ls: Seq<Seq<char>>, h: Seq<char>, from: int)
    requires
        0 <= from <= pre.len(),
        forall|j: int| 0 <= j < pre.len() ==> !heading_matches(#[trigger] pre[j], h),
    ensures
        match_from(pre + ls, h, from) == match_from(pre + ls, h, pre.len() as int),
    decreases pre.len() - from,
{
    if from < pre.len() {
        assert((pre + ls)[from] == pre[from]);
        lemma_match_from_left(pre, ls, h, from + 1);
    }
}

proof fn lemma_section_end_right(pre: Seq<Seq<char>>, ls: Seq<Seq<char>>, lvl: int, from: int)
    requires
        pre.len() <= from <= pre.len() + ls.len(),
    ensures
        section_end(pre + ls, lvl, from) == pre.len() + section_end(ls, lvl, from - pre.len()),
    decreases pre.len() + ls.len() - from,
{
    let all = pre + ls;
    if from < all.len() {
        assert(all[from] == ls[from - pre.len()]);
        lemma_section_end_right(pre, ls, lvl, from + 1);
    }
}

/// Lines without a matching heading in front of a document do not change
/// the block that a read finds.
pub proof fn lemma_block_shift(pre: Seq<Seq<char>>, ls: Seq<Seq<char>>, h: Seq<char>)
    requires
        forall|j: int| 0 <= j < pre.len() ==> !heading_matches(#[trigger] pre[j], h),
    ensures
        block_in(pre + ls, h) == block_in(ls, h),
{
    let all = pre + ls;
    lemma_match_from_left(pre, ls, h, 0);
    lemma_match_from_right(pre, ls, h, pre.len() as int);
    let i = match_from(ls, h, 0);
    if i >= 0 {
        crate::okf::markdown::lemma_match_from_bounds(ls, h, 0);
        let k = pre.len() + i;
        assert(all[k] == ls[i]);
        let lvl = heading_level(ls[i]);
        lemma_section_end_right(pre, ls, lvl, k + 1);
        lemma_section_end_props(ls, lvl, i + 1);
        let e = section_end(ls, lvl, i + 1);
        assert(all.subrange(k + 1, pre.len() + e) =~= ls.subrange(i + 1, e));
    }
}

/// The key under which deduplication knows a heading: its lowercased text.
pub open spec fn heading_key(l: Seq<char>) -> Seq<char> {
    unicode_lower(heading_text(l))
}

/// No two headings share a key.
pub open spec fn keys_distinct(ls: Seq<Seq<char>>) -> bool {
    forall|j: int, k: int|
        #![trigger ls[j], ls[k]]
        0 <= j < k < ls.len() && is_heading(ls[j]) && is_heading(ls[k]) ==> heading_key(ls[j]) != heading_key(ls[k])
}

/// Some heading has key `k`.
pub open spec fn has_key(ls: Seq<Seq<char>>, k: Seq<char>) -> bool {
    exists|j: int| 0 <= j < ls.len() && is_heading(#[trigger] ls[j]) && heading_key(ls[j]) == k
}

/// Deduplication leaves lines whose headings have distinct keys as they are.
#[verifier::spinoff_prover]
#[verifier::rlimit(40)]
pub proof fn lemma_dedup_identity(ls: Seq<Seq<char>>)
    requires
        keys_distinct(ls),
    ensures
        dedup_scan(ls).out == ls,
        !dedup_scan(ls).skipping,
        forall|k: Seq<char>| dedup_scan(ls).seen.contains(k) ==> #[trigger] has_key(ls, k),
    decreases ls.len(),
{
    if ls.len() > 0 {
        let init = ls.drop_last();
        let x = ls.last();
        assert forall|j: int, k: int|
            #![trigger init[j], init[k]]
            0 <= j < k < init.len() && is_heading(init[j]) && is_heading(init[k]) implies heading_key(init[j]) != heading_key(init[k]) by {
            assert(init[j] == ls[j] && init[k] == ls[k]);
        }
        lemma_dedup_identity(init);
        let prev = dedup_scan(init);
        if is_heading(x) {
            assert(!prev.seen.contains(heading_key(x))) by {
                if prev.seen.contains(heading_key(x)) {
                    assert(has_key(init, heading_key(x)));
                    let j = choose|j: int| 0 <= j < init.len() && is_heading(#[trigger] init[j]) && heading_key(init[j]) == heading_key(x);
                    assert(init[j] == ls[j]);
                    assert(is_heading(ls[j]) && is_heading(ls[ls.len() - 1]));
                }
            }
        }
        assert(dedup_scan(ls) == dedup_step(prev, x));
        assert(init.push(x) =~= ls);
        assert forall|k: Seq<char>| dedup_scan(ls).seen.contains(k) implies #[trigger] has_key(ls, k) by {
            if prev.seen.contains(k) {
                assert(has_key(init, k));
                let j = choose|j: int| 0 <= j < init.len() && is_heading(#[trigger] init[j]) && heading_key(init[j]) == k;
                assert(init[j] == ls[j]);
            } else {
                assert(is_heading(x) && heading_key(x) == k);
                assert(ls[ls.len() - 1] == x);
            }
        }
    }
}

proof fn lemma_heading_from_props(ls: Seq<Seq<char>>, from: int)
    requires
        0 <= from <= ls.len(),
    ensures
        from <= heading_from(ls, from) <= ls.len(),
        forall|m: int| from <= m < heading_from(ls, from) ==> !is_heading(#[trigger] ls[m]),
        heading_from(ls, from) < ls.len() ==> is_heading(ls[heading_from(ls, from)]),
    decreases ls.len() - from,
{
    if from < ls.len() && !is_heading(ls[from]) {
        lemma_heading_from_props(ls, from + 1);
    }
}

/// Block replacement in lines with no heading matching: nothing changes.
proof fn lemma_upsert_no_match(ls: Seq<Seq<char>>, h: Seq<char>, c: Seq<char>)
    requires
        forall|j: int| 0 <= j < ls.len() ==> !heading_matches(#[trigger] ls[j], h),
    ensures
        upsert_scan(ls, h, c).out == ls,
        !upsert_scan(ls, h, c).written,
        !upsert_scan(ls, h, c).skipping,
    decreases ls.len(),
{
    if ls.len() > 0 {
        let init = ls.drop_last();
        assert forall|j: int| 0 <= j < init.len() implies !heading_matches(#[trigger] init[j], h) by {
            assert(init[j] == ls[j]);
        }
        lemma_upsert_no_match(init, h, c);
        assert(!heading_matches(ls[ls.len() - 1], h));
        assert(init.push(ls.last()) =~= ls);
    }
}

/// Block replacement state after the first `k` lines when exactly the line
/// `i0` matches: before it nothing changes; after it the old block is
/// skipped up to the next heading, from where lines are kept again.
#[verifier::spinoff_prover]
#[verifier::rlimit(40)]
proof fn lemma_upsert_prefix(ls: Seq<Seq<char>>, h: Seq<char>, c: Seq<char>, i0: int, k: int)
    requires
        0 <= i0 < ls.len(),
        0 <= k <= ls.len(),
        heading_matches(ls[i0], h),
        forall|j: int| 0 <= j < ls.len() && j != i0 ==> !heading_matches(#[trigger] ls[j], h),
    ensures
        ({
            let st = upsert_scan(ls.take(k), h, c);
            let j1 = heading_from(ls, i0 + 1);
            &&& k <= i0 ==> st.out == ls.take(k) && !st.skipping && !st.written
            &&& i0 < k <= j1 ==> st.out == ls.take(i0 + 1).push(c) && st.skipping && st.written
            &&& j1 < k ==> st.out == ls.take(i0 + 1).push(c) + ls.subrange(j1, k) && !st.skipping && st.written
        }),
    decreases k,
{
    lemma_heading_from_props(ls, i0 + 1);
    let j1 = heading_from(ls, i0 + 1);
    if k == 0 {
        assert(ls.take(0) =~= Seq::<Seq<char>>::empty());
    } else {
        lemma_upsert_prefix(ls, h, c, i0, k - 1);
        let x = ls[k - 1];
        assert(ls.take(k).drop_last() =~= ls.take(k - 1));
        assert(ls.take(k).last() == x);
        let prev = upsert_scan(ls.take(k - 1), h, c);
        assert(upsert_scan(ls.take(k), h, c) == upsert_step(prev, x, h, c));
        if k - 1 < i0 {
            assert(!heading_matches(x, h));
            assert(ls.take(k - 1).push(x) =~= ls.take(k));
        } else if k - 1 == i0 {
            assert(ls.take(k - 1).push(x) =~= ls.take(i0 + 1));
        } else if k - 1 < j1 {
            assert(!is_heading(x));
        } else if k - 1 == j1 {
            assert(is_heading(x));
            assert(!heading_matches(x, h));
            assert(ls.take(i0 + 1).push(c).push(x) =~= ls.take(i0 + 1).push(c) + ls.subrange(j1, k));
        } else {
            assert(!heading_matches(x, h));
            assert((ls.take(i0 + 1).push(c) + ls.subrange(j1, k - 1)).push(x) =~= ls.take(i0 + 1).push(c) + ls.subrange(j1, k));
        }
    }
}

/// Block replacement when exactly the line `i0` matches: the block under it
/// becomes `c`, and everything from the next heading on stays.
pub proof fn lemma_upsert_one_match(ls: Seq<Seq<char>>, h: Seq<char>, c: Seq<char>, i0: int)
    requires
        0 <= i0 < ls.len(),
        heading_matches(ls[i0], h),
        forall|j: int| 0 <= j < ls.len() && j != i0 ==> !heading_matches(#[trigger] ls[j], h),
    ensures
        upsert_scan(ls, h, c).written,
        upsert_scan(ls, h, c).out == ls.take(i0 + 1).push(c) + ls.skip(heading_from(ls, i0 + 1)),
{
    lemma_upsert_prefix(ls, h, c, i0, ls.len() as int);
    lemma_heading_from_props(ls, i0 + 1);
    let j1 = heading_from(ls, i0 + 1);
    assert(ls.take(ls.len() as int) =~= ls);
    assert(ls.subrange(j1, ls.len() as int) =~= ls.skip(j1));
    if j1 == ls.len() {
        assert(ls.skip(j1) =~= Seq::<Seq<char>>::empty());
        assert(ls.take(i0 + 1).push(c) + ls.skip(j1) =~= ls.take(i0 + 1).push(c));
    }
}

/// Joining two non-empty lists of lines is joining each and the two results.
pub proof fn lemma_join_concat(a: Seq<Seq<char>>, b: Seq<Seq<char>>, sep: Seq<char>)
    requires
        a.len() > 0,
        b.len() > 0,
    ensures
        join(a + b, sep) == join(a, sep) + sep + join(b, sep),
    decreases b.len(),
{
    let ab = a + b;
    assert(ab.drop_last() =~= a + b.drop_last());
    assert(ab.last() == b.last());
    if b.len() == 1 {
        assert(b.drop_last() =~= Seq::<Seq<char>>::empty());
        assert(ab.drop_last() =~= a);
    } else {
        lemma_join_concat(a, b.drop_last(), sep);
        assert(join(a, sep) + sep + join(b.drop_last(), sep) + sep + b.last() =~= join(a, sep) + sep + (join(b.drop_last(), sep) + sep + b.last()));
    }
}

/// The lines a block's content stands for inside a document: its lines, with
/// an empty one for a final newline (or for empty content).
pub open spec fn content_lines(c: Seq<char>) -> Seq<Seq<char>> {
    if lines(c).len() == 0 {
        seq![Seq::<char>::empty()]
    } else if c == join(lines(c), seq!['\n']) {
        lines(c)
    } else {
        lines(c).push(Seq::<char>::empty())
    }
}

/// Block content a read gives back: no carriage return, and no line that
/// is a heading.
pub open spec fn heading_free(c: Seq<char>) -> bool {
    &&& forall|i: int| 0 <= i < c.len() ==> #[trigger] c[i] != '\r'
    &&& forall|j: int| 0 <= j < lines(c).len() ==> !is_heading(#[trigger] lines(c)[j])
}

/// Content without carriage returns and heading lines: its lines join back
/// to it, and none is a heading.
pub proof fn lemma_content_lines(c: Seq<char>)
    requires
        heading_free(c),
    ensures
        join(content_lines(c), seq!['\n']) == c,
        content_lines(c).len() > 0,
        forall|i: int| 0 <= i < content_lines(c).len() ==> !is_heading(#[trigger] content_lines(c)[i])
            && is_plain_line(content_lines(c)[i]),
{
    lemma_join_lines(c);
    let ls = lines(c);
    let e = Seq::<char>::empty();
    assert(trim(e) =~= e) by {
        assert(crate::text::ltrim(e) == e);
        assert(crate::text::rtrim(e) == e);
    }
    assert(!is_heading(e));
    if ls.len() == 0 {
        if c.len() > 0 {
            crate::text::lemma_nl_index_props(c);
            assert(lines(c).len() > 0);
        }
        assert(c =~= e);
    } else if c == join(ls, seq!['\n']) {
    } else {
        assert(ls.push(e).drop_last() =~= ls);
    }
    let cl = content_lines(c);
    assert forall|i: int| 0 <= i < cl.len() implies !is_heading(#[trigger] cl[i]) && is_plain_line(cl[i]) by {
        if i < ls.len() {
            assert(cl[i] == ls[i]);
        } else {
            assert(cl[i] == e);
        }
    }
}

/// Empty lines at the end do not change a joined text once trimmed.
pub proof fn lemma_trim_join_trail(p: Seq<Seq<char>>, m: int)
    requires
        0 <= m <= p.len(),
        forall|i: int| m <= i < p.len() ==> #[trigger] p[i] == Seq::<char>::empty(),
    ensures
        trim(join(p.take(m), seq!['\n'])) == trim(join(p, seq!['\n'])),
    decreases p.len(),
{
    if m == p.len() {
        assert(p.take(m) =~= p);
    } else if p.len() == 1 {
        assert(p.take(0) =~= Seq::<Seq<char>>::empty());
        assert(p[0] == Seq::<char>::empty());
    } else {
        let init = p.drop_last();
        assert(p.last() == Seq::<char>::empty());
        assert(join(p, seq!['\n']) == join(init, seq!['\n']) + seq!['\n'] + Seq::<char>::empty());
        assert(join(init, seq!['\n']) + seq!['\n'] + Seq::<char>::empty() =~= join(init, seq!['\n']) + seq!['\n']);
        lemma_trim_newline(join(init, seq!['\n']));
        assert forall|i: int| m <= i < init.len() implies #[trigger] init[i] == Seq::<char>::empty() by {
            assert(init[i] == p[i]);
        }
        lemma_trim_join_trail(init, m);
        assert(init.take(m) =~= p.take(m));
    }
}

/// The first `n` lines, where the lines dropped after them are empty.
pub open spec fn trail_empty(p: Seq<Seq<char>>, n: int) -> bool {
    &&& 0 <= n <= p.len()
    &&& forall|i: int| n <= i < p.len() ==> #[trigger] p[i] == Seq::<char>::empty()
}

/// Splitting joined plain lines gives them back, but for a last empty one.
pub proof fn lemma_lines_join_trail(q: Seq<Seq<char>>) -> (n: int)
    requires
        forall|i: int| 0 <= i < q.len() ==> is_plain_line(#[trigger] q[i]),
    ensures
        trail_empty(q, n),
        lines(join(q, seq!['\n'])) == q.take(n),
{
    lemma_lines_join(q);
    if q.len() > 0 && q.last().len() == 0 {
        assert(q.drop_last() =~= q.take(q.len() - 1));
        assert(q.last() =~= Seq::<char>::empty());
        (q.len() - 1) as int
    } else {
        assert(q.take(q.len() as int) =~= q);
        q.len() as int
    }
}

/// The block a read finds in lines laid out as: lines without a match, the
/// matching heading, the block's lines, then nothing or a heading; even
/// with some empty lines dropped at the end.
#[verifier::spinoff_prover]
#[verifier::rlimit(40)]
pub proof fn lemma_block_of_layout(
    pre: Seq<Seq<char>>,
    hl: Seq<char>,
    m: Seq<Seq<char>>,
    t: Seq<Seq<char>>,
    h: Seq<char>,
    n: int,
)
    requires
        trail_empty(pre + seq![hl] + m + t, n),
        forall|j: int| 0 <= j < pre.len() ==> !heading_matches(#[trigger] pre[j], h),
        heading_matches(hl, h),
        forall|j: int| 0 <= j < m.len() ==> !is_heading(#[trigger] m[j]),
        t.len() > 0 ==> closes_section(t[0], heading_level(hl)),
    ensures
        block_in((pre + seq![hl] + m + t).take(n), h) == Some(trim(join(m, seq!['\n']))),
{
    let p = pre + seq![hl] + m + t;
    let k = pre.len() as int;
    assert(p[k] == hl);
    lemma_heading_nonempty(hl);
    assert(n > k);
    let f = p.take(n);
    let rest = f.skip(k);
    assert(f =~= pre + rest);
    lemma_block_shift(pre, rest, h);
    assert(rest[0] == hl);
    crate::okf::markdown::lemma_match_from_at(rest, h, 0, 0);
    let r = rest.skip(1);
    assert(rest =~= seq![hl] + r);
    let lvl = heading_level(hl);
    lemma_section_end_right(seq![hl], r, lvl, 1);
    let ml = m.len() as int;
    if t.len() > 0 {
        let ti = k + 1 + ml;
        assert(p[ti] == t[0]);
        lemma_heading_nonempty(t[0]);
        assert(n > ti);
        assert(r.len() > ml);
        assert forall|j: int| 0 <= j < ml implies !closes_section(#[trigger] r[j], lvl) by {
            assert(r[j] == m[j]);
        }
        assert(r[ml] == t[0]);
        lemma_section_end_at(r, lvl, 0, ml);
        assert(r.subrange(0, ml) =~= m);
        assert(rest.subrange(1, 1 + ml) =~= m);
    } else {
        let rl = r.len() as int;
        assert(rl <= ml);
        assert forall|j: int| 0 <= j < rl implies !closes_section(#[trigger] r[j], lvl) by {
            assert(r[j] == m[j]);
        }
        lemma_section_end_none(r, lvl, 0);
        assert(r =~= m.take(rl));
        assert(rest.subrange(1, 1 + rl) =~= m.take(rl));
        assert forall|i: int| rl <= i < m.len() implies #[trigger] m[i] == Seq::<char>::empty() by {
            assert(p[k + 1 + i] == m[i]);
        }
        lemma_trim_join_trail(m, rl);
    }
}

proof fn lemma_heading_nonempty(l: Seq<char>)
    requires
        is_heading(l),
    ensures
        l.len() > 0,
{
    let (a, b) = lemma_trim_sub(l);
}

// ---------------------------------------------------------------------------
// trimming and lines
// ---------------------------------------------------------------------------

proof fn lemma_ltrim_sub(x: Seq<char>) -> (a: int)
    ensures
        0 <= a <= x.len(),
        ltrim(x) == x.skip(a),
        ltrim(x).len() > 0 ==> !is_ws(ltrim(x)[0]),
        forall|i: int| 0 <= i < a ==> is_ws(#[trigger] x[i]),
    decreases x.len(),
{
    if x.len() > 0 && is_ws(x[0]) {
        let a = lemma_ltrim_sub(x.drop_first());
        assert(x.drop_first().skip(a) =~= x.skip(a + 1));
        assert forall|i: int| 0 <= i < a + 1 implies is_ws(#[trigger] x[i]) by {
            if i > 0 {
                assert(x[i] == x.drop_first()[i - 1]);
            }
        }
        a + 1
    } else {
        assert(x.skip(0) =~= x);
        0
    }
}

proof fn lemma_rtrim_sub(y: Seq<char>) -> (b: int)
    ensures
        0 <= b <= y.len(),
        rtrim(y) == y.take(b),
        rtrim(y).len() > 0 ==> !is_ws(rtrim(y).last()),
        y.len() > 0 && !is_ws(y[0]) ==> b >= 1,
        forall|i: int| b <= i < y.len() ==> is_ws(#[trigger] y[i]),
    decreases y.len(),
{
    if y.len() > 0 && is_ws(y.last()) {
        let b = lemma_rtrim_sub(y.drop_last());
        assert(y.drop_last().take(b) =~= y.take(b));
        assert forall|i: int| b <= i < y.len() implies is_ws(#[trigger] y[i]) by {
            if i < y.len() - 1 {
                assert(y[i] == y.drop_last()[i]);
            }
        }
        if y.len() > 1 && !is_ws(y[0]) {
            assert(y.drop_last()[0] == y[0]);
        }
        b
    } else {
        assert(y.take(y.len() as int) =~= y);
        y.len() as int
    }
}

/// `trim` cuts a part out of the text; its ends are not whitespace.
pub proof fn lemma_trim_sub(x: Seq<char>) -> (ab: (int, int))
    ensures
        0 <= ab.0 <= ab.1 <= x.len(),
        trim(x) == x.subrange(ab.0, ab.1),
        forall|i: int| 0 <= i < x.len() && !(ab.0 <= i < ab.1) ==> is_ws(#[trigger] x[i]),
        trim(x).len() > 0 ==> !is_ws(trim(x)[0]) && !is_ws(trim(x).last()),
        x.len() > 0 && !is_ws(x[0]) ==> trim(x).len() > 0 && trim(x)[0] == x[0],
{
    let a = lemma_ltrim_sub(x);
    let l = ltrim(x);
    let b = lemma_rtrim_sub(l);
    assert(x.skip(a).take(b) =~= x.subrange(a, a + b));
    assert forall|i: int| 0 <= i < x.len() && !(a <= i < a + b) implies is_ws(#[trigger] x[i]) by {
        if i >= a + b {
            assert(x[i] == l[i - a]);
        }
    }
    if trim(x).len() > 0 {
        assert(trim(x)[0] == l[0]);
    }
    if x.len() > 0 && !is_ws(x[0]) {
        assert(a == 0);
    }
    (a, a + b)
}

/// No line of a text holds a newline.
pub proof fn lemma_lines_no_newline(s: Seq<char>)
    ensures
        forall|i: int, j: int| 0 <= i < lines(s).len() && 0 <= j < lines(s)[i].len() ==> #[trigger] lines(s)[i][j] != '\n',
    decreases s.len(),
{
    if s.len() > 0 {
        lemma_nl_index_props(s);
        let i = nl_index(s);
        if i >= 0 {
            lemma_lines_no_newline(s.skip(i + 1));
            let first = strip_cr(s.take(i));
            assert forall|j: int| 0 <= j < first.len() implies first[j] != '\n' by {
                assert(first[j] == s[j]);
            }
            assert forall|a: int, j: int| 0 <= a < lines(s).len() && 0 <= j < lines(s)[a].len() implies #[trigger] lines(s)[a][j] != '\n' by {
                if a > 0 {
                    assert(lines(s)[a] == lines(s.skip(i + 1))[a - 1]);
                }
            }
        }
    }
}

// ---------------------------------------------------------------------------
// frontmatter entries
// ---------------------------------------------------------------------------

/// An entry that serializes to one plain line that is not a heading.
pub open spec fn good_entry(kv: (Seq<char>, Seq<char>)) -> bool {
    &&& kv.0.len() > 0
    &&& !is_ws(kv.0[0])
    &&& kv.0[0] != '#'
    &&& is_plain_line(entry_text(kv))
}

pub open spec fn good_entries(e: Entries) -> bool {
    forall|i: int| 0 <= i < e.len() ==> good_entry(#[trigger] e[i])
}

pub proof fn lemma_set_good(e: Entries, k: Seq<char>, v: Seq<char>)
    requires
        good_entries(e),
        good_entry((k, v)),
    ensures
        good_entries(set_entry(e, k, v)),
        set_entry(e, k, v).len() > 0,
{
    crate::okf::frontmatter::lemma_key_index(e, k);
    let e2 = set_entry(e, k, v);
    assert forall|i: int| 0 <= i < e2.len() implies good_entry(#[trigger] e2[i]) by {
        if i < e.len() && e2[i] != (k, v) {
            assert(e2[i] == e[i]);
        }
    }
}

/// `find` gives an occurrence when it gives something.
pub proof fn lemma_find_some(s: Seq<char>, p: Seq<char>)
    ensures
        find(s, p) matches Some(i) ==> occurs_at(s, p, i),
{
    reveal(find);
    if crate::text::contains(s, p) {
        let i0 = choose|i: int| occurs_at(s, p, i);
        let m = lemma_first_occurrence(s, p, 0, i0);
        assert(occurs_at(s, p, m) && forall|j: int| 0 <= j < m ==> !occurs_at(s, p, j));
    }
}

proof fn lemma_first_occurrence(s: Seq<char>, p: Seq<char>, from: int, i0: int) -> (m: int)
    requires
        0 <= from <= i0,
        occurs_at(s, p, i0),
        forall|j: int| 0 <= j < from ==> !occurs_at(s, p, j),
    ensures
        occurs_at(s, p, m),
        forall|j: int| 0 <= j < m ==> !occurs_at(s, p, j),
    decreases i0 - from,
{
    if occurs_at(s, p, from) {
        from
    } else {
        lemma_first_occurrence(s, p, from + 1, i0)
    }
}

/// The entry cut from a trimmed line at a `:`.
#[verifier::spinoff_prover]
#[verifier::rlimit(40)]
proof fn lemma_cut_entry_good(line: Seq<char>, idx: int)
    requires
        forall|j: int| 0 <= j < line.len() ==> #[trigger] line[j] != '\n',
        trim(line).len() > 0,
        trim(line)[0] != '#',
        0 <= idx < trim(line).len(),
        trim(trim(line).take(idx)).len() > 0,
    ensures
        good_entry((trim(trim(line).take(idx)), trim(trim(line).skip(idx + 1)))),
{
    let t = trim(line);
    let (a, b) = lemma_trim_sub(line);
    let pre = t.take(idx);
    let post = t.skip(idx + 1);
    let k = trim(pre);
    let v = trim(post);
    let (ka, kb) = lemma_trim_sub(pre);
    let (va, vb) = lemma_trim_sub(post);
    assert(idx > 0) by {
        if idx == 0 {
            assert(pre.len() == 0);
        }
    }
    assert(pre[0] == t[0]);
    assert(k[0] == t[0]);
    let et = entry_text((k, v));
    assert forall|j: int| 0 <= j < et.len() implies #[trigger] et[j] != '\n' by {
        if j < k.len() {
            assert(et[j] == pre[ka + j]);
            assert(pre[ka + j] == t[ka + j]);
            assert(t[ka + j] == line[a + ka + j]);
        } else if j >= k.len() + 2 {
            let q = j - k.len() - 2;
            assert(et[j] == v[q]);
            assert(v[q] == post[va + q]);
            assert(post[va + q] == t[idx + 1 + va + q]);
            assert(t[idx + 1 + va + q] == line[a + idx + 1 + va + q]);
        }
    }
    if v.len() > 0 {
        assert(et.last() == v.last());
    } else {
        assert(et.last() == ' ');
    }
}

/// An entry read from a line that holds no newline.
proof fn lemma_apply_line_good(e: Entries, line: Seq<char>)
    requires
        good_entries(e),
        forall|j: int| 0 <= j < line.len() ==> #[trigger] line[j] != '\n',
    ensures
        good_entries(apply_line(e, line)),
{
    reveal(apply_line);
    let t = trim(line);
    if t.len() > 0 && t[0] != '#' {
        lemma_find_some(t, seq![':']);
        match find(t, seq![':']) {
            None => {},
            Some(idx) => {
                let k = trim(t.take(idx));
                let v = trim(t.skip(idx + 1));
                if k.len() > 0 {
                    lemma_cut_entry_good(line, idx);
                    lemma_set_good(e, k, v);
                }
            },
        }
    }
}

/// Entries parsed from the lines of a text serialize to plain lines that
/// are not headings.
pub proof fn lemma_parse_lines_good(ls: Seq<Seq<char>>)
    requires
        forall|i: int, j: int| 0 <= i < ls.len() && 0 <= j < ls[i].len() ==> #[trigger] ls[i][j] != '\n',
    ensures
        good_entries(parse_lines(ls)),
    decreases ls.len(),
{
    if ls.len() > 0 {
        let init = ls.drop_last();
        assert forall|i: int, j: int| 0 <= i < init.len() && 0 <= j < init[i].len() implies #[trigger] init[i][j] != '\n' by {
            assert(init[i] == ls[i]);
        }
        lemma_parse_lines_good(init);
        let l = ls.last();
        assert forall|j: int| 0 <= j < l.len() implies #[trigger] l[j] != '\n' by {
            assert(ls[ls.len() - 1][j] == l[j]);
        }
        lemma_apply_line_good(parse_lines(init), l);
    }
}

/// The lines a frontmatter puts before a document's body: the fences, an
/// entry per line, and the empty line after them.
pub open spec fn header_lines(e: Entries) -> Seq<Seq<char>> {
    seq![fence()] + entry_texts(e) + seq![fence()] + seq![Seq::<char>::empty()]
}

/// A document made of a frontmatter and a body: its lines are the header's
/// and the body's, and no header line is a heading.
#[verifier::spinoff_prover]
#[verifier::rlimit(40)]
pub proof fn lemma_header_lines(e: Entries, x: Seq<char>)
    requires
        good_entries(e),
        e.len() > 0,
    ensures
        lines(serialized(e) + seq!['\n'] + x) == header_lines(e) + lines(x),
        forall|j: int| 0 <= j < header_lines(e).len() ==> !is_heading(#[trigger] header_lines(e)[j]),
{
    assert forall|i: int| 0 <= i < e.len() implies is_plain_line(#[trigger] entry_text(e[i])) by {
        assert(good_entry(e[i]));
    }
    lemma_serialized_lines(e);
    let ser = serialized(e);
    let rest = seq!['\n'] + x;
    assert(ser + seq!['\n'] + x =~= ser + rest);
    crate::text::lemma_lines_append(ser, rest);
    crate::text::lemma_lines_cons(Seq::<char>::empty(), x);
    assert(Seq::<char>::empty() + seq!['\n'] + x =~= rest);
    assert(strip_cr(Seq::<char>::empty()) =~= Seq::<char>::empty());
    let hdr = header_lines(e);
    assert(lines(ser + rest) =~= hdr + lines(x));
    lemma_header_not_heading(e);
}

/// No line of a frontmatter header is a heading.
proof fn lemma_header_not_heading(e: Entries)
    requires
        good_entries(e),
    ensures
        forall|j: int| 0 <= j < header_lines(e).len() ==> !is_heading(#[trigger] header_lines(e)[j]),
{
    let hdr = header_lines(e);
    let f = fence();
    lemma_not_heading_start(f);
    let (ea, eb) = lemma_trim_sub(Seq::<char>::empty());
    assert forall|j: int| 0 <= j < hdr.len() implies !is_heading(#[trigger] hdr[j]) by {
        if j == 0 || j == hdr.len() - 2 {
            assert(hdr[j] == f);
        } else if j == hdr.len() - 1 {
            assert(hdr[j] == Seq::<char>::empty());
        } else {
            let kv = e[j - 1];
            assert(good_entry(kv));
            let et = entry_text(kv);
            assert(hdr[j] == et);
            assert(et[0] == kv.0[0]);
            lemma_not_heading_start(et);
        }
    }
}

// ---------------------------------------------------------------------------
// the body of a document
// ---------------------------------------------------------------------------

/// Heading keys stay distinct when lines without headings are put between
/// two parts.
proof fn lemma_keys_distinct_insert(a: Seq<Seq<char>>, m: Seq<Seq<char>>, b: Seq<Seq<char>>)
    requires
        keys_distinct(a + b),
        forall|j: int| 0 <= j < m.len() ==> !is_heading(#[trigger] m[j]),
    ensures
        keys_distinct(a + m + b),
{
    let v = a + m + b;
    let w = a + b;
    let al = a.len() as int;
    let ml = m.len() as int;
    assert forall|p: int, q: int|
        #![trigger v[p], v[q]]
        0 <= p < q < v.len() && is_heading(v[p]) && is_heading(v[q]) implies heading_key(v[p]) != heading_key(v[q]) by {
        let pp = if p < al { p } else { p - ml };
        let qq = if q < al { q } else { q - ml };
        if al <= p < al + ml {
            assert(v[p] == m[p - al]);
        }
        if al <= q < al + ml {
            assert(v[q] == m[q - al]);
        }
        assert(v[p] == w[pp]);
        assert(v[q] == w[qq]);
    }
}

/// Heading keys stay distinct when a middle part is cut out.
proof fn lemma_keys_distinct_cut(ls: Seq<Seq<char>>, x: int, y: int)
    requires
        keys_distinct(ls),
        0 <= x <= y <= ls.len(),
    ensures
        keys_distinct(ls.take(x) + ls.skip(y)),
{
    let w = ls.take(x) + ls.skip(y);
    assert forall|p: int, q: int|
        #![trigger w[p], w[q]]
        0 <= p < q < w.len() && is_heading(w[p]) && is_heading(w[q]) implies heading_key(w[p]) != heading_key(w[q]) by {
        let pp = if p < x { p } else { p - x + y };
        let qq = if q < x { q } else { q - x + y };
        assert(w[p] == ls[pp]);
        assert(w[q] == ls[qq]);
    }
}

/// Lines in the form the library leaves a body in: each plain, and the
/// headings with distinct lowercased texts.
pub open spec fn normal_lines(ls: Seq<Seq<char>>) -> bool {
    &&& forall|j: int| 0 <= j < ls.len() ==> is_plain_line(#[trigger] ls[j])
    &&& keys_distinct(ls)
}

/// A body whose lines are in normal form.
pub open spec fn normal_form(body: Seq<char>) -> bool {
    normal_lines(lines(body))
}

/// A document body in normal form where a heading matches `h` (ignoring
/// ASCII case) exactly when its lowercased text is that of `h`.
pub open spec fn normal_body(body: Seq<char>, h: Seq<char>) -> bool {
    let ls = lines(body);
    &&& normal_form(body)
    &&& forall|j: int| 0 <= j < ls.len() && is_heading(#[trigger] ls[j]) ==> (heading_matches(ls[j], h) <==> heading_key(ls[j]) == unicode_lower(h))
}

/// Deduplicating joined lines in normal form and splitting the result
/// gives the lines back, but for some empty ones at the end.
#[verifier::spinoff_prover]
#[verifier::rlimit(40)]
proof fn lemma_dedup_lines(p: Seq<Seq<char>>) -> (n2: int)
    requires
        normal_lines(p),
    ensures
        trail_empty(p, n2),
        lines(deduplicated(join(p, seq!['\n']))) == p.take(n2),
        normal_lines(p.take(n2)),
{
    let n1 = lemma_lines_join_trail(p);
    let v = p.take(n1);
    lemma_normal_sub(p, 0, n1);
    assert(p.subrange(0, n1) =~= v);
    lemma_dedup_identity(v);
    let n2 = lemma_lines_join_trail(v);
    assert(v.take(n2) =~= p.take(n2));
    assert forall|i: int| n2 <= i < p.len() implies #[trigger] p[i] == Seq::<char>::empty() by {
        if i < n1 {
            assert(p[i] == v[i]);
        }
    }
    lemma_normal_sub(p, 0, n2);
    assert(p.subrange(0, n2) =~= p.take(n2));
    n2
}

/// The block of a laid-out body after deduplication and re-reading.
#[verifier::spinoff_prover]
#[verifier::rlimit(40)]
proof fn lemma_layout_dedup(pre: Seq<Seq<char>>, hl: Seq<char>, m: Seq<Seq<char>>, t: Seq<Seq<char>>, h: Seq<char>)
    requires
        forall|j: int| 0 <= j < (pre + seq![hl] + m + t).len() ==> is_plain_line(#[trigger] (pre + seq![hl] + m + t)[j]),
        keys_distinct(pre + seq![hl] + m + t),
        forall|j: int| 0 <= j < pre.len() ==> !heading_matches(#[trigger] pre[j], h),
        heading_matches(hl, h),
        forall|j: int| 0 <= j < m.len() ==> !is_heading(#[trigger] m[j]),
        t.len() > 0 ==> is_heading(t[0]),
    ensures
        (t.len() > 0 ==> closes_section(t[0], heading_level(hl))) ==> block_of(
            deduplicated(join(pre + seq![hl] + m + t, seq!['\n'])),
            h,
        ) == Some(trim(join(m, seq!['\n']))),
        normal_form(deduplicated(join(pre + seq![hl] + m + t, seq!['\n']))),
{
    let p = pre + seq![hl] + m + t;
    let n2 = lemma_dedup_lines(p);
    if t.len() == 0 || closes_section(t[0], heading_level(hl)) {
        lemma_block_of_layout(pre, hl, m, t, h, n2);
    }
}

/// Writing `c` under the one heading of `ls` that matches `h`, then
/// reading `h`, gives `c` back.
#[verifier::spinoff_prover]
#[verifier::rlimit(40)]
proof fn lemma_match_case(ls: Seq<Seq<char>>, h: Seq<char>, c: Seq<char>)
    requires
        forall|j: int| 0 <= j < ls.len() ==> is_plain_line(#[trigger] ls[j]),
        keys_distinct(ls),
        forall|j: int| 0 <= j < ls.len() && is_heading(#[trigger] ls[j]) ==> (heading_matches(ls[j], h) <==> heading_key(ls[j]) == unicode_lower(h)),
        match_from(ls, h, 0) >= 0,
        heading_free(c),
    ensures
        upsert_scan(ls, h, c).written,
        block_closed(ls, h) ==> block_of(deduplicated(join(upsert_scan(ls, h, c).out, seq!['\n'])), h) == Some(trim(c)),
        normal_form(deduplicated(join(upsert_scan(ls, h, c).out, seq!['\n']))),
{
    let m = content_lines(c);
    lemma_content_lines(c);
    let i0 = match_from(ls, h, 0);
    crate::okf::markdown::lemma_match_from_bounds(ls, h, 0);
    lemma_match_first(ls, h, 0);
    assert forall|j: int| 0 <= j < ls.len() && j != i0 implies !heading_matches(#[trigger] ls[j], h) by {
        if heading_matches(ls[j], h) {
            assert(is_heading(ls[j]) && is_heading(ls[i0]));
            if j < i0 {
            } else {
                assert(heading_key(ls[j]) == unicode_lower(h));
                assert(heading_key(ls[i0]) == unicode_lower(h));
            }
        }
    }
    lemma_upsert_one_match(ls, h, c, i0);
    lemma_heading_from_props(ls, i0 + 1);
    let j1 = heading_from(ls, i0 + 1);
    let pre = ls.take(i0);
    let hl = ls[i0];
    let t = ls.skip(j1);
    let a = ls.take(i0 + 1);
    assert(a =~= pre + seq![hl]);
    let u = a.push(c) + t;
    assert(upsert_scan(ls, h, c).out == u);
    // joining the block's content or its lines is the same
    if t.len() > 0 {
        assert(u =~= a + (seq![c] + t));
        lemma_join_concat(a, seq![c] + t, seq!['\n']);
        lemma_join_concat(seq![c], t, seq!['\n']);
        assert(a + m + t =~= a + (m + t));
        lemma_join_concat(a, m + t, seq!['\n']);
        lemma_join_concat(m, t, seq!['\n']);
    } else {
        assert(u =~= a + seq![c]);
        lemma_join_concat(a, seq![c], seq!['\n']);
        assert(a + m + t =~= a + m);
        lemma_join_concat(a, m, seq!['\n']);
    }
    assert(join(u, seq!['\n']) == join(pre + seq![hl] + m + t, seq!['\n']));
    let p = pre + seq![hl] + m + t;
    assert forall|j: int| 0 <= j < p.len() implies is_plain_line(#[trigger] p[j]) by {
        if j <= i0 {
            assert(p[j] == ls[j]);
        } else if j < i0 + 1 + m.len() {
            assert(p[j] == m[j - i0 - 1]);
        } else {
            assert(p[j] == ls[j - i0 - 1 - m.len() + j1]);
        }
    }
    lemma_keys_distinct_cut(ls, i0 + 1, j1);
    assert(ls.take(i0 + 1) + ls.skip(j1) =~= a + t);
    lemma_keys_distinct_insert(a, m, t);
    assert forall|j: int| 0 <= j < pre.len() implies !heading_matches(#[trigger] pre[j], h) by {
        assert(pre[j] == ls[j]);
    }
    if t.len() > 0 {
        assert(t[0] == ls[j1]);
    }
    lemma_layout_dedup(pre, hl, m, t, h);
}

/// Writing `c` under a new heading of `level` after the lines `o` (the lines
/// `ls`, perhaps with an empty line after them) when no heading of `ls`
/// matches `h`, then reading `h`, gives `c` back.
#[verifier::spinoff_prover]
#[verifier::rlimit(40)]
proof fn lemma_append_case(ls: Seq<Seq<char>>, o: Seq<Seq<char>>, h: Seq<char>, c: Seq<char>, level: nat)
    requires
        forall|j: int| 0 <= j < ls.len() ==> is_plain_line(#[trigger] ls[j]),
        keys_distinct(ls),
        forall|j: int| 0 <= j < ls.len() && is_heading(#[trigger] ls[j]) ==> (heading_matches(ls[j], h) <==> heading_key(ls[j]) == unicode_lower(h)),
        forall|j: int| 0 <= j < ls.len() ==> !heading_matches(#[trigger] ls[j], h),
        o == ls || o == ls.push(Seq::<char>::empty()),
        crate::okf::store::readable_heading(h),
        heading_free(c),
        level >= 1,
    ensures
        block_of(deduplicated(join(o.push(level_prefix(level) + h).push(c), seq!['\n'])), h) == Some(trim(c)),
        normal_form(deduplicated(join(o.push(level_prefix(level) + h).push(c), seq!['\n']))),
{
    let m = content_lines(c);
    lemma_content_lines(c);
    crate::okf::store::lemma_new_heading_matches(level, h);
    let hl = level_prefix(level) + h;
    let e = Seq::<char>::empty();
    let t = Seq::<Seq<char>>::empty();
    let u = o.push(hl).push(c);
    let (ea, eb) = lemma_trim_sub(e);
    assert(trim(e).len() == 0);
    assert(!is_heading(e));
    assert(o.push(hl).len() > 0);
    assert(u =~= o.push(hl) + seq![c]);
    lemma_join_concat(o.push(hl), seq![c], seq!['\n']);
    lemma_join_concat(o.push(hl), m, seq!['\n']);
    assert(o + seq![hl] + m + t =~= o.push(hl) + m);
    let p = o + seq![hl] + m + t;
    assert(trim(hl)[0] == '#');
    assert forall|j: int| 0 <= j < p.len() implies is_plain_line(#[trigger] p[j]) by {
        if j < ls.len() {
            assert(p[j] == ls[j]);
        } else if j < o.len() {
            assert(p[j] == e);
        } else if j == o.len() {
            assert(p[j] == hl);
        } else {
            assert(p[j] == m[j - o.len() - 1]);
        }
    }
    assert forall|j: int, k: int|
        #![trigger o[j], o[k]]
        0 <= j < k < o.len() && is_heading(o[j]) && is_heading(o[k]) implies heading_key(o[j]) != heading_key(o[k]) by {
        assert(j < ls.len() && k < ls.len());
        assert(o[j] == ls[j] && o[k] == ls[k]);
    }
    let oh = o.push(hl);
    assert forall|j: int, k: int|
        #![trigger oh[j], oh[k]]
        0 <= j < k < oh.len() && is_heading(oh[j]) && is_heading(oh[k]) implies heading_key(oh[j]) != heading_key(oh[k]) by {
        if k < o.len() {
            assert(oh[j] == o[j] && oh[k] == o[k]);
        } else {
            assert(j < ls.len());
            assert(oh[j] == ls[j]);
            assert(heading_key(hl) == unicode_lower(h));
            assert(!heading_matches(ls[j], h));
        }
    }
    lemma_keys_distinct_insert(oh, m, t);
    assert(oh + m + t =~= p);
    assert forall|j: int| 0 <= j < o.len() implies !heading_matches(#[trigger] o[j], h) by {
        if j < ls.len() {
            assert(o[j] == ls[j]);
        } else {
            assert(o[j] == e);
        }
    }
    lemma_layout_dedup(o, hl, m, t, h);
}

/// Law of block writing on a body: writing `c` under `h` into a body in
/// normal form and reading `h` gives `c` back, trimmed, when the block
/// under `h` is closed (see [`block_closed`]).
pub proof fn lemma_body_read_after_write(body: Seq<char>, h: Seq<char>, c: Seq<char>, level: nat)
    requires
        normal_body(body, h),
        block_closed(lines(body), h),
        crate::okf::store::readable_heading(h),
        heading_free(c),
        level >= 1,
    ensures
        block_of(deduplicated(join(upserted_lines(body, h, c, level), seq!['\n'])), h) == Some(trim(c)),
{
    lemma_body_write(body, h, c, level);
}

/// Writing `c` under `h` into a body in normal form leaves it in normal
/// form, and a read of `h` then gives `c` back when the block is closed.
proof fn lemma_body_write(body: Seq<char>, h: Seq<char>, c: Seq<char>, level: nat)
    requires
        normal_body(body, h),
        crate::okf::store::readable_heading(h),
        heading_free(c),
        level >= 1,
    ensures
        block_closed(lines(body), h) ==> block_of(deduplicated(join(upserted_lines(body, h, c, level), seq!['\n'])), h) == Some(trim(c)),
        normal_form(deduplicated(join(upserted_lines(body, h, c, level), seq!['\n']))),
{
    let ls = lines(body);
    crate::okf::markdown::lemma_match_from_bounds(ls, h, 0);
    if match_from(ls, h, 0) >= 0 {
        lemma_match_case(ls, h, c);
    } else {
        assert forall|j: int| 0 <= j < ls.len() implies !heading_matches(#[trigger] ls[j], h) by {
            lemma_no_match(ls, h, 0, j);
        }
        lemma_upsert_no_match(ls, h, c);
        let o = if ls.len() > 0 && ls.last().len() > 0 { ls.push(Seq::<char>::empty()) } else { ls };
        lemma_append_case(ls, o, h, c, level);
    }
}

proof fn lemma_match_first(ls: Seq<Seq<char>>, h: Seq<char>, from: int)
    requires
        0 <= from,
        match_from(ls, h, from) >= 0,
    ensures
        heading_matches(ls[match_from(ls, h, from)], h),
        forall|j: int| from <= j < match_from(ls, h, from) ==> !heading_matches(#[trigger] ls[j], h),
    decreases ls.len() - from,
{
    if from < ls.len() && !heading_matches(ls[from], h) {
        lemma_match_first(ls, h, from + 1);
    }
}

proof fn lemma_no_match(ls: Seq<Seq<char>>, h: Seq<char>, from: int, j: int)
    requires
        0 <= from <= j < ls.len(),
        match_from(ls, h, from) < 0,
    ensures
        !heading_matches(ls[j], h),
    decreases j - from,
{
    if from < j {
        assert(!heading_matches(ls[from], h));
        lemma_no_match(ls, h, from + 1, j);
    }
}

// ---------------------------------------------------------------------------
// the document
// ---------------------------------------------------------------------------

/// The frontmatter an update leaves is made of good entries.
proof fn lemma_updated_good(raw: Seq<char>, description: Option<Seq<char>>, ts: Seq<char>)
    requires
        crate::okf::store::no_breaks(ts),
        description matches Some(d) ==> crate::okf::store::no_breaks(d),
    ensures
        good_entries(crate::okf::store::updated_entries(crate::okf::frontmatter::split_spec(raw).0, description, ts)),
        crate::okf::store::updated_entries(crate::okf::frontmatter::split_spec(raw).0, description, ts).len() > 0,
{
    let old = crate::okf::frontmatter::split_spec(raw).0;
    match old {
        Some(o) => {
            let ls = lines(raw);
            let cl = crate::okf::frontmatter::fence_from(ls, 1);
            let text = join(ls.subrange(1, cl), seq!['\n']);
            assert(o == parse_lines(lines(text)));
            lemma_lines_no_newline(text);
            lemma_parse_lines_good(lines(text));
        },
        None => {},
    }
    let base = match old { Some(o) => o, None => Seq::<(Seq<char>, Seq<char>)>::empty() };
    reveal_strlit("updated_at");
    reveal_strlit("description");
    lemma_good_pair("updated_at"@, ts);
    lemma_set_good(base, "updated_at"@, ts);
    let e = set_entry(base, "updated_at"@, ts);
    match description {
        Some(d) => {
            lemma_good_pair("description"@, d);
            lemma_set_good(e, "description"@, d);
        },
        None => {},
    }
}

proof fn lemma_good_pair(k: Seq<char>, v: Seq<char>)
    requires
        k.len() > 0,
        'a' <= k[0] <= 'z',
        crate::okf::store::no_breaks(k),
        crate::okf::store::no_breaks(v),
    ensures
        good_entry((k, v)),
{
    let t = entry_text((k, v));
    assert forall|i: int| 0 <= i < t.len() implies #[trigger] t[i] != '\n' by {
        if i < k.len() {
            assert(t[i] == k[i]);
        } else if i >= k.len() + 2 {
            assert(t[i] == v[i - k.len() - 2]);
        }
    }
    if v.len() > 0 {
        assert(t.last() == v.last());
    }
}

/// The frontmatter a new document gets is made of good entries.
proof fn lemma_new_good(c: crate::okf::model::Category, name: Seq<char>, description: Option<Seq<char>>, ts: Seq<char>)
    requires
        crate::okf::store::no_breaks(name),
        crate::okf::store::no_breaks(ts),
        description matches Some(d) ==> crate::okf::store::no_breaks(d),
    ensures
        good_entries(crate::okf::store::new_entries(c, name, description, ts)),
        crate::okf::store::new_entries(c, name, description, ts).len() > 0,
{
    reveal_strlit("type");
    reveal_strlit("title");
    reveal_strlit("description");
    reveal_strlit("created_at");
    reveal_strlit("updated_at");
    crate::okf::store::lemma_doc_type_plain(c);
    let d = match description { Some(d) => d, None => Seq::<char>::empty() };
    let empty = Seq::<(Seq<char>, Seq<char>)>::empty();
    lemma_good_pair("type"@, crate::okf::model::category_doc_type(c));
    lemma_set_good(empty, "type"@, crate::okf::model::category_doc_type(c));
    let e0 = set_entry(empty, "type"@, crate::okf::model::category_doc_type(c));
    lemma_good_pair("title"@, name);
    lemma_set_good(e0, "title"@, name);
    let e1 = set_entry(e0, "title"@, name);
    lemma_good_pair("description"@, d);
    lemma_set_good(e1, "description"@, d);
    let e2 = set_entry(e1, "description"@, d);
    lemma_good_pair("created_at"@, ts);
    lemma_set_good(e2, "created_at"@, ts);
    let e3 = set_entry(e2, "created_at"@, ts);
    lemma_good_pair("updated_at"@, ts);
    lemma_set_good(e3, "updated_at"@, ts);
}

/// Law: a block written into a document is what a read of its heading
/// gives back (trimmed). This holds for a new document when its name is one
/// line, and for an existing one when its body is in the form the library
/// leaves bodies in (see [`normal_body`]) and the block under the heading
/// is closed (see [`block_closed`]); the timestamp and a new
/// description must be one line each, the heading readable (see
/// [`crate::okf::store::readable_heading`]), and the content free of
/// carriage returns and heading lines.
#[verifier::spinoff_prover]
#[verifier::rlimit(40)]
pub proof fn lemma_read_after_write(
    existing: Option<Seq<char>>,
    c: crate::okf::model::Category,
    name: Seq<char>,
    heading: Seq<char>,
    content: Seq<char>,
    description: Option<Seq<char>>,
    ts: Seq<char>,
)
    requires
        crate::okf::store::no_breaks(ts),
        description matches Some(d) ==> crate::okf::store::no_breaks(d),
        crate::okf::store::readable_heading(heading),
        heading_free(content),
        existing is None ==> crate::okf::store::no_breaks(name),
        existing matches Some(raw) ==> normal_body(crate::okf::frontmatter::split_spec(raw).1, heading),
        existing matches Some(raw) ==> block_closed(lines(crate::okf::frontmatter::split_spec(raw).1), heading),
    ensures
        crate::okf::store::read_spec(
            crate::okf::store::written_spec(existing, c, name, heading, content, description, ts),
            heading,
        ) == Ok::<Seq<char>, Seq<char>>(trim(content)),
{
    let fm = match existing {
        None => crate::okf::store::new_entries(c, name, description, ts),
        Some(raw) => crate::okf::store::updated_entries(crate::okf::frontmatter::split_spec(raw).0, description, ts),
    };
    let body = match existing {
        None => Seq::<char>::empty(),
        Some(raw) => crate::okf::frontmatter::split_spec(raw).1,
    };
    match existing {
        None => {
            lemma_new_good(c, name, description, ts);
            assert(lines(body) =~= Seq::<Seq<char>>::empty());
        },
        Some(raw) => {
            lemma_updated_good(raw, description, ts);
        },
    }
    let level = crate::okf::store::block_level(c);
    assert(level >= 1);
    let x = deduplicated(join(upserted_lines(body, heading, content, level), seq!['\n']));
    lemma_body_read_after_write(body, heading, content, level);
    let doc = crate::okf::store::written_spec(existing, c, name, heading, content, description, ts);
    assert(doc == serialized(fm) + seq!['\n'] + x);
    lemma_header_lines(fm, x);
    let hdr = header_lines(fm);
    assert forall|j: int| 0 <= j < hdr.len() implies !heading_matches(#[trigger] hdr[j], heading) by {
        assert(!is_heading(hdr[j]));
    }
    lemma_block_shift(hdr, lines(x), heading);
    assert(block_of(doc, heading) == block_in(lines(doc), heading));
    assert(block_of(x, heading) == block_in(lines(x), heading));
    assert(!crate::okf::store::wants_whole(heading));
}

// ---------------------------------------------------------------------------
// the block files of the single-file knowledge layout
// ---------------------------------------------------------------------------

proof fn lemma_not_heading_start(x: Seq<char>)
    requires
        x.len() > 0,
        !is_ws(x[0]),
        x[0] != '#',
    ensures
        !is_heading(x),
{
    let (a, b) = lemma_trim_sub(x);
}

/// A `key: value` line with a lowercase key and a one-line value is plain
/// and no heading.
proof fn lemma_field_line(k: Seq<char>, v: Seq<char>)
    requires
        k.len() > 0,
        'a' <= k[0] <= 'z',
        crate::okf::store::no_breaks(k),
        crate::okf::store::no_breaks(v),
    ensures
        is_plain_line(k + v),
        !is_heading(k + v),
{
    let l = k + v;
    assert(l[0] == k[0]);
    lemma_not_heading_start(l);
    assert forall|i: int| 0 <= i < l.len() implies #[trigger] l[i] != '\n' by {
        if i < k.len() {
            assert(l[i] == k[i]);
        } else {
            assert(l[i] == v[i - k.len()]);
        }
    }
    if v.len() > 0 {
        assert(l.last() == v.last());
    } else {
        assert(l.last() == k.last());
    }
}

/// The lines of the stub a new block file starts from.
proof fn lemma_stub_lines(dt: Seq<char>, name: Seq<char>)
    requires
        crate::okf::store::no_breaks(dt),
        crate::okf::store::no_breaks(name),
    ensures
        ({
            let ls = lines(crate::okf_files::stub_document(dt, name));
            &&& forall|j: int| 0 <= j < ls.len() ==> is_plain_line(#[trigger] ls[j]) && !is_heading(ls[j])
        }),
{
    reveal_strlit("---\ntype: ");
    reveal_strlit("\ntitle: ");
    reveal_strlit("\ndescription: 自动初始化的 OKF 文档\n---\n");
    let f = fence();
    let l1 = "type: "@ + dt;
    let l2 = "title: "@ + name;
    let l3 = "description: 自动初始化的 OKF 文档"@;
    reveal_strlit("type: ");
    reveal_strlit("title: ");
    reveal_strlit("description: 自动初始化的 OKF 文档");
    reveal_strlit("description: ");
    reveal_strlit("自动初始化的 OKF 文档");
    let nl = seq!['\n'];
    let doc = crate::okf_files::stub_document(dt, name);
    assert(doc =~= f + nl + (l1 + nl + (l2 + nl + (l3 + nl + (f + nl + Seq::<char>::empty())))));
    lemma_field_line("type: "@, dt);
    lemma_field_line("title: "@, name);
    lemma_field_line("description: "@, "自动初始化的 OKF 文档"@);
    assert(l3 =~= "description: "@ + "自动初始化的 OKF 文档"@);
    crate::text::lemma_lines_cons(f, Seq::<char>::empty());
    crate::text::lemma_lines_cons(l3, f + nl + Seq::<char>::empty());
    crate::text::lemma_lines_cons(l2, l3 + nl + (f + nl + Seq::<char>::empty()));
    crate::text::lemma_lines_cons(l1, l2 + nl + (l3 + nl + (f + nl + Seq::<char>::empty())));
    crate::text::lemma_lines_cons(f, l1 + nl + (l2 + nl + (l3 + nl + (f + nl + Seq::<char>::empty()))));
    assert(lines(Seq::<char>::empty()) =~= Seq::<Seq<char>>::empty());
    assert(strip_cr(f) == f);
    assert(strip_cr(l1) == l1);
    assert(strip_cr(l2) == l2);
    assert(strip_cr(l3) == l3);
    let ls = lines(doc);
    assert(ls =~= seq![f, l1, l2, l3, f]);
    lemma_not_heading_start(f);
    assert forall|j: int| 0 <= j < ls.len() implies is_plain_line(#[trigger] ls[j]) && !is_heading(ls[j]) by {
        if j == 0 || j == 4 {
            assert(ls[j] == f);
        }
    }
}

/// Law: in the single-file layout, a block written into a file is what a
/// read of its heading gives back (trimmed): for a new file when the name
/// is one line, and for an existing one whose content is in normal form
/// (see [`normal_body`]) with the block under the heading closed (see
/// [`block_closed`]); the heading must be readable and the content free of
/// carriage returns and heading lines.
#[verifier::spinoff_prover]
#[verifier::rlimit(40)]
pub proof fn lemma_block_read_after_write(
    category: Seq<char>,
    name: Seq<char>,
    heading: Seq<char>,
    content: Seq<char>,
    existing: Option<Seq<char>>,
)
    requires
        crate::okf::store::readable_heading(heading),
        heading_free(content),
        existing is None ==> crate::okf::store::no_breaks(name),
        existing matches Some(raw) ==> normal_body(raw, heading),
        existing matches Some(raw) ==> block_closed(lines(raw), heading),
    ensures
        block_of(crate::okf_files::block_written(category, name, heading, content, existing), heading) == Some(trim(content)),
{
    let base = match existing {
        Some(x) => x,
        None => crate::okf_files::stub_document(crate::okf_files::block_doc_type(category), name),
    };
    let level: nat = if category == "concepts"@ { 2 } else { 1 };
    let ls = lines(base);
    match existing {
        Some(raw) => {},
        None => {
            reveal_strlit("Business Concept");
            reveal_strlit("User Profile");
            reveal_strlit("DuckDB Table");
            reveal_strlit("DuckDB View");
            reveal_strlit("Data Source");
            reveal_strlit("Concept");
            let dt = crate::okf_files::block_doc_type(category);
            assert(crate::okf::store::no_breaks(dt));
            lemma_stub_lines(dt, name);
            assert forall|j: int| 0 <= j < ls.len() implies !heading_matches(#[trigger] ls[j], heading) by {
                assert(!is_heading(ls[j]));
            }
            lemma_match_from_none(ls, heading, 0);
        },
    }
    assert(block_closed(ls, heading));
    assert(forall|j: int| 0 <= j < ls.len() ==> is_plain_line(#[trigger] ls[j]));
    assert(keys_distinct(ls));
    assert(forall|j: int| 0 <= j < ls.len() && is_heading(#[trigger] ls[j]) ==> (heading_matches(ls[j], heading) <==> heading_key(ls[j]) == unicode_lower(heading)));
    crate::okf::markdown::lemma_match_from_bounds(ls, heading, 0);
    if match_from(ls, heading, 0) >= 0 {
        lemma_match_case(ls, heading, content);
    } else {
        assert forall|j: int| 0 <= j < ls.len() implies !heading_matches(#[trigger] ls[j], heading) by {
            lemma_no_match(ls, heading, 0, j);
        }
        lemma_upsert_no_match(ls, heading, content);
        lemma_append_case(ls, ls.push(Seq::<char>::empty()), heading, content, level);
    }
}

// ---------------------------------------------------------------------------
// the form a write leaves a document in
// ---------------------------------------------------------------------------

/// A part of lines in normal form is in normal form.
proof fn lemma_normal_sub(ls: Seq<Seq<char>>, a: int, b: int)
    requires
        normal_lines(ls),
        0 <= a <= b <= ls.len(),
    ensures
        normal_lines(ls.subrange(a, b)),
{
    let w = ls.subrange(a, b);
    assert forall|j: int| 0 <= j < w.len() implies is_plain_line(#[trigger] w[j]) by {
        assert(w[j] == ls[a + j]);
    }
    assert forall|j: int, k: int|
        #![trigger w[j], w[k]]
        0 <= j < k < w.len() && is_heading(w[j]) && is_heading(w[k]) implies heading_key(w[j]) != heading_key(w[k]) by {
        assert(w[j] == ls[a + j] && w[k] == ls[a + k]);
    }
}

/// A good entry's line is no fence.
proof fn lemma_good_not_fence(kv: (Seq<char>, Seq<char>))
    requires
        good_entry(kv),
    ensures
        !is_fence_line(entry_text(kv)),
{
    let et = entry_text(kv);
    let kl = kv.0.len() as int;
    let (a, b) = lemma_trim_sub(et);
    assert(et[0] == kv.0[0]);
    assert(et[kl] == ':');
    assert(a == 0);
    assert(a <= kl < b);
    if trim(et) == fence() {
        assert(trim(et)[kl] == et[kl]);
    }
}

/// Leading newlines of joined lines are the leading empty lines.
proof fn lemma_strip_join(l: Seq<Seq<char>>) -> (k: int)
    requires
        forall|j: int| 0 <= j < l.len() ==> is_plain_line(#[trigger] l[j]),
    ensures
        0 <= k <= l.len(),
        forall|j: int| 0 <= j < k ==> #[trigger] l[j] == Seq::<char>::empty(),
        k < l.len() ==> l[k].len() > 0,
        strip_leading(join(l, seq!['\n']), '\n') == join(l.skip(k), seq!['\n']),
    decreases l.len(),
{
    if l.len() == 0 {
        assert(l.skip(0) =~= l);
        0
    } else if l[0].len() > 0 {
        if l.len() >= 2 {
            crate::text::lemma_join_front(l, seq!['\n']);
        }
        assert(join(l, seq!['\n'])[0] == l[0][0]);
        assert(l.skip(0) =~= l);
        0
    } else if l.len() == 1 {
        assert(l.skip(1) =~= Seq::<Seq<char>>::empty());
        assert(l[0] =~= Seq::<char>::empty());
        1
    } else {
        crate::text::lemma_join_front(l, seq!['\n']);
        let rest = l.drop_first();
        assert forall|j: int| 0 <= j < rest.len() implies is_plain_line(#[trigger] rest[j]) by {
            assert(rest[j] == l[j + 1]);
        }
        let k = lemma_strip_join(rest);
        assert(join(l, seq!['\n']) =~= seq!['\n'] + join(rest, seq!['\n']));
        assert((seq!['\n'] + join(rest, seq!['\n'])).drop_first() =~= join(rest, seq!['\n']));
        assert(rest.skip(k) =~= l.skip(k + 1));
        assert forall|j: int| 0 <= j < k + 1 implies #[trigger] l[j] == Seq::<char>::empty() by {
            if j > 0 {
                assert(l[j] == rest[j - 1]);
            }
        }
        if k < rest.len() {
            assert(l[k + 1] == rest[k]);
        }
        k + 1
    }
}

/// Where the frontmatter of a document of a good frontmatter over `x` ends.
#[verifier::spinoff_prover]
#[verifier::rlimit(80)]
proof fn lemma_header_fences(e: Entries, x: Seq<char>)
    requires
        good_entries(e),
        e.len() > 0,
    ensures
        is_fence_line(lines(serialized(e) + seq!['\n'] + x)[0]),
        fence_from(lines(serialized(e) + seq!['\n'] + x), 1) == e.len() + 1,
        lines(serialized(e) + seq!['\n'] + x).skip(e.len() + 2 as int) == seq![Seq::<char>::empty()] + lines(x),
{
    lemma_header_lines(e, x);
    let hdr = header_lines(e);
    let lx = lines(x);
    let ls = hdr + lx;
    let n = e.len() as int;
    lemma_fence_is_fence();
    assert(hdr[0] == fence());
    assert(ls[0] == hdr[0]);
    assert forall|j: int| 1 <= j < n + 1 implies !is_fence_line(#[trigger] ls[j]) by {
        assert(ls[j] == hdr[j]);
        assert(hdr[j] == entry_text(e[j - 1]));
        lemma_good_not_fence(e[j - 1]);
    }
    assert(ls[n + 1] == hdr[n + 1]);
    assert(hdr[n + 1] == fence());
    lemma_fence_from_at(ls, 1, n + 1);
    assert(ls.skip(n + 2) =~= seq![Seq::<char>::empty()] + lx);
}

proof fn lemma_fence_is_fence()
    ensures
        is_fence_line(fence()),
{
    let f = fence();
    let (fa, fb) = lemma_trim_sub(f);
    assert(!is_ws(f[0]) && !is_ws(f[2]));
    assert(trim(f) =~= f);
}

/// The body a document of a good frontmatter over `x` splits into: the
/// lines of `x` past some leading empty ones, joined.
#[verifier::spinoff_prover]
#[verifier::rlimit(40)]
proof fn lemma_split_body(e: Entries, x: Seq<char>) -> (k: int)
    requires
        good_entries(e),
        e.len() > 0,
        forall|j: int| 0 <= j < lines(x).len() ==> is_plain_line(#[trigger] lines(x)[j]),
    ensures
        0 <= k <= lines(x).len(),
        split_spec(serialized(e) + seq!['\n'] + x).1 == join(lines(x).skip(k), seq!['\n']),
{
    let doc = serialized(e) + seq!['\n'] + x;
    lemma_header_fences(e, x);
    let ls = lines(doc);
    let lx = lines(x);
    let n = e.len() as int;
    let after = ls.skip(n + 2);
    assert(after =~= seq![Seq::<char>::empty()] + lx);
    assert forall|j: int| 0 <= j < after.len() implies is_plain_line(#[trigger] after[j]) by {
        if j > 0 {
            assert(after[j] == lx[j - 1]);
        }
    }
    let k = lemma_strip_join(after);
    assert(after[0] =~= Seq::<char>::empty());
    assert(k >= 1);
    assert(after.skip(k) =~= lx.skip(k - 1));
    k - 1
}

/// The body a document splits into, when it is a good frontmatter over a
/// body whose lines are in normal form, is in normal form.
proof fn lemma_split_normal(e: Entries, x: Seq<char>)
    requires
        good_entries(e),
        e.len() > 0,
        normal_form(x),
    ensures
        normal_form(split_spec(serialized(e) + seq!['\n'] + x).1),
{
    let lx = lines(x);
    let k = lemma_split_body(e, x);
    assert(lx.skip(k) =~= lx.subrange(k, lx.len() as int));
    lemma_normal_sub(lx, k, lx.len() as int);
    let w = lx.skip(k);
    let n2 = lemma_lines_join_trail(w);
    lemma_normal_sub(w, 0, n2);
    assert(w.subrange(0, n2) =~= w.take(n2));
}

/// Law: a write leaves the document's body in normal form (its lines plain,
/// its headings with distinct lowercased texts), under the conditions of
/// [`lemma_read_after_write`]; the read-after-write law thus holds again for
/// the next write under a heading that is matched alike ignoring ASCII case
/// and by lowercased text, whose block is closed (see [`block_closed`]).
#[verifier::spinoff_prover]
#[verifier::rlimit(40)]
pub proof fn lemma_write_keeps_normal_form(
    existing: Option<Seq<char>>,
    c: crate::okf::model::Category,
    name: Seq<char>,
    heading: Seq<char>,
    content: Seq<char>,
    description: Option<Seq<char>>,
    ts: Seq<char>,
)
    requires
        crate::okf::store::no_breaks(ts),
        description matches Some(d) ==> crate::okf::store::no_breaks(d),
        crate::okf::store::readable_heading(heading),
        heading_free(content),
        existing is None ==> crate::okf::store::no_breaks(name),
        existing matches Some(raw) ==> normal_body(crate::okf::frontmatter::split_spec(raw).1, heading),
    ensures
        normal_form(split_spec(crate::okf::store::written_spec(existing, c, name, heading, content, description, ts)).1),
{
    let fm = match existing {
        None => crate::okf::store::new_entries(c, name, description, ts),
        Some(raw) => crate::okf::store::updated_entries(crate::okf::frontmatter::split_spec(raw).0, description, ts),
    };
    let body = match existing {
        None => Seq::<char>::empty(),
        Some(raw) => crate::okf::frontmatter::split_spec(raw).1,
    };
    match existing {
        None => {
            lemma_new_good(c, name, description, ts);
            assert(lines(body) =~= Seq::<Seq<char>>::empty());
        },
        Some(raw) => {
            lemma_updated_good(raw, description, ts);
        },
    }
    let level = crate::okf::store::block_level(c);
    let x = deduplicated(join(upserted_lines(body, heading, content, level), seq!['\n']));
    lemma_body_write(body, heading, content, level);
    let doc = crate::okf::store::written_spec(existing, c, name, heading, content, description, ts);
    assert(doc == serialized(fm) + seq!['\n'] + x);
    lemma_split_normal(fm, x);
}

// ---------------------------------------------------------------------------
// what a write leaves alone
// ---------------------------------------------------------------------------

proof fn lemma_match_from_none(ls: Seq<Seq<char>>, h: Seq<char>, from: int)
    requires
        0 <= from,
        forall|j: int| from <= j < ls.len() ==> !heading_matches(#[trigger] ls[j], h),
    ensures
        match_from(ls, h, from) == -1,
    decreases ls.len() - from,
{
    if from < ls.len() {
        lemma_match_from_none(ls, h, from + 1);
    }
}

/// The block a read finds in lines whose first heading matching `h` is at
/// `i`, with the next heading closing its section at `e` (or none), even
/// with some empty lines dropped at the end.
proof fn lemma_block_at(p: Seq<Seq<char>>, n: int, h: Seq<char>, i: int, e: int)
    requires
        trail_empty(p, n),
        0 <= i < e <= p.len(),
        heading_matches(p[i], h),
        forall|j: int| 0 <= j < i ==> !heading_matches(#[trigger] p[j], h),
        forall|j: int| i < j < e ==> !closes_section(#[trigger] p[j], heading_level(p[i])),
        e < p.len() ==> closes_section(p[e], heading_level(p[i])),
    ensures
        block_in(p.take(n), h) == Some(trim(join(p.subrange(i + 1, e), seq!['\n']))),
{
    let f = p.take(n);
    let lvl = heading_level(p[i]);
    lemma_heading_nonempty(p[i]);
    assert(i < n);
    assert(f[i] == p[i]);
    assert forall|j: int| 0 <= j < i implies !heading_matches(#[trigger] f[j], h) by {
        assert(f[j] == p[j]);
    }
    crate::okf::markdown::lemma_match_from_at(f, h, 0, i);
    if e < p.len() {
        lemma_heading_nonempty(p[e]);
        assert(e < n);
        assert forall|j: int| i + 1 <= j < e implies !closes_section(#[trigger] f[j], lvl) by {
            assert(f[j] == p[j]);
        }
        assert(f[e] == p[e]);
        lemma_section_end_at(f, lvl, i + 1, e);
        assert(f.subrange(i + 1, e) =~= p.subrange(i + 1, e));
    } else {
        assert forall|j: int| i + 1 <= j < f.len() implies !closes_section(#[trigger] f[j], lvl) by {
            assert(f[j] == p[j]);
        }
        lemma_section_end_none(f, lvl, i + 1);
        let q = p.subrange(i + 1, e);
        assert forall|k: int| n - i - 1 <= k < q.len() implies #[trigger] q[k] == Seq::<char>::empty() by {
            assert(q[k] == p[i + 1 + k]);
        }
        lemma_trim_join_trail(q, n - i - 1);
        assert(q.take(n - i - 1) =~= f.subrange(i + 1, n));
    }
}

/// No heading matches two headings that differ beyond ASCII case.
proof fn lemma_match_one_of(l: Seq<char>, h1: Seq<char>, h2: Seq<char>)
    requires
        !eq_ignore_ascii_case(h1, h2),
        heading_matches(l, h1),
    ensures
        !heading_matches(l, h2),
{
    if heading_matches(l, h2) {
        let t = heading_text(l);
        assert forall|i: int| 0 <= i < h1.len() implies crate::text::ascii_lower(#[trigger] h1[i]) == crate::text::ascii_lower(h2[i]) by {
            assert(crate::text::ascii_lower(t[i]) == crate::text::ascii_lower(h1[i]));
            assert(crate::text::ascii_lower(t[i]) == crate::text::ascii_lower(h2[i]));
        }
    }
}

/// A write under `h2` puts its heading outside the block that a read of
/// `h1` finds in the lines `ls`: the heading matching `h2` is not inside
/// that block; where none matches, the heading the write adds at the end
/// (of `level`) is not deeper than `h1`'s when that block runs to the end.
pub open spec fn written_outside(ls: Seq<Seq<char>>, h1: Seq<char>, h2: Seq<char>, level: nat) -> bool {
    let i1 = match_from(ls, h1, 0);
    let i0 = match_from(ls, h2, 0);
    let e1 = section_end(ls, heading_level(ls[i1]), i1 + 1);
    i1 >= 0 ==> if i0 >= 0 {
        !(i1 < i0 < e1)
    } else {
        e1 < ls.len() || level <= heading_level(ls[i1])
    }
}

/// Law of block writing on a body: writing under `h2` leaves the block of
/// every heading `h1` that differs from `h2` beyond ASCII case as it was,
/// once trimmed, when the write's heading lies outside that block (see
/// [`written_outside`]).
pub proof fn lemma_body_frame(body: Seq<char>, h2: Seq<char>, c: Seq<char>, level: nat, h1: Seq<char>)
    requires
        normal_body(body, h2),
        crate::okf::store::readable_heading(h2),
        heading_free(c),
        level >= 1,
        !eq_ignore_ascii_case(h1, h2),
        written_outside(lines(body), h1, h2, level),
    ensures
        block_of(deduplicated(join(upserted_lines(body, h2, c, level), seq!['\n'])), h1) == block_of(body, h1),
{
    crate::okf::markdown::lemma_match_from_bounds(lines(body), h2, 0);
    if match_from(lines(body), h2, 0) >= 0 {
        lemma_frame_match(body, h2, c, level, h1);
    } else {
        lemma_frame_append(body, h2, c, level, h1);
    }
}

#[verifier::spinoff_prover]
#[verifier::rlimit(60)]
proof fn lemma_frame_match(body: Seq<char>, h2: Seq<char>, c: Seq<char>, level: nat, h1: Seq<char>)
    requires
        normal_body(body, h2),
        crate::okf::store::readable_heading(h2),
        heading_free(c),
        level >= 1,
        !eq_ignore_ascii_case(h1, h2),
        written_outside(lines(body), h1, h2, level),
        match_from(lines(body), h2, 0) >= 0,
    ensures
        block_of(deduplicated(join(upserted_lines(body, h2, c, level), seq!['\n'])), h1) == block_of(body, h1),
{
    let ls = lines(body);
    let m = content_lines(c);
    lemma_content_lines(c);
    let i0 = match_from(ls, h2, 0);
    crate::okf::markdown::lemma_match_from_bounds(ls, h2, 0);
    let i1 = match_from(ls, h1, 0);
    crate::okf::markdown::lemma_match_from_bounds(ls, h1, 0);
    if i1 >= 0 {
        lemma_match_first(ls, h1, 0);
        lemma_section_end_props(ls, heading_level(ls[i1]), i1 + 1);
    } else {
        assert forall|j: int| 0 <= j < ls.len() implies !heading_matches(#[trigger] ls[j], h1) by {
            lemma_no_match(ls, h1, 0, j);
        }
    }
    let e1 = section_end(ls, heading_level(ls[i1]), i1 + 1);
    let lvl1 = heading_level(ls[i1]);
    lemma_match_first(ls, h2, 0);
    assert forall|j: int| 0 <= j < ls.len() && j != i0 implies !heading_matches(#[trigger] ls[j], h2) by {
        if heading_matches(ls[j], h2) {
            assert(is_heading(ls[j]) && is_heading(ls[i0]));
            if j > i0 {
                assert(heading_key(ls[j]) == unicode_lower(h2));
                assert(heading_key(ls[i0]) == unicode_lower(h2));
            }
        }
    }
    lemma_upsert_one_match(ls, h2, c, i0);
    lemma_heading_from_props(ls, i0 + 1);
    let j1 = heading_from(ls, i0 + 1);
    let a = ls.take(i0 + 1);
    let t = ls.skip(j1);
    let u = a.push(c) + t;
    if t.len() > 0 {
        assert(u =~= a + (seq![c] + t));
        lemma_join_concat(a, seq![c] + t, seq!['\n']);
        lemma_join_concat(seq![c], t, seq!['\n']);
        assert(a + m + t =~= a + (m + t));
        lemma_join_concat(a, m + t, seq!['\n']);
        lemma_join_concat(m, t, seq!['\n']);
    } else {
        assert(u =~= a + seq![c]);
        lemma_join_concat(a, seq![c], seq!['\n']);
        assert(a + m + t =~= a + m);
        lemma_join_concat(a, m, seq!['\n']);
    }
    let p = a + m + t;
    let off = i0 + 1 + m.len() - j1;
    assert forall|j: int| 0 <= j < p.len() implies is_plain_line(#[trigger] p[j]) by {
        if j <= i0 {
            assert(p[j] == ls[j]);
        } else if j < i0 + 1 + m.len() {
            assert(p[j] == m[j - i0 - 1]);
        } else {
            assert(p[j] == ls[j - off]);
        }
    }
    lemma_keys_distinct_cut(ls, i0 + 1, j1);
    assert(ls.take(i0 + 1) + ls.skip(j1) =~= a + t);
    lemma_keys_distinct_insert(a, m, t);
    let n2 = lemma_dedup_lines(p);
    if i1 < 0 {
        assert forall|j: int| 0 <= j < p.take(n2).len() implies !heading_matches(#[trigger] p.take(n2)[j], h1) by {
            assert(p.take(n2)[j] == p[j]);
            if j <= i0 {
                assert(p[j] == ls[j]);
            } else if j < i0 + 1 + m.len() {
                assert(p[j] == m[j - i0 - 1]);
            } else {
                assert(p[j] == ls[j - off]);
            }
        }
        lemma_match_from_none(p.take(n2), h1, 0);
    } else if i1 < i0 {
        assert(e1 <= i0);
        assert forall|j: int| 0 <= j < i1 implies !heading_matches(#[trigger] p[j], h1) by {
            assert(p[j] == ls[j]);
        }
        assert forall|j: int| i1 < j < e1 implies !closes_section(#[trigger] p[j], lvl1) by {
            assert(p[j] == ls[j]);
        }
        assert(p[e1] == ls[e1]);
        assert(p[i1] == ls[i1]);
        lemma_block_at(p, n2, h1, i1, e1);
        assert(p.subrange(i1 + 1, e1) =~= ls.subrange(i1 + 1, e1));
    } else {
        assert(i1 != i0) by {
            if i1 == i0 {
                lemma_match_one_of(ls[i0], h1, h2);
            }
        }
        assert(i1 >= j1);
        let q1 = i1 + off;
        let qe = e1 + off;
        assert(p[q1] == ls[i1]);
        assert forall|j: int| 0 <= j < q1 implies !heading_matches(#[trigger] p[j], h1) by {
            if j <= i0 {
                assert(p[j] == ls[j]);
            } else if j < i0 + 1 + m.len() {
                assert(p[j] == m[j - i0 - 1]);
            } else {
                assert(p[j] == ls[j - off]);
            }
        }
        assert forall|j: int| q1 < j < qe implies !closes_section(#[trigger] p[j], lvl1) by {
            assert(p[j] == ls[j - off]);
        }
        if e1 < ls.len() {
            assert(p[qe] == ls[e1]);
        }
        lemma_block_at(p, n2, h1, q1, qe);
        assert(p.subrange(q1 + 1, qe) =~= ls.subrange(i1 + 1, e1));
    }
}

#[verifier::spinoff_prover]
#[verifier::rlimit(60)]
proof fn lemma_frame_append(body: Seq<char>, h2: Seq<char>, c: Seq<char>, level: nat, h1: Seq<char>)
    requires
        normal_body(body, h2),
        crate::okf::store::readable_heading(h2),
        heading_free(c),
        level >= 1,
        !eq_ignore_ascii_case(h1, h2),
        written_outside(lines(body), h1, h2, level),
        match_from(lines(body), h2, 0) < 0,
    ensures
        block_of(deduplicated(join(upserted_lines(body, h2, c, level), seq!['\n'])), h1) == block_of(body, h1),
{
    let ls = lines(body);
    let m = content_lines(c);
    lemma_content_lines(c);
    let i0 = match_from(ls, h2, 0);
    crate::okf::markdown::lemma_match_from_bounds(ls, h2, 0);
    let i1 = match_from(ls, h1, 0);
    crate::okf::markdown::lemma_match_from_bounds(ls, h1, 0);
    if i1 >= 0 {
        lemma_match_first(ls, h1, 0);
        lemma_section_end_props(ls, heading_level(ls[i1]), i1 + 1);
    } else {
        assert forall|j: int| 0 <= j < ls.len() implies !heading_matches(#[trigger] ls[j], h1) by {
            lemma_no_match(ls, h1, 0, j);
        }
    }
    let e1 = section_end(ls, heading_level(ls[i1]), i1 + 1);
    let lvl1 = heading_level(ls[i1]);
    assert forall|j: int| 0 <= j < ls.len() implies !heading_matches(#[trigger] ls[j], h2) by {
        lemma_no_match(ls, h2, 0, j);
    }
    lemma_upsert_no_match(ls, h2, c);
    crate::okf::store::lemma_new_heading_matches(level, h2);
    let hl = level_prefix(level) + h2;
    let e = Seq::<char>::empty();
    let o = if ls.len() > 0 && ls.last().len() > 0 { ls.push(e) } else { ls };
    let u = o.push(hl).push(c);
    let (ea, eb) = lemma_trim_sub(e);
    assert(!is_heading(e));
    assert(u =~= o.push(hl) + seq![c]);
    lemma_join_concat(o.push(hl), seq![c], seq!['\n']);
    lemma_join_concat(o.push(hl), m, seq!['\n']);
    let p = o.push(hl) + m;
    assert forall|j: int| 0 <= j < p.len() implies is_plain_line(#[trigger] p[j]) by {
        if j < ls.len() {
            assert(p[j] == ls[j]);
        } else if j < o.len() {
            assert(p[j] == e);
        } else if j == o.len() {
            assert(p[j] == hl);
        } else {
            assert(p[j] == m[j - o.len() - 1]);
        }
    }
    let oh = o.push(hl);
    assert forall|j: int, k: int|
        #![trigger oh[j], oh[k]]
        0 <= j < k < oh.len() && is_heading(oh[j]) && is_heading(oh[k]) implies heading_key(oh[j]) != heading_key(oh[k]) by {
        if k < o.len() {
            assert(j < ls.len() && k < ls.len());
            assert(oh[j] == ls[j] && oh[k] == ls[k]);
        } else {
            assert(j < ls.len());
            assert(oh[j] == ls[j]);
            assert(heading_key(hl) == unicode_lower(h2));
        }
    }
    lemma_keys_distinct_insert(oh, m, Seq::<Seq<char>>::empty());
    assert(oh + m + Seq::<Seq<char>>::empty() =~= p);
    let n2 = lemma_dedup_lines(p);
    assert(!heading_matches(hl, h1)) by {
        if heading_matches(hl, h1) {
            lemma_match_one_of(hl, h1, h2);
        }
    }
    if i1 < 0 {
        assert forall|j: int| 0 <= j < p.take(n2).len() implies !heading_matches(#[trigger] p.take(n2)[j], h1) by {
            assert(p.take(n2)[j] == p[j]);
            if j < ls.len() {
                assert(p[j] == ls[j]);
            } else if j < o.len() {
                assert(p[j] == e);
            } else if j > o.len() {
                assert(p[j] == m[j - o.len() - 1]);
            }
        }
        lemma_match_from_none(p.take(n2), h1, 0);
    } else {
        assert forall|j: int| 0 <= j < i1 implies !heading_matches(#[trigger] p[j], h1) by {
            assert(p[j] == ls[j]);
        }
        assert(p[i1] == ls[i1]);
        if e1 < ls.len() {
            assert forall|j: int| i1 < j < e1 implies !closes_section(#[trigger] p[j], lvl1) by {
                assert(p[j] == ls[j]);
            }
            assert(p[e1] == ls[e1]);
            lemma_block_at(p, n2, h1, i1, e1);
            assert(p.subrange(i1 + 1, e1) =~= ls.subrange(i1 + 1, e1));
        } else {
            let oe = o.len() as int;
            assert(level <= lvl1);
            assert forall|j: int| i1 < j < oe implies !closes_section(#[trigger] p[j], lvl1) by {
                if j < ls.len() {
                    assert(p[j] == ls[j]);
                } else {
                    assert(p[j] == e);
                }
            }
            assert(p[oe] == hl);
            lemma_block_at(p, n2, h1, i1, oe);
            let q = p.subrange(i1 + 1, oe);
            assert(q.take(ls.len() - i1 - 1) =~= ls.subrange(i1 + 1, e1));
            assert forall|k: int| ls.len() - i1 - 1 <= k < q.len() implies #[trigger] q[k] == Seq::<char>::empty() by {
                assert(q[k] == p[i1 + 1 + k]);
                assert(p[i1 + 1 + k] == e);
            }
            lemma_trim_join_trail(q, ls.len() - i1 - 1);
        }
    }
}

/// Law: a write under one heading leaves the block of every heading that
/// differs from it beyond ASCII case as the document's body had it (none,
/// for a new document): with the timestamp, description, heading and content
/// as [`lemma_read_after_write`] asks, a body in normal form, and the
/// write's heading outside that block (see [`written_outside`]).
#[verifier::spinoff_prover]
#[verifier::rlimit(40)]
pub proof fn lemma_write_keeps_other_blocks(
    existing: Option<Seq<char>>,
    c: crate::okf::model::Category,
    name: Seq<char>,
    heading: Seq<char>,
    content: Seq<char>,
    description: Option<Seq<char>>,
    ts: Seq<char>,
    other: Seq<char>,
)
    requires
        crate::okf::store::no_breaks(ts),
        description matches Some(d) ==> crate::okf::store::no_breaks(d),
        crate::okf::store::readable_heading(heading),
        heading_free(content),
        existing is None ==> crate::okf::store::no_breaks(name),
        existing matches Some(raw) ==> normal_body(crate::okf::frontmatter::split_spec(raw).1, heading),
        existing matches Some(raw) ==> written_outside(
            lines(crate::okf::frontmatter::split_spec(raw).1),
            other,
            heading,
            crate::okf::store::block_level(c),
        ),
        !eq_ignore_ascii_case(other, heading),
    ensures
        block_of(crate::okf::store::written_spec(existing, c, name, heading, content, description, ts), other)
            == block_of(
            match existing {
                None => Seq::<char>::empty(),
                Some(raw) => crate::okf::frontmatter::split_spec(raw).1,
            },
            other,
        ),
{
    let fm = match existing {
        None => crate::okf::store::new_entries(c, name, description, ts),
        Some(raw) => crate::okf::store::updated_entries(crate::okf::frontmatter::split_spec(raw).0, description, ts),
    };
    let body = match existing {
        None => Seq::<char>::empty(),
        Some(raw) => crate::okf::frontmatter::split_spec(raw).1,
    };
    match existing {
        None => {
            lemma_new_good(c, name, description, ts);
            assert(lines(body) =~= Seq::<Seq<char>>::empty());
        },
        Some(raw) => {
            lemma_updated_good(raw, description, ts);
        },
    }
    let level = crate::okf::store::block_level(c);
    let x = deduplicated(join(upserted_lines(body, heading, content, level), seq!['\n']));
    lemma_body_frame(body, heading, content, level, other);
    let doc = crate::okf::store::written_spec(existing, c, name, heading, content, description, ts);
    assert(doc == serialized(fm) + seq!['\n'] + x);
    lemma_header_lines(fm, x);
    let hdr = header_lines(fm);
    assert forall|j: int| 0 <= j < hdr.len() implies !heading_matches(#[trigger] hdr[j], other) by {
        assert(!is_heading(hdr[j]));
    }
    lemma_block_shift(hdr, lines(x), other);
    assert(block_of(doc, other) == block_in(lines(doc), other));
    assert(block_of(x, other) == block_in(lines(x), other));
}

// ---------------------------------------------------------------------------
// block writing on any body
// ---------------------------------------------------------------------------

/// Block replacement on any lines, after the first `k`, where the first
/// heading matching `h` is at `i0`: before it nothing changes; then the
/// heading and `c` stand in place of the old block, up to the next heading,
/// which follows them.
#[verifier::spinoff_prover]
#[verifier::rlimit(60)]
proof fn lemma_upsert_front(ls: Seq<Seq<char>>, h: Seq<char>, c: Seq<char>, k: int)
    requires
        0 <= k <= ls.len(),
        match_from(ls, h, 0) >= 0,
    ensures
        ({
            let i0 = match_from(ls, h, 0);
            let st = upsert_scan(ls.take(k), h, c);
            let j1 = heading_from(ls, i0 + 1);
            &&& k <= i0 ==> st.out == ls.take(k) && !st.skipping
            &&& i0 < k ==> st.written
            &&& i0 < k <= j1 ==> st.out == ls.take(i0 + 1).push(c) && st.skipping
            &&& j1 < k ==> st.out.len() > i0 + 2 && st.out.take(i0 + 2) == ls.take(i0 + 1).push(c) && st.out[i0 + 2]
                == ls[j1]
        }),
    decreases k,
{
    let i0 = match_from(ls, h, 0);
    crate::okf::markdown::lemma_match_from_bounds(ls, h, 0);
    lemma_match_first(ls, h, 0);
    lemma_heading_from_props(ls, i0 + 1);
    let j1 = heading_from(ls, i0 + 1);
    if k == 0 {
        assert(ls.take(0) =~= Seq::<Seq<char>>::empty());
    } else {
        lemma_upsert_front(ls, h, c, k - 1);
        let x = ls[k - 1];
        assert(ls.take(k).drop_last() =~= ls.take(k - 1));
        assert(ls.take(k).last() == x);
        let prev = upsert_scan(ls.take(k - 1), h, c);
        let st = upsert_scan(ls.take(k), h, c);
        assert(st == upsert_step(prev, x, h, c));
        let a = ls.take(i0 + 1).push(c);
        if k - 1 < i0 {
            assert(!heading_matches(x, h));
            assert(ls.take(k - 1).push(x) =~= ls.take(k));
        } else if k - 1 == i0 {
            assert(ls.take(k - 1).push(x) =~= ls.take(i0 + 1));
        } else if k - 1 < j1 {
            assert(!is_heading(x));
        } else if k - 1 == j1 {
            assert(is_heading(x));
            if heading_matches(x, h) {
                assert(st.out == a.push(x).push(c));
                assert(st.out.take(i0 + 2) =~= a);
            } else {
                assert(st.out == a.push(x));
                assert(st.out.take(i0 + 2) =~= a);
            }
        } else {
            let o = prev.out;
            if is_heading(x) && heading_matches(x, h) {
                assert(st.out == o.push(x).push(c));
                assert(st.out.take(i0 + 2) =~= o.take(i0 + 2));
            } else if !is_heading(x) && prev.skipping {
                assert(st.out == o);
            } else {
                assert(st.out == o.push(x));
                assert(st.out.take(i0 + 2) =~= o.take(i0 + 2));
            }
        }
    }
}

/// Lines that trim alike are alike as headings.
proof fn lemma_cr_alike(a: Seq<char>, b: Seq<char>, h: Seq<char>)
    requires
        a == b || a == crate::text::strip_cr(b),
    ensures
        is_heading(a) == is_heading(b),
        heading_matches(a, h) == heading_matches(b, h),
        heading_level(a) == heading_level(b),
        closes_section(a, heading_level(b)) == closes_section(b, heading_level(b)),
{
    crate::text::lemma_trim_strip_cr(b);
}

/// The block a read finds in the lines of `join(q)`, where the first line
/// matching `h` is at `i0`, the block's lines `m` follow it, and then a line
/// that closes its section or nothing.
#[verifier::spinoff_prover]
#[verifier::rlimit(60)]
proof fn lemma_read_joined(q: Seq<Seq<char>>, y: Option<Seq<char>>, i0: int, m: Seq<Seq<char>>, h: Seq<char>)
    requires
        0 <= i0 < q.len(),
        forall|i: int| 0 <= i < q.len() ==> crate::text::one_line(#[trigger] q[i]),
        forall|j: int| 0 <= j < i0 ==> !heading_matches(#[trigger] q[j], h),
        heading_matches(q[i0], h),
        m.len() > 0,
        q.subrange(i0 + 1, i0 + 1 + m.len() as int) == m,
        forall|j: int| 0 <= j < m.len() ==> !is_heading(#[trigger] m[j]) && is_plain_line(m[j]),
        q.len() == i0 + 1 + m.len() || (q.len() == i0 + 2 + m.len() && closes_section(q.last(), heading_level(q[i0]))),
        y is Some ==> q.len() == i0 + 2 + m.len(),
    ensures
        block_in(lines(match y {
            Some(z) => join(q, seq!['\n']) + seq!['\n'] + z,
            None => join(q, seq!['\n']),
        }), h) == Some(trim(join(m, seq!['\n']))),
{
    let nl = seq!['\n'];
    let text = match y {
        Some(z) => join(q, nl) + nl + z,
        None => join(q, nl),
    };
    let ls = lines(text);
    let ml = m.len() as int;
    let e = i0 + 1 + ml;
    match y {
        Some(z) => {
            crate::text::lemma_lines_join_then(q, z);
        },
        None => {
            crate::text::lemma_lines_join_all(q);
        },
    }
    // every line of `ls` up to the block's end is a line of `q`, perhaps
    // without a final carriage return
    assert forall|i: int| 0 <= i < q.len() - 1 implies ls[i] == crate::text::strip_cr(#[trigger] q[i]) by {
        match y {
            Some(z) => {},
            None => {
                assert(ls[i] == crate::text::strip_crs(q.drop_last())[i]);
            },
        }
    }
    let lvl = heading_level(q[i0]);
    assert(i0 < q.len() - 1);
    lemma_cr_alike(ls[i0], q[i0], h);
    assert forall|j: int| 0 <= j < i0 implies !heading_matches(#[trigger] ls[j], h) by {
        lemma_cr_alike(ls[j], q[j], h);
    }
    crate::okf::markdown::lemma_match_from_at(ls, h, 0, i0);
    assert(heading_level(ls[i0]) == lvl);
    assert forall|j: int| 0 <= j < ml implies m[j] == q[i0 + 1 + j] by {
        assert(q.subrange(i0 + 1, e)[j] == q[i0 + 1 + j]);
    }
    if q.len() == e + 1 {
        // a closing line follows the block
        assert(ls.len() > e);
        let last = q.last();
        assert(ls[e] == last || ls[e] == crate::text::strip_cr(last)) by {
            match y {
                Some(z) => {
                    assert(ls[e] == crate::text::strip_crs(q)[e]);
                },
                None => {
                    assert(last.len() > 0) by {
                        lemma_heading_nonempty(last);
                    }
                },
            }
        }
        lemma_cr_alike(ls[e], last, h);
        assert forall|j: int| i0 + 1 <= j < e implies !closes_section(#[trigger] ls[j], lvl) by {
            let mj = m[j - i0 - 1];
            assert(q[j] == mj);
            assert(crate::text::strip_cr(mj) == mj);
        }
        lemma_section_end_at(ls, lvl, i0 + 1, e);
        assert(ls.subrange(i0 + 1, e) =~= m) by {
            assert forall|j: int| 0 <= j < ml implies ls.subrange(i0 + 1, e)[j] == m[j] by {
                assert(q[i0 + 1 + j] == m[j]);
                assert(crate::text::strip_cr(m[j]) == m[j]);
            }
        }
    } else {
        // the block runs to the end
        assert(y is None);
        let n = ls.len() - i0 - 1;
        assert(ls.len() == e || (ls.len() == e - 1 && m.last().len() == 0));
        assert forall|j: int| i0 + 1 <= j < ls.len() implies !closes_section(#[trigger] ls[j], lvl) by {
            let mj = m[j - i0 - 1];
            assert(q[j] == mj);
            assert(crate::text::strip_cr(mj) == mj);
            if j < q.len() - 1 {
                assert(ls[j] == mj);
            } else {
                assert(ls[j] == q.last());
            }
        }
        lemma_section_end_none(ls, lvl, i0 + 1);
        assert forall|k: int| n <= k < m.len() implies #[trigger] m[k] == Seq::<char>::empty() by {
            assert(k == ml - 1);
        }
        lemma_trim_join_trail(m, n);
        assert(ls.subrange(i0 + 1, ls.len() as int) =~= m.take(n)) by {
            assert forall|j: int| 0 <= j < n implies ls.subrange(i0 + 1, ls.len() as int)[j] == m[j] by {
                assert(q[i0 + 1 + j] == m[j]);
                assert(crate::text::strip_cr(m[j]) == m[j]);
                if i0 + 1 + j < q.len() - 1 {
                } else {
                    assert(ls[i0 + 1 + j] == q.last());
                }
            }
        }
    }
}

/// Law: writing `c` under `h` into any body (as `upsert_block` does) and
/// reading `h` (as `extract_block` does) gives `c` back, trimmed, when the
/// block under `h` is closed (see [`block_closed`]), `h` can make a heading
/// line (see [`crate::okf::store::heading_name`]) and `c` is free of
/// carriage returns and heading lines.
#[verifier::spinoff_prover]
#[verifier::rlimit(60)]
pub proof fn lemma_upsert_read_back(body: Seq<char>, h: Seq<char>, c: Seq<char>, level: nat)
    requires
        block_closed(lines(body), h),
        crate::okf::store::heading_name(h),
        heading_free(c),
        level >= 1,
    ensures
        block_of(join(upserted_lines(body, h, c, level), seq!['\n']), h) == Some(trim(c)),
{
    let ls = lines(body);
    let m = content_lines(c);
    let ml = m.len() as int;
    let nl = seq!['\n'];
    lemma_content_lines(c);
    lemma_lines_no_newline(body);
    assert forall|i: int| 0 <= i < ls.len() implies crate::text::one_line(#[trigger] ls[i]) by {
        assert forall|j: int| 0 <= j < ls[i].len() implies #[trigger] ls[i][j] != '\n' by {
            assert(lines(body)[i][j] != '\n');
        }
    }
    assert forall|i: int| 0 <= i < ml implies crate::text::one_line(#[trigger] m[i]) by {
        assert(is_plain_line(m[i]));
    }
    crate::okf::markdown::lemma_match_from_bounds(ls, h, 0);
    if match_from(ls, h, 0) >= 0 {
        let i0 = match_from(ls, h, 0);
        lemma_match_first(ls, h, 0);
        lemma_heading_from_props(ls, i0 + 1);
        let j1 = heading_from(ls, i0 + 1);
        lemma_upsert_front(ls, h, c, ls.len() as int);
        assert(ls.take(ls.len() as int) =~= ls);
        let out = upsert_scan(ls, h, c).out;
        assert(upserted_lines(body, h, c, level) == out);
        let a = ls.take(i0 + 1);
        let b = a + m;
        assert(a.push(c) =~= a + seq![c]);
        lemma_join_concat(a, seq![c], nl);
        lemma_join_concat(a, m, nl);
        assert(join(a.push(c), nl) == join(b, nl));
        assert forall|j: int| 0 <= j < i0 implies !heading_matches(#[trigger] b[j], h) by {
            assert(b[j] == ls[j]);
        }
        assert(b[i0] == ls[i0]);
        assert(b.subrange(i0 + 1, i0 + 1 + ml) =~= m);
        if j1 == ls.len() {
            assert(out == a.push(c));
            assert forall|i: int| 0 <= i < b.len() implies crate::text::one_line(#[trigger] b[i]) by {
                if i <= i0 {
                    assert(b[i] == ls[i]);
                } else {
                    assert(b[i] == m[i - i0 - 1]);
                }
            }
            lemma_read_joined(b, None, i0, m, h);
        } else {
            let t0 = ls[j1];
            let q = b.push(t0);
            assert forall|i: int| 0 <= i < q.len() implies crate::text::one_line(#[trigger] q[i]) by {
                if i <= i0 {
                    assert(q[i] == ls[i]);
                } else if i < i0 + 1 + ml {
                    assert(q[i] == m[i - i0 - 1]);
                } else {
                    assert(q[i] == t0);
                }
            }
            assert forall|j: int| 0 <= j < i0 implies !heading_matches(#[trigger] q[j], h) by {
                assert(q[j] == b[j]);
            }
            assert(q.subrange(i0 + 1, i0 + 1 + ml) =~= m);
            assert(q[i0] == ls[i0]);
            assert(closes_section(q.last(), heading_level(q[i0])));
            let front = out.take(i0 + 3);
            assert(front =~= a.push(c).push(t0));
            assert(front.drop_last() =~= a.push(c));
            assert(join(front, nl) == join(a.push(c), nl) + nl + t0);
            assert(q.drop_last() =~= b);
            assert(join(q, nl) == join(b, nl) + nl + t0);
            if out.len() == i0 + 3 {
                assert(out =~= front);
                lemma_read_joined(q, None, i0, m, h);
            } else {
                let rest = out.skip(i0 + 3);
                assert(out =~= front + rest);
                lemma_join_concat(front, rest, nl);
                lemma_read_joined(q, Some(join(rest, nl)), i0, m, h);
            }
        }
    } else {
        assert forall|j: int| 0 <= j < ls.len() implies !heading_matches(#[trigger] ls[j], h) by {
            lemma_no_match(ls, h, 0, j);
        }
        lemma_upsert_no_match(ls, h, c);
        crate::okf::store::lemma_new_heading_matches(level, h);
        let hl = level_prefix(level) + h;
        let e = Seq::<char>::empty();
        let (ea, eb) = lemma_trim_sub(e);
        assert(!is_heading(e));
        let o = if ls.len() > 0 && ls.last().len() > 0 { ls.push(e) } else { ls };
        assert(upserted_lines(body, h, c, level) == o.push(hl).push(c));
        let oh = o.push(hl);
        let q = oh + m;
        assert(oh.push(c) =~= oh + seq![c]);
        lemma_join_concat(oh, seq![c], nl);
        lemma_join_concat(oh, m, nl);
        let i0 = o.len() as int;
        assert forall|i: int| 0 <= i < q.len() implies crate::text::one_line(#[trigger] q[i]) by {
            if i < ls.len() {
                assert(q[i] == ls[i]);
            } else if i < i0 {
                assert(q[i] == e);
            } else if i == i0 {
                assert(q[i] == hl);
                assert(is_plain_line(hl));
            } else {
                assert(q[i] == m[i - i0 - 1]);
            }
        }
        assert forall|j: int| 0 <= j < i0 implies !heading_matches(#[trigger] q[j], h) by {
            if j < ls.len() {
                assert(q[j] == ls[j]);
            } else {
                assert(q[j] == e);
            }
        }
        assert(q[i0] == hl);
        assert(q.subrange(i0 + 1, i0 + 1 + ml) =~= m);
        lemma_read_joined(q, None, i0, m, h);
    }
}

} // verus!
