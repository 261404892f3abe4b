//! The knowledge catalog: full-text search over the global and workspace
//! knowledge, and the outlines built from the category directories.
//!
//! The directories are read by the caller; everything here works on what was
//! read: a file's relative path or name, and its text.

use vstd::prelude::*;

use crate::okf::frontmatter::{lookup, split_document, split_spec, Entries};
use crate::okf::markdown::{block_of, extract_block, extract_headings, headings_of};
use crate::duckdb::attach::{alias_spec, workspace_attach_alias};
use crate::model::TableRegistryEntry;
use crate::okf::store::string_views;
use crate::okf::similarity::{duplicate_groups, entry_views, grouping_of, string_groups};
use crate::okf::model::{status_icon, status_named, Scope, SearchHit, TableStatus};
use crate::text::{
    lex_le, lex_lt,
    chars_of, contains, contains_in, join, join_ranges, line_ranges, lines, lowercase_chars,
    push_range, push_str, range_texts, ranges_in, string_from, unicode_lower, word_ranges,
    ws_words, decimal, push_u64, push_joined, find, find_in, has_prefix_at, is_whitespace, ltrim,
    occurs_at, starts_with, str_eq, string_of_range, trim, trim_bounds,
};

verus! {

// ---------------------------------------------------------------------------
// search
// ---------------------------------------------------------------------------

/// The lower-cased words, empty ones dropped.
pub open spec fn lowered_words(ws: Seq<Seq<char>>) -> Seq<Seq<char>>
    decreases ws.len(),
{
    if ws.len() == 0 {
        Seq::empty()
    } else {
        let prev = lowered_words(ws.drop_last());
        let l = unicode_lower(ws.last());
        if l.len() == 0 {
            prev
        } else {
            prev.push(l)
        }
    }
}

/// The search tokens of a query: its whitespace-separated words, lower-cased.
pub open spec fn query_tokens(q: Seq<char>) -> Seq<Seq<char>> {
    lowered_words(ws_words(q))
}

/// How many of the tokens occur in `low`.
pub open spec fn hit_count(tokens: Seq<Seq<char>>, low: Seq<char>) -> nat
    decreases tokens.len(),
{
    if tokens.len() == 0 {
        0
    } else {
        hit_count(tokens.drop_last(), low) + if contains(low, tokens.last()) {
            1nat
        } else {
            0nat
        }
    }
}

/// A line's score: the tokens found in it, case-insensitively.
pub open spec fn line_score(tokens: Seq<Seq<char>>, line: Seq<char>) -> nat {
    hit_count(tokens, unicode_lower(line))
}

/// The first line with the highest positive score, as `(score, index)`;
/// `None` when no line scores.
pub open spec fn best_line(tokens: Seq<Seq<char>>, ls: Seq<Seq<char>>) -> Option<(nat, int)>
    decreases ls.len(),
{
    if ls.len() == 0 {
        None
    } else {
        let prev = best_line(tokens, ls.drop_last());
        let s = line_score(tokens, ls.last());
        if s == 0 {
            prev
        } else {
            match prev {
                Some(b) => if s > b.0 {
                    Some((s, ls.len() - 1))
                } else {
                    prev
                },
                None => Some((s, ls.len() - 1)),
            }
        }
    }
}

/// The preview of a hit: the line before the best one, it, and up to three
/// after it, joined by newlines.
pub open spec fn preview_of(ls: Seq<Seq<char>>, i: int) -> Seq<char> {
    let from = if i >= 1 {
        i - 1
    } else {
        0
    };
    let to = if i + 4 < ls.len() {
        i + 4
    } else {
        ls.len() as int
    };
    join(ls.subrange(from, to), seq!['\n'])
}

pub open spec fn scope_label(s: Scope) -> Seq<char> {
    match s {
        Scope::Global => "全局"@,
        Scope::Workspace => "工作区"@,
    }
}

/// `[label] rel_path`.
pub open spec fn hit_path(s: Scope, rel: Seq<char>) -> Seq<char> {
    seq!['['] + scope_label(s) + seq![']', ' '] + rel
}

/// The scored hits among the documents `(relative path, text)` of one
/// scope, in the order given.
pub open spec fn scope_hits(tokens: Seq<Seq<char>>, scope: Scope, docs: Seq<(Seq<char>, Seq<char>)>) -> Seq<
    (nat, Seq<char>, Seq<char>),
>
    decreases docs.len(),
{
    if docs.len() == 0 {
        Seq::empty()
    } else {
        let prev = scope_hits(tokens, scope, docs.drop_last());
        let d = docs.last();
        let ls = lines(d.1);
        match best_line(tokens, ls) {
            None => prev,
            Some(b) => prev.push((b.0, hit_path(scope, d.0), preview_of(ls, b.1))),
        }
    }
}

/// All scored hits: the global documents first, then the workspace ones.
pub open spec fn search_hits(q: Seq<char>, global: Seq<(Seq<char>, Seq<char>)>, workspace: Seq<(Seq<char>, Seq<char>)>) -> Seq<
    (nat, Seq<char>, Seq<char>),
> {
    let t = query_tokens(q);
    if t.len() == 0 {
        Seq::empty()
    } else {
        scope_hits(t, Scope::Global, global) + scope_hits(t, Scope::Workspace, workspace)
    }
}

pub open spec fn is_permutation(p: Seq<int>, n: int) -> bool {
    &&& p.len() == n
    &&& forall|i: int| 0 <= i < n ==> 0 <= #[trigger] p[i] < n
    &&& forall|i: int, j: int| 0 <= i < j < n ==> p[i] != p[j]
}

/// `out` is `inp` stably sorted by descending score, scores dropped.
pub open spec fn hits_sorted(out: Seq<(Seq<char>, Seq<char>)>, inp: Seq<(nat, Seq<char>, Seq<char>)>) -> bool {
    exists|p: Seq<int>| {
        &&& is_permutation(p, inp.len() as int)
        &&& out.len() == inp.len()
        &&& forall|i: int| 0 <= i < out.len() ==> #[trigger] out[i] == (inp[p[i]].1, inp[p[i]].2)
        &&& forall|i: int, j: int| 0 <= i < j < out.len() ==> inp[#[trigger] p[i]].0 >= inp[#[trigger] p[j]].0
            && (inp[p[i]].0 == inp[p[j]].0 ==> p[i] < p[j])
    }
}

pub open spec fn doc_views(d: Seq<(String, String)>) -> Seq<(Seq<char>, Seq<char>)> {
    Seq::new(d.len(), |i: int| (d[i].0@, d[i].1@))
}

pub open spec fn hit_views(h: Seq<SearchHit>) -> Seq<(Seq<char>, Seq<char>)> {
    Seq::new(h.len(), |i: int| (h[i].rel_path@, h[i].preview@))
}

/// The search tokens of a query.
fn tokens_of(query: &str) -> (r: Vec<Vec<char>>)
    ensures
        crate::text::views(r@) == query_tokens(query@),
{
    let q = chars_of(query);
    let wr = word_ranges(&q, 0, q.len());
    proof {
        assert(q@.subrange(0, q@.len() as int) =~= q@);
    }
    let ghost words = range_texts(q@, wr@);
    let mut out: Vec<Vec<char>> = Vec::new();
    let mut k: usize = 0;
    while k < wr.len()
        invariant
            k <= wr.len(),
            ranges_in(q@, wr@),
            words == range_texts(q@, wr@),
            words == ws_words(query@),
            crate::text::views(out@) == lowered_words(words.take(k as int)),
        decreases wr.len() - k,
    {
        let (a, b) = wr[k];
        let mut w: Vec<char> = Vec::new();
        push_range(&mut w, &q, a, b);
        let low = lowercase_chars(w.as_slice());
        proof {
            assert(words.take(k + 1).drop_last() =~= words.take(k as int));
            assert(w@ =~= words[k as int]);
        }
        if low.len() > 0 {
            let ghost before = out@;
            out.push(low);
            proof {
                assert(crate::text::views(out@) =~= crate::text::views(before).push(low@));
            }
        }
        k = k + 1;
    }
    proof {
        assert(words.take(wr@.len() as int) =~= words);
    }
    out
}

/// How many tokens occur in `low`.
fn count_hits(tokens: &Vec<Vec<char>>, low: &Vec<char>) -> (r: usize)
    ensures
        r == hit_count(crate::text::views(tokens@), low@),
        r <= tokens.len(),
{
    let ghost tv = crate::text::views(tokens@);
    let mut n: usize = 0;
    let mut k: usize = 0;
    while k < tokens.len()
        invariant
            k <= tokens.len(),
            tv == crate::text::views(tokens@),
            n == hit_count(tv.take(k as int), low@),
            n <= k,
        decreases tokens.len() - k,
    {
        let found = contains_in(low, 0, low.len(), tokens[k].as_slice());
        proof {
            assert(low@.subrange(0, low@.len() as int) =~= low@);
            assert(tv.take(k + 1).drop_last() =~= tv.take(k as int));
            assert(tv.take(k + 1).last() == tokens@[k as int]@);
        }
        if found {
            n = n + 1;
        }
        k = k + 1;
    }
    proof {
        assert(tv.take(tokens@.len() as int) =~= tv);
    }
    n
}

/// The best line among the lines `r` of `s` (see [`best_line`]).
fn best_of(tokens: &Vec<Vec<char>>, s: &Vec<char>, r: &Vec<(usize, usize)>) -> (best: Option<(usize, usize)>)
    requires
        ranges_in(s@, r@),
    ensures
        match best_line(crate::text::views(tokens@), range_texts(s@, r@)) {
            None => best is None,
            Some(b) => best matches Some(x) && x.0 == b.0 && x.1 == b.1,
        },
        best matches Some(x) ==> x.1 < r.len(),
{
    let ghost tv = crate::text::views(tokens@);
    let ghost ls = range_texts(s@, r@);
    let mut best: Option<(usize, usize)> = None;
    let mut i: usize = 0;
    while i < r.len()
        invariant
            i <= r.len(),
            ranges_in(s@, r@),
            ls == range_texts(s@, r@),
            tv == crate::text::views(tokens@),
            match best_line(tv, ls.take(i as int)) {
                None => best is None,
                Some(b) => best matches Some(x) && x.0 == b.0 && x.1 == b.1,
            },
            best matches Some(x) ==> x.1 < i,
        decreases r.len() - i,
    {
        let (a, b) = r[i];
        proof {
            assert(r@[i as int].0 <= r@[i as int].1 <= s@.len());
        }
        let mut line: Vec<char> = Vec::new();
        push_range(&mut line, s, a, b);
        let low = lowercase_chars(line.as_slice());
        let score = count_hits(tokens, &low);
        proof {
            assert(ls.take(i + 1).drop_last() =~= ls.take(i as int));
            assert(line@ =~= ls[i as int]);
            assert(ls.take(i + 1).last() == ls[i as int]);
        }
        if score > 0 {
            let better = match best {
                Some((c, _)) => score > c,
                None => true,
            };
            if better {
                best = Some((score, i));
            }
        }
        i = i + 1;
    }
    proof {
        assert(ls.take(r@.len() as int) =~= ls);
    }
    best
}

/// The hit of one document, if any line scores.
fn doc_hit(tokens: &Vec<Vec<char>>, scope: Scope, rel: &String, content: &String) -> (r: Option<(usize, SearchHit)>)
    ensures
        match best_line(crate::text::views(tokens@), lines(content@)) {
            None => r is None,
            Some(b) => r matches Some(h) && h.0 == b.0 && h.1.rel_path@ == hit_path(scope, rel@)
                && h.1.preview@ == preview_of(lines(content@), b.1),
        },
{
    let s = chars_of(content.as_str());
    let r = line_ranges(&s);
    match best_of(tokens, &s, &r) {
        None => None,
        Some((score, m)) => {
            let from: usize = if m >= 1 { m - 1 } else { 0 };
            let to: usize = if r.len() - m > 4 { m + 4 } else { r.len() };
            let nl = ['\n'];
            let pv = join_ranges(&s, &r, from, to, nl.as_slice());
            proof {
                assert(nl@ =~= seq!['\n']);
            }
            let mut path: Vec<char> = Vec::new();
            path.push('[');
            push_str(&mut path, scope.label());
            push_str(&mut path, "] ");
            push_str(&mut path, rel.as_str());
            proof {
                reveal_strlit("] ");
                assert(path@ =~= hit_path(scope, rel@));
            }
            Some((score, SearchHit { rel_path: string_from(path.as_slice()), preview: string_from(pv.as_slice()) }))
        },
    }
}

/// Appends the hits among `docs` of one scope, in order.
fn search_dir(
    tokens: &Vec<Vec<char>>,
    scope: Scope,
    docs: &[(String, String)],
    out: &mut Vec<(usize, SearchHit)>,
)
    ensures
        scored_views(final(out)@) == scored_views(old(out)@) + scope_hits(
            crate::text::views(tokens@),
            scope,
            doc_views(docs@),
        ),
{
    let ghost tv = crate::text::views(tokens@);
    let ghost dv = doc_views(docs@);
    let ghost start = scored_views(out@);
    let mut k: usize = 0;
    while k < docs.len()
        invariant
            k <= docs.len(),
            tv == crate::text::views(tokens@),
            dv == doc_views(docs@),
            scored_views(out@) == start + scope_hits(tv, scope, dv.take(k as int)),
        decreases docs.len() - k,
    {
        let (rel, content) = &docs[k];
        let h = doc_hit(tokens, scope, rel, content);
        proof {
            assert(dv.take(k + 1).drop_last() =~= dv.take(k as int));
            assert(dv.take(k + 1).last() == (rel@, content@));
        }
        match h {
            Some(x) => {
                let ghost before = out@;
                out.push(x);
                proof {
                    assert(scored_views(out@) =~= scored_views(before).push(scored_view(x)));
                }
            },
            None => {},
        }
        k = k + 1;
    }
    proof {
        assert(dv.take(docs@.len() as int) =~= dv);
    }
}

pub open spec fn scored_view(x: (usize, SearchHit)) -> (nat, Seq<char>, Seq<char>) {
    (x.0 as nat, x.1.rel_path@, x.1.preview@)
}

pub open spec fn scored_views(v: Seq<(usize, SearchHit)>) -> Seq<(nat, Seq<char>, Seq<char>)> {
    Seq::new(v.len(), |i: int| scored_view(v[i]))
}

/// Full-text search over the global and the workspace knowledge, each given
/// as `(relative path, text)` of its markdown files. The query is split on
/// whitespace and lower-cased; a file hits when any token occurs in one of
/// its lines (case-insensitively). Its score is the most tokens found in one
/// line, its preview that line with one line before and three after. Hits
/// come by descending score, ties in the order given, global files first.
pub fn search(query: &str, global: &[(String, String)], workspace: &[(String, String)]) -> (r: Vec<SearchHit>)
    ensures
        hits_sorted(hit_views(r@), search_hits(query@, doc_views(global@), doc_views(workspace@))),
{
    let tokens = tokens_of(query);
    let ghost inp = search_hits(query@, doc_views(global@), doc_views(workspace@));
    let mut scored: Vec<(usize, SearchHit)> = Vec::new();
    if tokens.len() > 0 {
        search_dir(&tokens, Scope::Global, global, &mut scored);
        search_dir(&tokens, Scope::Workspace, workspace, &mut scored);
        proof {
            assert(scored_views(Seq::<(usize, SearchHit)>::empty()) =~= Seq::<(nat, Seq<char>, Seq<char>)>::empty());
            assert(scored_views(scored@) =~= inp);
        }
    } else {
        proof {
            assert(scored_views(scored@) =~= inp);
        }
    }
    sort_hits(&scored)
}

/// Stable insertion sort by descending score.
#[verifier::rlimit(40)]
fn sort_hits(scored: &Vec<(usize, SearchHit)>) -> (r: Vec<SearchHit>)
    ensures
        hits_sorted(hit_views(r@), scored_views(scored@)),
{
    let ghost inp = scored_views(scored@);
    let mut out: Vec<SearchHit> = Vec::new();
    let mut keys: Vec<usize> = Vec::new();
    let ghost mut p: Seq<int> = Seq::empty();
    let mut m: usize = 0;
    while m < scored.len()
        invariant
            m <= scored.len(),
            inp == scored_views(scored@),
            is_permutation(p, m as int),
            out@.len() == m,
            keys@.len() == m,
            forall|i: int| 0 <= i < m ==> 0 <= #[trigger] p[i] < m,
            forall|i: int| 0 <= i < out@.len() ==> #[trigger] hit_views(out@)[i] == (inp[p[i]].1, inp[p[i]].2),
            forall|i: int| 0 <= i < out@.len() ==> #[trigger] keys@[i] == inp[p[i]].0,
            forall|i: int, j: int| 0 <= i < j < out@.len() ==> inp[#[trigger] p[i]].0 >= inp[#[trigger] p[j]].0
                && (inp[p[i]].0 == inp[p[j]].0 ==> p[i] < p[j]),
        decreases scored.len() - m,
    {
        let key = scored[m].0;
        let x = SearchHit { rel_path: scored[m].1.rel_path.clone(), preview: scored[m].1.preview.clone() };
        proof {
            assert(scored_view(scored@[m as int]) == inp[m as int]);
        }
        let mut pos: usize = 0;
        while pos < out.len() && keys[pos] >= key
            invariant
                pos <= out.len(),
                keys@.len() == out@.len(),
                forall|i: int| 0 <= i < pos ==> (#[trigger] keys@[i]) >= key,
            decreases out.len() - pos,
        {
            pos = pos + 1;
        }
        let ghost old_out = out@;
        let ghost old_keys = keys@;
        let ghost old_p = p;
        out.insert(pos, x);
        keys.insert(pos, key);
        proof {
            p = old_p.insert(pos as int, m as int);
            old_out.insert_ensures(pos as int, x);
            old_keys.insert_ensures(pos as int, key);
            old_p.insert_ensures(pos as int, m as int);
            assert forall|i: int| 0 <= i < m + 1 implies 0 <= #[trigger] p[i] < m + 1 by {
                if i > pos {
                    assert(p[i] == old_p[i - 1]);
                }
            }
            assert forall|i: int, j: int| 0 <= i < j < m + 1 implies p[i] != p[j] by {
                if i < pos && j > pos {
                    assert(p[j] == old_p[j - 1]);
                } else if i > pos {
                    assert(p[i] == old_p[i - 1] && p[j] == old_p[j - 1]);
                } else if i == pos {
                    assert(p[j] == old_p[j - 1]);
                }
            }
            assert forall|i: int| 0 <= i < out@.len() implies #[trigger] hit_views(out@)[i] == (inp[p[i]].1, inp[p[i]].2) by {
                if i > pos {
                    assert(out@[i] == old_out[i - 1]);
                    assert(p[i] == old_p[i - 1]);
                    assert(hit_views(old_out)[i - 1] == (inp[old_p[i - 1]].1, inp[old_p[i - 1]].2));
                } else if i < pos {
                    assert(hit_views(old_out)[i] == (inp[old_p[i]].1, inp[old_p[i]].2));
                }
            }
            assert forall|i: int| 0 <= i < out@.len() implies #[trigger] keys@[i] == inp[p[i]].0 by {
                if i > pos {
                    assert(keys@[i] == old_keys[i - 1]);
                    assert(p[i] == old_p[i - 1]);
                }
            }
            assert forall|i: int, j: int| 0 <= i < j < out@.len() implies inp[#[trigger] p[i]].0 >= inp[#[trigger] p[j]].0
                && (inp[p[i]].0 == inp[p[j]].0 ==> p[i] < p[j]) by {
                if j < pos {
                } else if j == pos {
                    assert(old_keys[i] >= key);
                    assert(old_keys[i] == inp[old_p[i]].0);
                } else if i < pos {
                    assert(p[j] == old_p[j - 1]);
                    if pos < old_out.len() {
                        assert(old_keys[pos as int] < key);
                    }
                    assert(old_keys[i] == inp[old_p[i]].0);
                    assert(old_keys[j - 1] == inp[old_p[j - 1]].0);
                } else if i == pos {
                    assert(p[j] == old_p[j - 1]);
                    assert(old_keys[pos as int] < key);
                    assert(old_keys[pos as int] == inp[old_p[pos as int]].0);
                    assert(old_keys[j - 1] == inp[old_p[j - 1]].0);
                    if j - 1 > pos {
                        assert(inp[old_p[pos as int]].0 >= inp[old_p[j - 1]].0);
                    }
                } else {
                    assert(p[i] == old_p[i - 1] && p[j] == old_p[j - 1]);
                }
            }
        }
        m = m + 1;
    }
    proof {
        assert(is_permutation(p, inp.len() as int));
        assert forall|i: int| 0 <= i < hit_views(out@).len() implies #[trigger] hit_views(out@)[i] == (inp[p[i]].1, inp[p[i]].2) by {}
    }
    out
}

// ---------------------------------------------------------------------------
// directory listings
// ---------------------------------------------------------------------------

/// A markdown file of a directory as the listings see it: its name without
/// `.md`, and its text when it could be read.
pub type DocView = (Seq<char>, Option<Seq<char>>);

pub open spec fn opt_view(o: Option<String>) -> Option<Seq<char>> {
    match o {
        Some(s) => Some(s@),
        None => None,
    }
}

pub open spec fn dir_views(d: Seq<(String, Option<String>)>) -> Seq<DocView> {
    Seq::new(d.len(), |i: int| (d[i].0@, opt_view(d[i].1)))
}

/// The files with a non-empty name, in the order given.
pub open spec fn named(d: Seq<DocView>) -> Seq<DocView>
    decreases d.len(),
{
    if d.len() == 0 {
        Seq::empty()
    } else {
        let prev = named(d.drop_last());
        if d.last().0.len() > 0 {
            prev.push(d.last())
        } else {
            prev
        }
    }
}

/// `out` is `inp` stably sorted by name (the first component).
pub open spec fn name_sorted<X>(out: Seq<(Seq<char>, X)>, inp: Seq<(Seq<char>, X)>) -> bool {
    exists|p: Seq<int>| {
        &&& is_permutation(p, inp.len() as int)
        &&& out.len() == inp.len()
        &&& forall|i: int| 0 <= i < out.len() ==> #[trigger] out[i] == inp[p[i]]
        &&& forall|i: int, j: int| 0 <= i < j < out.len() ==> lex_le(#[trigger] out[i].0, #[trigger] out[j].0)
            && (out[i].0 == out[j].0 ==> p[i] < p[j])
    }
}

fn clone_opt(o: &Option<String>) -> (r: Option<String>)
    ensures
        opt_view(r) == opt_view(*o),
{
    match o {
        Some(s) => Some(s.clone()),
        None => None,
    }
}

/// The files with a name, in the order given.
fn named_docs(docs: &[(String, Option<String>)]) -> (r: Vec<(String, Option<String>)>)
    ensures
        dir_views(r@) == named(dir_views(docs@)),
{
    let ghost dv = dir_views(docs@);
    let mut out: Vec<(String, Option<String>)> = Vec::new();
    let mut k: usize = 0;
    while k < docs.len()
        invariant
            k <= docs.len(),
            dv == dir_views(docs@),
            dir_views(out@) == named(dv.take(k as int)),
        decreases docs.len() - k,
    {
        proof {
            assert(dv.take(k + 1).drop_last() =~= dv.take(k as int));
            assert(dv.take(k + 1).last() == dv[k as int]);
        }
        if !docs[k].0.as_str().is_empty() {
            let x = (docs[k].0.clone(), clone_opt(&docs[k].1));
            let ghost before = out@;
            out.push(x);
            proof {
                assert(dir_views(out@) =~= dir_views(before).push(dv[k as int]));
            }
        }
        k = k + 1;
    }
    proof {
        assert(dv.take(docs@.len() as int) =~= dv);
    }
    out
}

/// The files of a directory that have a name, stably sorted by name.
#[verifier::rlimit(40)]
pub fn sorted_docs(docs: &[(String, Option<String>)]) -> (r: Vec<(String, Option<String>)>)
    ensures
        name_sorted(dir_views(r@), named(dir_views(docs@))),
{
    let items = named_docs(docs);
    let ghost inp = dir_views(items@);
    let mut out: Vec<(String, Option<String>)> = Vec::new();
    let ghost mut p: Seq<int> = Seq::empty();
    let mut m: usize = 0;
    while m < items.len()
        invariant
            m <= items@.len(),
            inp == dir_views(items@),
            is_permutation(p, m as int),
            out@.len() == m,
            forall|i: int| 0 <= i < out@.len() ==> #[trigger] dir_views(out@)[i] == inp[p[i]],
            forall|i: int, j: int| 0 <= i < j < out@.len() ==> lex_le(#[trigger] dir_views(out@)[i].0, #[trigger] dir_views(out@)[j].0)
                && (dir_views(out@)[i].0 == dir_views(out@)[j].0 ==> p[i] < p[j]),
        decreases items@.len() - m,
    {
        let x = (items[m].0.clone(), clone_opt(&items[m].1));
        proof {
            assert(inp[m as int] == (x.0@, opt_view(x.1)));
        }
        let mut pos: usize = 0;
        while pos < out.len() && !crate::text::str_lt(x.0.as_str(), out[pos].0.as_str())
            invariant
                pos <= out@.len(),
                forall|i: int| 0 <= i < pos ==> !lex_lt(x.0@, (#[trigger] out@[i]).0@),
            decreases out@.len() - pos,
        {
            pos = pos + 1;
        }
        let ghost old_out = out@;
        let ghost ov = dir_views(out@);
        let ghost old_p = p;
        proof {
            assert forall|i: int| 0 <= i < pos implies lex_le(#[trigger] ov[i].0, x.0@) by {
                assert(ov[i].0 == old_out[i].0@);
                crate::text::lemma_lex_total(x.0@, ov[i].0);
            }
            if pos < old_out.len() {
                assert(lex_lt(x.0@, ov[pos as int].0));
                assert forall|j: int| pos <= j < ov.len() implies lex_lt(x.0@, #[trigger] ov[j].0) by {
                    if j > pos {
                        assert(lex_le(ov[pos as int].0, ov[j].0));
                        if ov[pos as int].0 != ov[j].0 {
                            crate::text::lemma_lex_trans(x.0@, ov[pos as int].0, ov[j].0);
                        }
                    }
                }
            }
        }
        out.insert(pos, x);
        proof {
            p = old_p.insert(pos as int, m as int);
            old_p.insert_ensures(pos as int, m as int);
            old_out.insert_ensures(pos as int, x);
            let nv = dir_views(out@);
            assert forall|i: int| 0 <= i < nv.len() implies #[trigger] nv[i] == (if i < pos {
                ov[i]
            } else if i == pos {
                (x.0@, opt_view(x.1))
            } else {
                ov[i - 1]
            }) by {
                if i > pos {
                    assert(out@[i] == old_out[i - 1]);
                }
            }
            assert(is_permutation(p, m + 1)) by {
                assert forall|i: int, j: int| 0 <= i < j < m + 1 implies p[i] != p[j] by {
                    if i < pos && j > pos {
                        assert(p[j] == old_p[j - 1]);
                    } else if i > pos {
                        assert(p[i] == old_p[i - 1] && p[j] == old_p[j - 1]);
                    }
                }
                assert forall|i: int| 0 <= i < m + 1 implies 0 <= #[trigger] p[i] < m + 1 by {
                    if i > pos {
                        assert(p[i] == old_p[i - 1]);
                    }
                }
            }
            assert forall|i: int| 0 <= i < nv.len() implies #[trigger] nv[i] == inp[p[i]] by {
                if i > pos {
                    assert(p[i] == old_p[i - 1]);
                }
            }
            assert forall|i: int, j: int| 0 <= i < j < nv.len() implies lex_le(#[trigger] nv[i].0, #[trigger] nv[j].0)
                && (nv[i].0 == nv[j].0 ==> p[i] < p[j]) by {
                if j < pos {
                } else if j == pos {
                    assert(old_p[i] < m);
                } else if i == pos {
                    assert(nv[j] == ov[j - 1]);
                    assert(lex_lt(x.0@, ov[j - 1].0));
                    crate::text::lemma_lex_total(x.0@, ov[j - 1].0);
                } else if i < pos {
                    assert(p[j] == old_p[j - 1]);
                } else {
                    assert(p[i] == old_p[i - 1]);
                    assert(p[j] == old_p[j - 1]);
                }
            }
        }
        m = m + 1;
    }
    proof {
        let ov = dir_views(out@);
        assert(is_permutation(p, inp.len() as int));
        assert(ov.len() == inp.len());
        assert(forall|i: int| 0 <= i < ov.len() ==> #[trigger] ov[i] == inp[p[i]]);
    }
    out
}

// ---------------------------------------------------------------------------
// outline pieces
// ---------------------------------------------------------------------------

pub open spec fn nonempty(o: Option<Seq<char>>) -> Option<Seq<char>> {
    match o {
        Some(d) => if d.len() > 0 {
            Some(d)
        } else {
            None
        },
        None => None,
    }
}

/// A file's description: its frontmatter `description`, when not empty.
pub open spec fn doc_desc(content: Option<Seq<char>>) -> Option<Seq<char>> {
    match content {
        Some(c) => match split_spec(c).0 {
            Some(e) => nonempty(lookup(e, "description"@)),
            None => None,
        },
        None => None,
    }
}

/// The description of a file's text (see [`doc_desc`]).
pub fn description_of(content: &Option<String>) -> (r: Option<String>)
    ensures
        opt_view(r) == doc_desc(opt_view(*content)),
{
    match content {
        None => None,
        Some(c) => {
            let (fm, _) = split_document(c.as_str());
            match fm {
                None => None,
                Some(f) => match f.get("description") {
                    Some(d) => if d.is_empty() {
                        None
                    } else {
                        Some(d.to_owned())
                    },
                    None => None,
                },
            }
        },
    }
}

/// `- name — description`, or `- name` when there is no description.
pub open spec fn item_line(name: Seq<char>, desc: Option<Seq<char>>) -> Seq<char> {
    match nonempty(desc) {
        Some(d) => "- "@ + name + " — "@ + d + "\n"@,
        None => "- "@ + name + "\n"@,
    }
}

/// Appends [`item_line`].
pub fn push_item(out: &mut Vec<char>, name: &str, desc: Option<&str>)
    ensures
        final(out)@ == old(out)@ + item_line(name@, match desc {
            Some(d) => Some(d@),
            None => None,
        }),
{
    match desc {
        Some(d) if !d.is_empty() => {
            push_str(out, "- ");
            push_str(out, name);
            push_str(out, " — ");
            push_str(out, d);
            push_str(out, "\n");
            proof {
                assert(final(out)@ =~= old(out)@ + ("- "@ + name@ + " — "@ + d@ + "\n"@));
            }
        },
        _ => {
            push_str(out, "- ");
            push_str(out, name);
            push_str(out, "\n");
            proof {
                assert(final(out)@ =~= old(out)@ + ("- "@ + name@ + "\n"@));
            }
        },
    }
}

/// `### title · n\n`.
pub open spec fn count_header(title: Seq<char>, n: nat) -> Seq<char> {
    "### "@ + title + " · "@ + decimal(n as int) + "\n"@
}

fn push_count_header(out: &mut Vec<char>, title: &str, n: usize)
    ensures
        final(out)@ == old(out)@ + count_header(title@, n as nat),
{
    push_str(out, "### ");
    push_str(out, title);
    push_str(out, " · ");
    push_u64(out, n as u64);
    push_str(out, "\n");
    proof {
        assert(final(out)@ =~= old(out)@ + count_header(title@, n as nat));
    }
}

/// One [`item_line`] per file.
pub open spec fn desc_lines(sd: Seq<DocView>) -> Seq<char>
    decreases sd.len(),
{
    if sd.len() == 0 {
        Seq::empty()
    } else {
        desc_lines(sd.drop_last()) + item_line(sd.last().0, doc_desc(sd.last().1))
    }
}

/// A counted section listing names with descriptions; empty without files.
pub open spec fn desc_section_text(title: Seq<char>, sd: Seq<DocView>) -> Seq<char> {
    if sd.len() == 0 {
        Seq::empty()
    } else {
        count_header(title, sd.len()) + desc_lines(sd)
    }
}

/// `r` is the description section of a directory's files (see
/// [`desc_section_text`]), the files sorted by name.
pub open spec fn desc_listed(title: Seq<char>, docs: Seq<DocView>, r: Seq<char>) -> bool {
    exists|sd: Seq<DocView>| #[trigger] name_sorted(sd, named(docs)) && r == desc_section_text(title, sd)
}

/// Appends the [`desc_lines`] of `sd`.
fn push_desc_lines(out: &mut Vec<char>, sd: &Vec<(String, Option<String>)>)
    ensures
        final(out)@ == old(out)@ + desc_lines(dir_views(sd@)),
{
    let ghost dv = dir_views(sd@);
    let ghost start = out@;
    let mut k: usize = 0;
    while k < sd.len()
        invariant
            k <= sd.len(),
            dv == dir_views(sd@),
            out@ == start + desc_lines(dv.take(k as int)),
        decreases sd.len() - k,
    {
        let d = description_of(&sd[k].1);
        let ghost before = out@;
        match &d {
            Some(x) => push_item(out, sd[k].0.as_str(), Some(x.as_str())),
            None => push_item(out, sd[k].0.as_str(), None),
        }
        proof {
            assert(dv.take(k + 1).drop_last() =~= dv.take(k as int));
            assert(dv.take(k + 1).last() == dv[k as int]);
            assert(out@ =~= start + desc_lines(dv.take(k + 1)));
        }
        k = k + 1;
    }
    proof {
        assert(dv.take(sd@.len() as int) =~= dv);
    }
}

/// The counted section `### title · n` listing a directory's files by name,
/// each with its description; empty when the directory has none.
pub fn desc_section(title: &str, docs: &[(String, Option<String>)]) -> (r: String)
    ensures
        desc_listed(title@, dir_views(docs@), r@),
{
    let sd = sorted_docs(docs);
    let mut out: Vec<char> = Vec::new();
    if sd.len() > 0 {
        push_count_header(&mut out, title, sd.len());
        push_desc_lines(&mut out, &sd);
    }
    proof {
        assert(out@ =~= desc_section_text(title@, dir_views(sd@)));
    }
    string_from(out.as_slice())
}

/// A file's headings of one level.
pub open spec fn doc_headings(content: Option<Seq<char>>, level: nat) -> Seq<Seq<char>> {
    match content {
        Some(c) => headings_of(c, level),
        None => Seq::empty(),
    }
}

/// `- name（h1、h2）`, or `- name` without headings.
pub open spec fn heading_line(name: Seq<char>, hs: Seq<Seq<char>>) -> Seq<char> {
    if hs.len() == 0 {
        "- "@ + name + "\n"@
    } else {
        "- "@ + name + "（"@ + join(hs, "、"@) + "）\n"@
    }
}

pub open spec fn concept_lines(sd: Seq<DocView>) -> Seq<char>
    decreases sd.len(),
{
    if sd.len() == 0 {
        Seq::empty()
    } else {
        concept_lines(sd.drop_last()) + heading_line(sd.last().0, doc_headings(sd.last().1, 2))
    }
}

pub open spec fn concept_section_text(sd: Seq<DocView>) -> Seq<char> {
    if sd.len() == 0 {
        Seq::empty()
    } else {
        count_header("业务概念 (concepts/)"@, sd.len()) + concept_lines(sd)
    }
}

pub open spec fn concepts_listed(docs: Seq<DocView>, r: Seq<char>) -> bool {
    exists|sd: Seq<DocView>| #[trigger] name_sorted(sd, named(docs)) && r == concept_section_text(sd)
}


/// `parts` joined with `sep`.
fn join_strings(parts: &Vec<String>, sep: &str) -> (r: Vec<char>)
    ensures
        r@ == join(string_views(parts@), sep@),
{
    let ghost pv = string_views(parts@);
    let sv = chars_of(sep);
    let mut out: Vec<char> = Vec::new();
    let mut k: usize = 0;
    while k < parts.len()
        invariant
            k <= parts.len(),
            pv == string_views(parts@),
            sv@ == sep@,
            out@ == join(pv.take(k as int), sep@),
        decreases parts.len() - k,
    {
        let x = chars_of(parts[k].as_str());
        push_joined(&mut out, k > 0, x.as_slice(), sv.as_slice(), Ghost(pv.take(k as int)));
        proof {
            assert(pv.take(k as int).push(x@) =~= pv.take(k + 1));
        }
        k = k + 1;
    }
    proof {
        assert(pv.take(parts@.len() as int) =~= pv);
    }
    out
}

/// Appends [`heading_line`] for a file.
fn push_heading_line(out: &mut Vec<char>, name: &String, content: &Option<String>, level: usize)
    ensures
        final(out)@ == old(out)@ + heading_line(name@, doc_headings(opt_view(*content), level as nat)),
{
    let hs: Vec<String> = match content {
        Some(c) => extract_headings(c.as_str(), level),
        None => Vec::new(),
    };
    proof {
        assert(hs@.map_values(|x: String| x@) =~= string_views(hs@));
        if content.is_none() {
            assert(string_views(hs@) =~= Seq::<Seq<char>>::empty());
        }
    }
    push_str(out, "- ");
    push_str(out, name.as_str());
    if hs.len() == 0 {
        push_str(out, "\n");
        proof {
            assert(final(out)@ =~= old(out)@ + ("- "@ + name@ + "\n"@));
        }
    } else {
        push_str(out, "（");
        let j = join_strings(&hs, "、");
        crate::text::push_slice(out, j.as_slice());
        push_str(out, "）\n");
        proof {
            assert(final(out)@ =~= old(out)@ + ("- "@ + name@ + "（"@ + join(string_views(hs@), "、"@) + "）\n"@));
        }
    }
}

/// The concepts section: each concept with its second-level headings.
pub fn concept_section(docs: &[(String, Option<String>)]) -> (r: String)
    ensures
        concepts_listed(dir_views(docs@), r@),
{
    let sd = sorted_docs(docs);
    let ghost dv = dir_views(sd@);
    let mut out: Vec<char> = Vec::new();
    if sd.len() > 0 {
        push_count_header(&mut out, "业务概念 (concepts/)", sd.len());
        let ghost start = out@;
        let mut k: usize = 0;
        while k < sd.len()
            invariant
                k <= sd.len(),
                dv == dir_views(sd@),
                out@ == start + concept_lines(dv.take(k as int)),
            decreases sd.len() - k,
        {
            push_heading_line(&mut out, &sd[k].0, &sd[k].1, 2);
            proof {
                assert(dv.take(k + 1).drop_last() =~= dv.take(k as int));
                assert(dv.take(k + 1).last() == dv[k as int]);
                assert(out@ =~= start + concept_lines(dv.take(k + 1)));
            }
            k = k + 1;
        }
        proof {
            assert(dv.take(sd@.len() as int) =~= dv);
        }
    }
    proof {
        assert(out@ =~= concept_section_text(dv));
    }
    string_from(out.as_slice())
}

// ---------------------------------------------------------------------------
// table-selection notes
// ---------------------------------------------------------------------------

/// The text of `t` (after leading whitespace) between a leading `open` and
/// the first `close` after it, trimmed, when not empty.
pub open spec fn token_between(t: Seq<char>, open: Seq<char>, close: Seq<char>) -> Option<Seq<char>> {
    let u = ltrim(t);
    if starts_with(u, open) {
        let rest = u.skip(open.len() as int);
        match find(rest, close) {
            Some(e) => {
                let tok = trim(rest.take(e));
                if tok.len() > 0 {
                    Some(tok)
                } else {
                    None
                }
            },
            None => None,
        }
    } else {
        None
    }
}

/// The table named by a list line: `- [[name]] …` or ``- `name` …``.
pub open spec fn list_token(line: Seq<char>) -> Option<Seq<char>> {
    let t0 = trim(line);
    if starts_with(t0, seq!['-', ' ']) {
        let t = t0.skip(2);
        match token_between(t, seq!['[', '['], seq![']', ']']) {
            Some(x) => Some(x),
            None => token_between(t, seq!['`'], seq!['`']),
        }
    } else {
        None
    }
}

fn ltrim_start(s: &Vec<char>, lo: usize, hi: usize) -> (a: usize)
    requires
        lo <= hi <= s.len(),
    ensures
        lo <= a <= hi,
        s@.subrange(a as int, hi as int) == ltrim(s@.subrange(lo as int, hi as int)),
{
    let mut a = lo;
    while a < hi && is_whitespace(s[a])
        invariant
            lo <= a <= hi <= s.len(),
            ltrim(s@.subrange(lo as int, hi as int)) == ltrim(s@.subrange(a as int, hi as int)),
        decreases hi - a,
    {
        assert(s@.subrange(a as int, hi as int).drop_first() =~= s@.subrange(a + 1, hi as int));
        a = a + 1;
    }
    a
}

fn token_between_at(s: &Vec<char>, lo: usize, hi: usize, open: &[char], close: &[char]) -> (r: Option<String>)
    requires
        lo <= hi <= s.len(),
    ensures
        opt_view(r) == token_between(s@.subrange(lo as int, hi as int), open@, close@),
{
    let a = ltrim_start(s, lo, hi);
    if !has_prefix_at(s, a, hi, open) {
        return None;
    }
    let b = a + open.len();
    proof {
        let u = s@.subrange(a as int, hi as int);
        assert(u.skip(open@.len() as int) =~= s@.subrange(b as int, hi as int));
    }
    match find_in(s, b, hi, close) {
        None => None,
        Some(e) => {
            proof {
                let rest = s@.subrange(b as int, hi as int);
                assert(occurs_at(rest, close@, e as int));
                assert(rest.take(e as int) =~= s@.subrange(b as int, b + e));
            }
            let (x, y) = trim_bounds(s, b, b + e);
            if x < y {
                Some(string_of_range(s, x, y))
            } else {
                None
            }
        },
    }
}

/// The table named by a list line (see [`list_token`]).
pub fn list_table_token(line: &str) -> (r: Option<String>)
    ensures
        opt_view(r) == list_token(line@),
{
    let s = chars_of(line);
    let (a, b) = trim_bounds(&s, 0, s.len());
    proof {
        assert(s@.subrange(0, s@.len() as int) =~= s@);
    }
    let dash = ['-', ' '];
    proof {
        assert(dash@ =~= seq!['-', ' ']);
    }
    if !has_prefix_at(&s, a, b, dash.as_slice()) {
        return None;
    }
    let c = a + 2;
    proof {
        assert(s@.subrange(a as int, b as int).skip(2) =~= s@.subrange(c as int, b as int));
    }
    let o1 = ['[', '['];
    let c1 = [']', ']'];
    let o2 = ['`'];
    proof {
        assert(o1@ =~= seq!['[', '[']);
        assert(c1@ =~= seq![']', ']']);
        assert(o2@ =~= seq!['`']);
    }
    match token_between_at(&s, c, b, o1.as_slice(), c1.as_slice()) {
        Some(x) => Some(x),
        None => token_between_at(&s, c, b, o2.as_slice(), o2.as_slice()),
    }
}

pub open spec fn add_token(ts: Seq<Seq<char>>, t: Option<Seq<char>>) -> Seq<Seq<char>> {
    match t {
        Some(x) => if ts.contains(x) {
            ts
        } else {
            ts.push(x)
        },
        None => ts,
    }
}

/// The distinct list tokens of the lines, first to last, at most three.
pub open spec fn collect_tokens(ls: Seq<Seq<char>>) -> Seq<Seq<char>>
    decreases ls.len(),
{
    if ls.len() == 0 {
        Seq::empty()
    } else {
        let prev = collect_tokens(ls.drop_last());
        if prev.len() >= 3 {
            prev
        } else {
            add_token(prev, list_token(ls.last()))
        }
    }
}

/// The tables listed under a heading of a selection note.
pub open spec fn block_tokens(content: Seq<char>, heading: Seq<char>) -> Seq<Seq<char>> {
    match block_of(content, heading) {
        Some(b) => collect_tokens(lines(b)),
        None => Seq::empty(),
    }
}

fn has_string(ts: &Vec<String>, t: &String) -> (b: bool)
    ensures
        b == string_views(ts@).contains(t@),
{
    let ghost tv = string_views(ts@);
    let mut k: usize = 0;
    while k < ts.len()
        invariant
            k <= ts.len(),
            tv == string_views(ts@),
            forall|i: int| 0 <= i < k ==> tv[i] != t@,
        decreases ts.len() - k,
    {
        if ts[k] == *t {
            proof {
                assert(tv[k as int] == t@);
            }
            return true;
        }
        k = k + 1;
    }
    false
}

/// The tables (at most three, without repeats) named by the list lines
/// under `heading`; none when the heading is missing.
pub fn block_table_tokens(content: &str, heading: &str) -> (r: Vec<String>)
    ensures
        string_views(r@) == block_tokens(content@, heading@),
{
    let block = match extract_block(content, heading) {
        Some(b) => b,
        None => {
            let r: Vec<String> = Vec::new();
            proof {
                assert(string_views(r@) =~= Seq::<Seq<char>>::empty());
            }
            return r;
        },
    };
    let s = chars_of(block.as_str());
    let rs = line_ranges(&s);
    let ghost ls = range_texts(s@, rs@);
    let mut tokens: Vec<String> = Vec::new();
    let mut k: usize = 0;
    while k < rs.len()
        invariant
            k <= rs.len(),
            ranges_in(s@, rs@),
            ls == range_texts(s@, rs@),
            string_views(tokens@) == collect_tokens(ls.take(k as int)),
        decreases rs.len() - k,
    {
        let (a, b) = rs[k];
        proof {
            assert(rs@[k as int].0 <= rs@[k as int].1 <= s@.len());
            assert(ls.take(k + 1).drop_last() =~= ls.take(k as int));
            assert(ls.take(k + 1).last() == ls[k as int]);
        }
        if tokens.len() < 3 {
            let line = string_of_range(&s, a, b);
            match list_table_token(line.as_str()) {
                Some(tok) => {
                    if !has_string(&tokens, &tok) {
                        let ghost before = tokens@;
                        tokens.push(tok);
                        proof {
                            assert(string_views(tokens@) =~= string_views(before).push(tok@));
                        }
                    }
                },
                None => {},
            }
        }
        k = k + 1;
    }
    proof {
        assert(ls.take(rs@.len() as int) =~= ls);
    }
    tokens
}

/// `[[t]]` for each table.
pub open spec fn linked(ts: Seq<Seq<char>>) -> Seq<Seq<char>> {
    Seq::new(ts.len(), |i: int| "[["@ + ts[i] + "]]"@)
}

/// The `首选 …` and `交叉验证 …` parts of a selection note's summary line.
pub open spec fn selection_parts(c: Seq<char>) -> Seq<Seq<char>> {
    let first = block_tokens(c, "首选表"@);
    let cross = block_tokens(c, "交叉验证表"@);
    let a: Seq<Seq<char>> = if first.len() > 0 {
        seq!["首选 "@ + join(linked(first), "、"@)]
    } else {
        Seq::empty()
    };
    let b: Seq<Seq<char>> = if cross.len() > 0 {
        seq!["交叉验证 "@ + join(linked(cross), "、"@)]
    } else {
        Seq::empty()
    };
    a + b
}

/// The summary line of a selection note: its preferred and cross-check
/// tables, or, when it lists neither, its name and description.
pub open spec fn selection_line(d: DocView) -> Seq<char> {
    let c = match d.1 {
        Some(c) => c,
        None => Seq::empty(),
    };
    let parts = selection_parts(c);
    if parts.len() == 0 {
        item_line(d.0, doc_desc(d.1))
    } else {
        "- "@ + d.0 + " — "@ + join(parts, "；"@) + "\n"@
    }
}

/// `label [[t1]]、[[t2]]` for the tables of one heading.
fn linked_part(label: &str, ts: &Vec<String>) -> (r: Vec<char>)
    ensures
        r@ == label@ + join(linked(string_views(ts@)), "、"@),
{
    let ghost tv = string_views(ts@);
    let mut out: Vec<char> = Vec::new();
    let sep = chars_of("、");
    let mut k: usize = 0;
    while k < ts.len()
        invariant
            k <= ts.len(),
            tv == string_views(ts@),
            sep@ == "、"@,
            out@ == join(linked(tv).take(k as int), "、"@),
        decreases ts.len() - k,
    {
        let mut x: Vec<char> = Vec::new();
        push_str(&mut x, "[[");
        push_str(&mut x, ts[k].as_str());
        push_str(&mut x, "]]");
        proof {
            assert(x@ =~= linked(tv)[k as int]);
        }
        push_joined(&mut out, k > 0, x.as_slice(), sep.as_slice(), Ghost(linked(tv).take(k as int)));
        proof {
            assert(linked(tv).take(k as int).push(x@) =~= linked(tv).take(k + 1));
        }
        k = k + 1;
    }
    proof {
        assert(linked(tv).take(ts@.len() as int) =~= linked(tv));
    }
    let mut r: Vec<char> = Vec::new();
    push_str(&mut r, label);
    crate::text::push_slice(&mut r, out.as_slice());
    r
}

/// [`selection_line`] of a note.
fn selection_line_of(name: &String, content: &Option<String>) -> (r: Vec<char>)
    ensures
        r@ == selection_line((name@, opt_view(*content))),
{
    let c: &str = match content {
        Some(c) => c.as_str(),
        None => "",
    };
    proof {
        reveal_strlit("");
    }
    let first = block_table_tokens(c, "首选表");
    let cross = block_table_tokens(c, "交叉验证表");
    let mut parts: Vec<Vec<char>> = Vec::new();
    if first.len() > 0 {
        parts.push(linked_part("首选 ", &first));
    }
    if cross.len() > 0 {
        parts.push(linked_part("交叉验证 ", &cross));
    }
    proof {
        assert(crate::text::views(parts@) =~= selection_parts(c@));
    }
    let mut out: Vec<char> = Vec::new();
    if parts.len() == 0 {
        let d = description_of(content);
        match &d {
            Some(x) => push_item(&mut out, name.as_str(), Some(x.as_str())),
            None => push_item(&mut out, name.as_str(), None),
        }
        proof {
            assert(out@ =~= item_line(name@, doc_desc(opt_view(*content))));
        }
    } else {
        push_str(&mut out, "- ");
        push_str(&mut out, name.as_str());
        push_str(&mut out, " — ");
        let sep = chars_of("；");
        let mut j: Vec<char> = Vec::new();
        let mut k: usize = 0;
        while k < parts.len()
            invariant
                k <= parts.len(),
                sep@ == "；"@,
                j@ == join(crate::text::views(parts@).take(k as int), "；"@),
            decreases parts.len() - k,
        {
            push_joined(&mut j, k > 0, parts[k].as_slice(), sep.as_slice(), Ghost(crate::text::views(parts@).take(k as int)));
            proof {
                assert(crate::text::views(parts@).take(k as int).push(parts@[k as int]@) =~= crate::text::views(parts@).take(k + 1));
            }
            k = k + 1;
        }
        proof {
            assert(crate::text::views(parts@).take(parts@.len() as int) =~= crate::text::views(parts@));
        }
        crate::text::push_slice(&mut out, j.as_slice());
        push_str(&mut out, "\n");
        proof {
            assert(out@ =~= "- "@ + name@ + " — "@ + join(selection_parts(c@), "；"@) + "\n"@);
        }
    }
    out
}

// ---------------------------------------------------------------------------
// token budget
// ---------------------------------------------------------------------------

/// What an estimator may return for a text: some call with that text gave it.
pub open spec fn cost_of<F: Fn(&str) -> u64>(est: F, t: Seq<char>, c: u64) -> bool {
    exists|s: &str| s@ == t && #[trigger] call_ensures(est, (s,), c)
}

/// `costs[k]` is an estimate of `texts[k]`.
pub open spec fn costs_of<F: Fn(&str) -> u64>(est: F, texts: Seq<Seq<char>>, costs: Seq<u64>) -> bool {
    &&& costs.len() == texts.len()
    &&& forall|k: int| 0 <= k < texts.len() ==> cost_of(est, #[trigger] texts[k], costs[k])
}

/// What has been spent, and whether a block was written in full, after the
/// blocks with these costs, starting from `start`: the first block is always
/// written in full; each later one only when it still fits the budget.
pub open spec fn spent(costs: Seq<u64>, start: int, budget: int) -> (int, bool)
    decreases costs.len(),
{
    if costs.len() == 0 {
        (start, false)
    } else {
        let prev = spent(costs.drop_last(), start, budget);
        if prev.1 && prev.0 + costs.last() > budget {
            prev
        } else {
            (prev.0 + costs.last(), true)
        }
    }
}

/// Whether the last of these blocks is written in full.
pub open spec fn last_in_full(costs: Seq<u64>, start: int, budget: int) -> bool {
    let prev = spent(costs.drop_last(), start, budget);
    !(prev.1 && prev.0 + costs.last() > budget)
}

/// The blocks written in full, in order.
pub open spec fn full_text(blocks: Seq<Seq<char>>, costs: Seq<u64>, start: int, budget: int) -> Seq<char>
    decreases blocks.len(),
{
    if blocks.len() == 0 || costs.len() == 0 {
        Seq::empty()
    } else {
        let prev = full_text(blocks.drop_last(), costs.drop_last(), start, budget);
        if last_in_full(costs, start, budget) {
            prev + blocks.last()
        } else {
            prev
        }
    }
}

/// The items whose blocks were not written in full, in order.
pub open spec fn left_over<T>(items: Seq<T>, costs: Seq<u64>, start: int, budget: int) -> Seq<T>
    decreases items.len(),
{
    if items.len() == 0 || costs.len() == 0 {
        Seq::empty()
    } else {
        let prev = left_over(items.drop_last(), costs.drop_last(), start, budget);
        if last_in_full(costs, start, budget) {
            prev
        } else {
            prev.push(items.last())
        }
    }
}

/// The names of the files.
pub open spec fn doc_names(sd: Seq<DocView>) -> Seq<Seq<char>> {
    Seq::new(sd.len(), |i: int| sd[i].0)
}

/// What follows the notes written in full: the others by name (six at most),
/// or one line counting them and naming the first four.
pub open spec fn selection_tail(rest: Seq<DocView>) -> Seq<char> {
    if rest.len() == 0 {
        Seq::empty()
    } else if rest.len() <= 6 {
        desc_lines(rest)
    } else {
        "- （另有 "@ + decimal(rest.len() as int) + " 条选表经验："@ + join(doc_names(rest.take(4)), "、"@)
            + "…，需要时用 list_okf_knowledge / search_okf_knowledge 查看）\n"@
    }
}

pub open spec fn selection_blocks(sd: Seq<DocView>) -> Seq<Seq<char>> {
    Seq::new(sd.len(), |i: int| selection_line(sd[i]))
}

pub open spec fn selections_header(n: nat) -> Seq<char> {
    count_header("选表经验 (selections/)"@, n)
}

/// The selection-notes section: header, the notes' summary lines while they
/// fit the budget (the first always), then the rest by name.
pub open spec fn selections_text(sd: Seq<DocView>, costs: Seq<u64>, start: u64, budget: int) -> Seq<char> {
    if sd.len() == 0 {
        Seq::empty()
    } else {
        selections_header(sd.len()) + full_text(selection_blocks(sd), costs, start as int, budget)
            + selection_tail(left_over(sd, costs, start as int, budget))
    }
}

/// `r` is the selection-notes section of the files `docs` under `budget`,
/// for some estimates that `est` gave of the header and of each line.
pub open spec fn selections_listed<F: Fn(&str) -> u64>(est: F, docs: Seq<DocView>, budget: int, r: Seq<char>) -> bool {
    exists|sd: Seq<DocView>, costs: Seq<u64>, start: u64|
        #![trigger selections_text(sd, costs, start, budget)]
        {
            &&& name_sorted(sd, named(docs))
            &&& sd.len() > 0 ==> cost_of(est, selections_header(sd.len()), start) && costs_of(est, selection_blocks(sd), costs)
            &&& r == selections_text(sd, costs, start, budget)
        }
}

pub proof fn lemma_spent_bound(costs: Seq<u64>, start: int, budget: int)
    requires
        0 <= start <= 0xFFFF_FFFF_FFFF_FFFF,
        0 <= budget <= 0xFFFF_FFFF_FFFF_FFFF,
    ensures
        0 <= spent(costs, start, budget).0 <= 2 * 0xFFFF_FFFF_FFFF_FFFF,
        !spent(costs, start, budget).1 ==> spent(costs, start, budget).0 == start,
    decreases costs.len(),
{
    if costs.len() > 0 {
        lemma_spent_bound(costs.drop_last(), start, budget);
    }
}

/// The estimate of a text.
fn estimate<F: Fn(&str) -> u64>(est: &F, t: &Vec<char>) -> (c: u64)
    requires
        forall|s: &str| call_requires(*est, (s,)),
    ensures
        cost_of(*est, t@, c),
{
    let st = string_from(t.as_slice());
    est(st.as_str())
}

/// The selection-notes section (see [`selections_text`]); empty without
/// notes. `est` estimates the tokens of a text.
#[verifier::rlimit(60)]
pub fn render_selections<F: Fn(&str) -> u64>(docs: &[(String, Option<String>)], budget: u64, est: &F) -> (r: String)
    requires
        forall|s: &str| call_requires(*est, (s,)),
    ensures
        selections_listed(*est, dir_views(docs@), budget as int, r@),
{
    let sd = sorted_docs(docs);
    let ghost dv = dir_views(sd@);
    let ghost blocks = selection_blocks(dv);
    let mut out: Vec<char> = Vec::new();
    if sd.len() == 0 {
        proof {
            assert(out@ =~= selections_text(dv, Seq::empty(), 0, budget as int));
        }
        return string_from(out.as_slice());
    }
    push_count_header(&mut out, "选表经验 (selections/)", sd.len());
    let start = estimate(est, &out);
    let ghost header = out@;
    let mut used: u128 = start as u128;
    let mut emitted = false;
    let mut rest: Vec<usize> = Vec::new();
    let ghost mut costs: Seq<u64> = Seq::empty();
    let mut k: usize = 0;
    while k < sd.len()
        invariant
            k <= sd.len(),
            dv == dir_views(sd@),
            blocks == selection_blocks(dv),
            header == selections_header(sd@.len() as nat),
            cost_of(*est, header, start),
            forall|s: &str| call_requires(*est, (s,)),
            costs.len() == k,
            costs_of(*est, blocks.take(k as int), costs),
            spent(costs, start as int, budget as int) == (used as int, emitted),
            out@ == header + full_text(blocks.take(k as int), costs, start as int, budget as int),
            forall|i: int| 0 <= i < rest@.len() ==> (#[trigger] rest@[i]) < k,
            Seq::new(rest@.len(), |i: int| dv[rest@[i] as int]) == left_over(dv.take(k as int), costs, start as int, budget as int),
        decreases sd.len() - k,
    {
        let line = selection_line_of(&sd[k].0, &sd[k].1);
        let c = estimate(est, &line);
        proof {
            lemma_spent_bound(costs, start as int, budget as int);
            assert(line@ == blocks[k as int]);
        }
        let ghost old_costs = costs;
        let ghost old_rest = Seq::new(rest@.len(), |i: int| dv[rest@[i] as int]);
        proof {
            costs = costs.push(c);
            assert(costs.drop_last() =~= old_costs);
            assert(blocks.take(k + 1).drop_last() =~= blocks.take(k as int));
            assert(dv.take(k + 1).drop_last() =~= dv.take(k as int));
            assert(blocks.take(k + 1).last() == blocks[k as int]);
            assert(dv.take(k + 1).last() == dv[k as int]);
            assert(costs_of(*est, blocks.take(k + 1), costs)) by {
                assert forall|i: int| 0 <= i < k + 1 implies cost_of(*est, #[trigger] blocks.take(k + 1)[i], costs[i]) by {
                    if i < k {
                        assert(blocks.take(k + 1)[i] == blocks.take(k as int)[i]);
                    }
                }
            }
        }
        if emitted && used + (c as u128) > (budget as u128) {
            rest.push(k);
            proof {
                assert(Seq::new(rest@.len(), |i: int| dv[rest@[i] as int]) =~= old_rest.push(dv[k as int]));
            }
        } else {
            crate::text::push_slice(&mut out, line.as_slice());
            used = used + (c as u128);
            emitted = true;
            proof {
                assert(Seq::new(rest@.len(), |i: int| dv[rest@[i] as int]) =~= old_rest);
            }
        }
        k = k + 1;
    }
    proof {
        assert(blocks.take(sd@.len() as int) =~= blocks);
        assert(dv.take(sd@.len() as int) =~= dv);
    }
    let ghost left = Seq::new(rest@.len(), |i: int| dv[rest@[i] as int]);
    let ghost before_tail = out@;
    if rest.len() > 0 && rest.len() <= 6 {
        let mut j: usize = 0;
        while j < rest.len()
            invariant
                j <= rest.len(),
                dv == dir_views(sd@),
                left == Seq::new(rest@.len(), |i: int| dv[rest@[i] as int]),
                forall|i: int| 0 <= i < rest@.len() ==> (#[trigger] rest@[i]) < sd@.len(),
                out@ == before_tail + desc_lines(left.take(j as int)),
            decreases rest.len() - j,
        {
            let idx = rest[j];
            let d = description_of(&sd[idx].1);
            match &d {
                Some(x) => push_item(&mut out, sd[idx].0.as_str(), Some(x.as_str())),
                None => push_item(&mut out, sd[idx].0.as_str(), None),
            }
            proof {
                assert(left.take(j + 1).drop_last() =~= left.take(j as int));
                assert(left.take(j + 1).last() == dv[idx as int]);
                assert(out@ =~= before_tail + desc_lines(left.take(j + 1)));
            }
            j = j + 1;
        }
        proof {
            assert(left.take(rest@.len() as int) =~= left);
        }
    } else if rest.len() > 6 {
        push_str(&mut out, "- （另有 ");
        push_u64(&mut out, rest.len() as u64);
        push_str(&mut out, " 条选表经验：");
        let sep = chars_of("、");
        let mut names: Vec<char> = Vec::new();
        let mut j: usize = 0;
        while j < 4
            invariant
                j <= 4,
                rest@.len() > 6,
                sep@ == "、"@,
                dv == dir_views(sd@),
                left == Seq::new(rest@.len(), |i: int| dv[rest@[i] as int]),
                forall|i: int| 0 <= i < rest@.len() ==> (#[trigger] rest@[i]) < sd@.len(),
                names@ == join(doc_names(left.take(4)).take(j as int), "、"@),
            decreases 4 - j,
        {
            let idx = rest[j];
            let nm = chars_of(sd[idx].0.as_str());
            push_joined(&mut names, j > 0, nm.as_slice(), sep.as_slice(), Ghost(doc_names(left.take(4)).take(j as int)));
            proof {
                assert(doc_names(left.take(4)).take(j as int).push(nm@) =~= doc_names(left.take(4)).take(j + 1));
            }
            j = j + 1;
        }
        proof {
            assert(doc_names(left.take(4)).take(4) =~= doc_names(left.take(4)));
        }
        crate::text::push_slice(&mut out, names.as_slice());
        push_str(&mut out, "…，需要时用 list_okf_knowledge / search_okf_knowledge 查看）\n");
    }
    proof {
        assert(out@ =~= selections_text(dv, costs, start, budget as int));
    }
    string_from(out.as_slice())
}

// ---------------------------------------------------------------------------
// registered tables
// ---------------------------------------------------------------------------

/// What the outline shows of a registered table's documented semantics: its
/// columns as `(name, comment)`, and its relations, each already written as
/// one item (`` `col` → [[target]].`col` (N:1)``).
#[derive(Debug, Clone)]
pub struct TableNotes {
    pub columns: Vec<(String, String)>,
    pub relations: Vec<String>,
}

/// `` `name`: comment`` for each column with a comment.
pub open spec fn column_parts(cols: Seq<(String, String)>) -> Seq<Seq<char>>
    decreases cols.len(),
{
    if cols.len() == 0 {
        Seq::empty()
    } else {
        let prev = column_parts(cols.drop_last());
        let c = cols.last();
        if c.1@.len() > 0 {
            prev.push("`"@ + c.0@ + "`: "@ + c.1@)
        } else {
            prev
        }
    }
}

/// `  字段释义: …` line; empty when no column has a comment.
pub open spec fn columns_text(cols: Seq<(String, String)>) -> Seq<char> {
    let p = column_parts(cols);
    if p.len() == 0 {
        Seq::empty()
    } else {
        "  字段释义: "@ + join(p, "; "@) + "\n"@
    }
}

/// `  关联: …` line; empty without relations.
pub open spec fn relations_text(rels: Seq<String>) -> Seq<char> {
    if rels.len() == 0 {
        Seq::empty()
    } else {
        "  关联: "@ + join(string_views(rels), " "@) + "\n"@
    }
}

/// `- ✅ `name` (别名 db_x){mode}{reason}`: the status icon, the local name,
/// the catalog alias, `mode` for pushdown tables, and the reason of an
/// unavailable one.
pub open spec fn status_line(e: TableRegistryEntry, mode: Seq<char>) -> Seq<char> {
    let icon = status_icon(status_named(e.status@));
    let m = if e.access_mode@ == "pushdown"@ {
        mode
    } else {
        Seq::empty()
    };
    let reason = if e.status@ != "available"@ {
        match e.unavailable_reason {
            Some(r) => " — 不可用: "@ + r@,
            None => Seq::empty(),
        }
    } else {
        Seq::empty()
    };
    "- "@ + icon + " `"@ + e.local_name@ + "` (别名 "@ + alias_spec(e.connection_name@) + ")"@ + m + reason
        + "\n"@
}

/// The mark of a pushdown table in the preamble outline: the mark says what
/// to do (never query it directly), not only what it is.
pub open spec fn pushdown_mark() -> Seq<char> {
    " [下推表·禁直查]"@
}

/// A table's full block: status line, column comments, relations.
pub open spec fn table_block(t: (TableRegistryEntry, TableNotes)) -> Seq<char> {
    status_line(t.0, pushdown_mark()) + columns_text(t.1.columns@) + relations_text(t.1.relations@)
}

fn entry_status_line(out: &mut Vec<char>, e: &TableRegistryEntry, mode: &str)
    ensures
        final(out)@ == old(out)@ + status_line(*e, mode@),
{
    let icon = TableStatus::from_str(e.status.as_str()).icon();
    push_str(out, "- ");
    push_str(out, icon);
    push_str(out, " `");
    push_str(out, e.local_name.as_str());
    push_str(out, "` (别名 ");
    let alias = workspace_attach_alias(e.connection_name.as_str());
    push_str(out, alias.as_str());
    push_str(out, ")");
    let ghost mid = out@;
    if str_eq(e.access_mode.as_str(), "pushdown") {
        push_str(out, mode);
    }
    let ghost mid2 = out@;
    if !str_eq(e.status.as_str(), "available") {
        match &e.unavailable_reason {
            Some(r) => {
                push_str(out, " — 不可用: ");
                push_str(out, r.as_str());
            },
            None => {},
        }
    }
    push_str(out, "\n");
    proof {
        let m = if e.access_mode@ == "pushdown"@ { mode@ } else { Seq::<char>::empty() };
        assert(mid2 =~= mid + m);
        assert(final(out)@ =~= old(out)@ + status_line(*e, mode@));
    }
}

fn render_columns(out: &mut Vec<char>, cols: &Vec<(String, String)>)
    ensures
        final(out)@ == old(out)@ + columns_text(cols@),
{
    let sep = chars_of("; ");
    let mut parts: Vec<char> = Vec::new();
    let mut any = false;
    let ghost mut ps: Seq<Seq<char>> = Seq::empty();
    let mut k: usize = 0;
    while k < cols.len()
        invariant
            k <= cols.len(),
            sep@ == "; "@,
            ps == column_parts(cols@.take(k as int)),
            any == (ps.len() > 0),
            parts@ == join(ps, "; "@),
        decreases cols.len() - k,
    {
        proof {
            assert(cols@.take(k + 1).drop_last() =~= cols@.take(k as int));
            assert(cols@.take(k + 1).last() == cols@[k as int]);
        }
        if !cols[k].1.as_str().is_empty() {
            let mut x: Vec<char> = Vec::new();
            push_str(&mut x, "`");
            push_str(&mut x, cols[k].0.as_str());
            push_str(&mut x, "`: ");
            push_str(&mut x, cols[k].1.as_str());
            push_joined(&mut parts, any, x.as_slice(), sep.as_slice(), Ghost(ps));
            proof {
                assert(x@ =~= "`"@ + cols@[k as int].0@ + "`: "@ + cols@[k as int].1@);
                ps = ps.push(x@);
            }
            any = true;
        }
        k = k + 1;
    }
    proof {
        assert(cols@.take(cols@.len() as int) =~= cols@);
    }
    if any {
        push_str(out, "  字段释义: ");
        crate::text::push_slice(out, parts.as_slice());
        push_str(out, "\n");
        proof {
            assert(final(out)@ =~= old(out)@ + columns_text(cols@));
        }
    } else {
        proof {
            assert(final(out)@ =~= old(out)@ + columns_text(cols@));
        }
    }
}

fn render_relations(out: &mut Vec<char>, rels: &Vec<String>)
    ensures
        final(out)@ == old(out)@ + relations_text(rels@),
{
    if rels.len() > 0 {
        push_str(out, "  关联: ");
        let j = join_strings(rels, " ");
        crate::text::push_slice(out, j.as_slice());
        push_str(out, "\n");
        proof {
            assert(final(out)@ =~= old(out)@ + relations_text(rels@));
        }
    } else {
        proof {
            assert(final(out)@ =~= old(out)@ + relations_text(rels@));
        }
    }
}

/// When the table was last explored (Unix ms; `0` when never).
pub open spec fn explored(e: TableRegistryEntry) -> int {
    match e.last_explored {
        Some(x) => x as int,
        None => 0,
    }
}

/// `a` comes before `b`: explored more recently, or at the same time with a
/// smaller name.
pub open spec fn table_before(a: TableRegistryEntry, b: TableRegistryEntry) -> bool {
    explored(a) > explored(b) || (explored(a) == explored(b) && lex_lt(a.local_name@, b.local_name@))
}

pub open spec fn same_rank(a: TableRegistryEntry, b: TableRegistryEntry) -> bool {
    explored(a) == explored(b) && a.local_name@ == b.local_name@
}

/// `p` lists the tables most recently explored first, then by name, ties in
/// the order given.
pub open spec fn table_order(p: Seq<int>, tables: Seq<(TableRegistryEntry, TableNotes)>) -> bool {
    &&& is_permutation(p, tables.len() as int)
    &&& forall|i: int, j: int| 0 <= i < j < p.len() ==> !table_before(tables[#[trigger] p[j]].0, tables[#[trigger] p[i]].0)
        && (same_rank(tables[p[i]].0, tables[p[j]].0) ==> p[i] < p[j])
}

pub open spec fn in_order<T>(tables: Seq<T>, p: Seq<int>) -> Seq<T> {
    Seq::new(p.len(), |i: int| tables[p[i]])
}

pub open spec fn usize_ints(v: Seq<usize>) -> Seq<int> {
    Seq::new(v.len(), |i: int| v[i] as int)
}

fn before(a: &TableRegistryEntry, b: &TableRegistryEntry) -> (r: bool)
    ensures
        r == table_before(*a, *b),
{
    let x: i64 = match a.last_explored {
        Some(v) => v,
        None => 0,
    };
    let y: i64 = match b.last_explored {
        Some(v) => v,
        None => 0,
    };
    x > y || (x == y && crate::text::str_lt(a.local_name.as_str(), b.local_name.as_str()))
}

proof fn lemma_before_total(a: TableRegistryEntry, b: TableRegistryEntry)
    ensures
        table_before(a, b) || table_before(b, a) || same_rank(a, b),
        !(table_before(a, b) && table_before(b, a)),
        !table_before(a, a),
{
    crate::text::lemma_lex_total(a.local_name@, b.local_name@);
    crate::text::lemma_lex_total(a.local_name@, a.local_name@);
}

proof fn lemma_before_trans(a: TableRegistryEntry, b: TableRegistryEntry, c: TableRegistryEntry)
    requires
        table_before(a, b) || same_rank(a, b),
        table_before(b, c),
    ensures
        table_before(a, c),
{
    if explored(a) == explored(b) && explored(b) == explored(c) {
        if a.local_name@ != b.local_name@ {
            crate::text::lemma_lex_trans(a.local_name@, b.local_name@, c.local_name@);
        }
    }
}

/// The order in which the tables are shown (see [`table_order`]).
#[verifier::rlimit(60)]
fn tables_in_order(tables: &[(TableRegistryEntry, TableNotes)]) -> (r: Vec<usize>)
    ensures
        table_order(usize_ints(r@), tables@),
{
    let ghost t = tables@;
    let mut out: Vec<usize> = Vec::new();
    let mut m: usize = 0;
    while m < tables.len()
        invariant
            m <= tables.len(),
            t == tables@,
            is_permutation(usize_ints(out@), m as int),
            forall|i: int, j: int| 0 <= i < j < out@.len() ==> !table_before(t[#[trigger] out@[j] as int].0, t[#[trigger] out@[i] as int].0)
                && (same_rank(t[out@[i] as int].0, t[out@[j] as int].0) ==> out@[i] < out@[j]),
        decreases tables.len() - m,
    {
        proof {
            assert forall|i: int| 0 <= i < out@.len() implies (#[trigger] out@[i]) < m by {
                assert(usize_ints(out@)[i] == out@[i] as int);
            }
        }
        let mut pos: usize = 0;
        while pos < out.len() && !before(&tables[m].0, &tables[out[pos]].0)
            invariant
                pos <= out@.len(),
                m < tables.len(),
                t == tables@,
                forall|i: int| 0 <= i < out@.len() ==> (#[trigger] out@[i]) < m,
                forall|i: int| 0 <= i < pos ==> !table_before(t[m as int].0, t[(#[trigger] out@[i]) as int].0),
            decreases out@.len() - pos,
        {
            pos = pos + 1;
        }
        let ghost old_out = out@;
        proof {
            assert forall|i: int| 0 <= i < old_out.len() implies (#[trigger] old_out[i]) < m by {
                assert(usize_ints(old_out)[i] < m);
            }
            if pos < old_out.len() {
                assert(table_before(t[m as int].0, t[old_out[pos as int] as int].0));
            }
        }
        out.insert(pos, m);
        proof {
            old_out.insert_ensures(pos as int, m);
            let np = usize_ints(out@);
            let op = usize_ints(old_out);
            assert forall|i: int| 0 <= i < m + 1 implies 0 <= #[trigger] np[i] < m + 1 by {
                if i > pos {
                    assert(out@[i] == old_out[i - 1]);
                    assert(op[i - 1] < m);
                } else if i < pos {
                    assert(op[i] < m);
                }
            }
            assert forall|i: int, j: int| 0 <= i < j < m + 1 implies np[i] != np[j] by {
                if i < pos && j > pos {
                    assert(out@[j] == old_out[j - 1]);
                    assert(op[i] != op[j - 1]);
                } else if i > pos {
                    assert(out@[i] == old_out[i - 1] && out@[j] == old_out[j - 1]);
                    assert(op[i - 1] != op[j - 1]);
                } else if i == pos {
                    assert(out@[j] == old_out[j - 1]);
                    assert(op[j - 1] < m);
                } else {
                    assert(op[i] < m);
                }
            }
            assert(is_permutation(np, m + 1));
            assert forall|i: int, j: int| 0 <= i < j < out@.len() implies !table_before(t[#[trigger] out@[j] as int].0, t[#[trigger] out@[i] as int].0)
                && (same_rank(t[out@[i] as int].0, t[out@[j] as int].0) ==> out@[i] < out@[j]) by {
                if j < pos {
                } else if j == pos {
                    assert(!table_before(t[m as int].0, t[old_out[i] as int].0));
                    assert(old_out[i] < m);
                } else if i < pos {
                    assert(out@[j] == old_out[j - 1]);
                } else if i == pos {
                    let y = old_out[j - 1];
                    assert(out@[j] == y);
                    assert(table_before(t[m as int].0, t[old_out[pos as int] as int].0));
                    if j - 1 > pos {
                        let z = old_out[pos as int];
                        assert(!table_before(t[y as int].0, t[z as int].0));
                        lemma_before_total(t[y as int].0, t[z as int].0);
                        if table_before(t[z as int].0, t[y as int].0) {
                            lemma_before_trans(t[m as int].0, t[z as int].0, t[y as int].0);
                        } else {
                            assert(same_rank(t[z as int].0, t[y as int].0));
                        }
                    }
                    lemma_before_total(t[m as int].0, t[y as int].0);
                } else {
                    assert(out@[i] == old_out[i - 1] && out@[j] == old_out[j - 1]);
                }
            }
        }
        m = m + 1;
    }
    proof {
        let np = usize_ints(out@);
        assert forall|i: int, j: int| 0 <= i < j < np.len() implies !table_before(t[#[trigger] np[j]].0, t[#[trigger] np[i]].0)
            && (same_rank(t[np[i]].0, t[np[j]].0) ==> np[i] < np[j]) by {
            assert(np[i] == out@[i] as int && np[j] == out@[j] as int);
        }
    }
    out
}

pub open spec fn tables_header(n: nat) -> Seq<char> {
    "### 已注册表 · "@ + decimal(n as int) + "\n"@
}

pub open spec fn table_blocks(st: Seq<(TableRegistryEntry, TableNotes)>) -> Seq<Seq<char>> {
    Seq::new(st.len(), |i: int| table_block(st[i]))
}

/// One status line per table.
pub open spec fn status_lines(st: Seq<(TableRegistryEntry, TableNotes)>, mode: Seq<char>) -> Seq<char>
    decreases st.len(),
{
    if st.len() == 0 {
        Seq::empty()
    } else {
        status_lines(st.drop_last(), mode) + status_line(st.last().0, mode)
    }
}

pub open spec fn local_names(st: Seq<(TableRegistryEntry, TableNotes)>) -> Seq<Seq<char>> {
    Seq::new(st.len(), |i: int| st[i].0.local_name@)
}

/// What follows the tables shown in full: the others' status lines (six at
/// most), or one line counting them and naming the first four.
pub open spec fn table_tail(rest: Seq<(TableRegistryEntry, TableNotes)>) -> Seq<char> {
    if rest.len() == 0 {
        Seq::empty()
    } else if rest.len() <= 6 {
        status_lines(rest, pushdown_mark())
    } else {
        "- （另有 "@ + decimal(rest.len() as int) + " 张表："@ + join(local_names(rest.take(4)), "、"@)
            + "…，需要时用 list_tables / list_okf_knowledge 查看）\n"@
    }
}

/// The registered-tables section: header, each table's full block while
/// they fit the budget (the first always), then the rest in short.
pub open spec fn tables_text(st: Seq<(TableRegistryEntry, TableNotes)>, costs: Seq<u64>, start: u64, budget: int) -> Seq<char> {
    tables_header(st.len()) + full_text(table_blocks(st), costs, start as int, budget) + table_tail(
        left_over(st, costs, start as int, budget),
    )
}

/// `r` is the registered-tables section of `tables` under `budget`, in the
/// order of [`table_order`], for some estimates that `est` gave of the
/// header and of each block.
pub open spec fn tables_listed<F: Fn(&str) -> u64>(est: F, tables: Seq<(TableRegistryEntry, TableNotes)>, budget: int, r: Seq<char>) -> bool {
    exists|p: Seq<int>, costs: Seq<u64>, start: u64|
        #![trigger tables_text(in_order(tables, p), costs, start, budget)]
        {
            &&& table_order(p, tables)
            &&& cost_of(est, tables_header(tables.len()), start)
            &&& costs_of(est, table_blocks(in_order(tables, p)), costs)
            &&& r == tables_text(in_order(tables, p), costs, start, budget)
        }
}

/// The registered-tables section (see [`tables_text`]). `est` estimates the
/// tokens of a text.
#[verifier::rlimit(60)]
pub fn render_registered_tables<F: Fn(&str) -> u64>(tables: &[(TableRegistryEntry, TableNotes)], budget: u64, est: &F) -> (r: String)
    requires
        forall|s: &str| call_requires(*est, (s,)),
    ensures
        tables_listed(*est, tables@, budget as int, r@),
{
    let order = tables_in_order(tables);
    let ghost p = usize_ints(order@);
    let ghost st = in_order(tables@, p);
    let ghost blocks = table_blocks(st);
    let mut out: Vec<char> = Vec::new();
    push_str(&mut out, "### 已注册表 · ");
    push_u64(&mut out, tables.len() as u64);
    push_str(&mut out, "\n");
    proof {
        assert(out@ =~= tables_header(tables@.len()));
    }
    let start = estimate(est, &out);
    let ghost header = out@;
    let mut used: u128 = start as u128;
    let mut emitted = false;
    let mut rest: Vec<usize> = Vec::new();
    let ghost mut costs: Seq<u64> = Seq::empty();
    let mut k: usize = 0;
    while k < order.len()
        invariant
            k <= order.len(),
            p == usize_ints(order@),
            table_order(p, tables@),
            st == in_order(tables@, p),
            blocks == table_blocks(st),
            header == tables_header(tables@.len()),
            forall|s: &str| call_requires(*est, (s,)),
            costs.len() == k,
            costs_of(*est, blocks.take(k as int), costs),
            spent(costs, start as int, budget as int) == (used as int, emitted),
            out@ == header + full_text(blocks.take(k as int), costs, start as int, budget as int),
            forall|i: int| 0 <= i < rest@.len() ==> (#[trigger] rest@[i]) < tables@.len(),
            Seq::new(rest@.len(), |i: int| tables@[rest@[i] as int]) == left_over(st.take(k as int), costs, start as int, budget as int),
        decreases order.len() - k,
    {
        let idx = order[k];
        proof {
            assert(p[k as int] == idx as int);
            assert(0 <= p[k as int] < tables@.len());
            assert(st[k as int] == tables@[idx as int]);
        }
        let mut block: Vec<char> = Vec::new();
        entry_status_line(&mut block, &tables[idx].0, " [下推表·禁直查]");
        render_columns(&mut block, &tables[idx].1.columns);
        render_relations(&mut block, &tables[idx].1.relations);
        proof {
            assert(block@ =~= blocks[k as int]);
        }
        let c = estimate(est, &block);
        proof {
            lemma_spent_bound(costs, start as int, budget as int);
        }
        let ghost old_costs = costs;
        let ghost old_rest = Seq::new(rest@.len(), |i: int| tables@[rest@[i] as int]);
        proof {
            costs = costs.push(c);
            assert(costs.drop_last() =~= old_costs);
            assert(blocks.take(k + 1).drop_last() =~= blocks.take(k as int));
            assert(st.take(k + 1).drop_last() =~= st.take(k as int));
            assert(blocks.take(k + 1).last() == blocks[k as int]);
            assert(st.take(k + 1).last() == st[k as int]);
            assert(costs_of(*est, blocks.take(k + 1), costs)) by {
                assert forall|i: int| 0 <= i < k + 1 implies cost_of(*est, #[trigger] blocks.take(k + 1)[i], costs[i]) by {
                    if i < k {
                        assert(blocks.take(k + 1)[i] == blocks.take(k as int)[i]);
                    }
                }
            }
        }
        if emitted && used + (c as u128) > (budget as u128) {
            rest.push(idx);
            proof {
                assert(Seq::new(rest@.len(), |i: int| tables@[rest@[i] as int]) =~= old_rest.push(st[k as int]));
            }
        } else {
            crate::text::push_slice(&mut out, block.as_slice());
            used = used + (c as u128);
            emitted = true;
            proof {
                assert(Seq::new(rest@.len(), |i: int| tables@[rest@[i] as int]) =~= old_rest);
            }
        }
        k = k + 1;
    }
    proof {
        assert(blocks.take(order@.len() as int) =~= blocks);
        assert(st.take(order@.len() as int) =~= st);
    }
    let ghost left = Seq::new(rest@.len(), |i: int| tables@[rest@[i] as int]);
    let ghost before_tail = out@;
    if rest.len() > 0 && rest.len() <= 6 {
        let mut j: usize = 0;
        while j < rest.len()
            invariant
                j <= rest.len(),
                left == Seq::new(rest@.len(), |i: int| tables@[rest@[i] as int]),
                forall|i: int| 0 <= i < rest@.len() ==> (#[trigger] rest@[i]) < tables@.len(),
                out@ == before_tail + status_lines(left.take(j as int), pushdown_mark()),
            decreases rest.len() - j,
        {
            let idx = rest[j];
            entry_status_line(&mut out, &tables[idx].0, " [下推表·禁直查]");
            proof {
                assert(left.take(j + 1).drop_last() =~= left.take(j as int));
                assert(left.take(j + 1).last() == tables@[idx as int]);
                assert(out@ =~= before_tail + status_lines(left.take(j + 1), pushdown_mark()));
            }
            j = j + 1;
        }
        proof {
            assert(left.take(rest@.len() as int) =~= left);
        }
    } else if rest.len() > 6 {
        push_str(&mut out, "- （另有 ");
        push_u64(&mut out, rest.len() as u64);
        push_str(&mut out, " 张表：");
        let sep = chars_of("、");
        let mut names: Vec<char> = Vec::new();
        let mut j: usize = 0;
        while j < 4
            invariant
                j <= 4,
                rest@.len() > 6,
                sep@ == "、"@,
                left == Seq::new(rest@.len(), |i: int| tables@[rest@[i] as int]),
                forall|i: int| 0 <= i < rest@.len() ==> (#[trigger] rest@[i]) < tables@.len(),
                names@ == join(local_names(left.take(4)).take(j as int), "、"@),
            decreases 4 - j,
        {
            let idx = rest[j];
            let nm = chars_of(tables[idx].0.local_name.as_str());
            push_joined(&mut names, j > 0, nm.as_slice(), sep.as_slice(), Ghost(local_names(left.take(4)).take(j as int)));
            proof {
                assert(local_names(left.take(4)).take(j as int).push(nm@) =~= local_names(left.take(4)).take(j + 1));
            }
            j = j + 1;
        }
        proof {
            assert(local_names(left.take(4)).take(4) =~= local_names(left.take(4)));
        }
        crate::text::push_slice(&mut out, names.as_slice());
        push_str(&mut out, "…，需要时用 list_tables / list_okf_knowledge 查看）\n");
    }
    proof {
        assert(left == left_over(st, costs, start as int, budget as int));
        assert(out@ =~= tables_text(st, costs, start, budget as int));
    }
    string_from(out.as_slice())
}

// ---------------------------------------------------------------------------
// suspected duplicates
// ---------------------------------------------------------------------------

/// The markdown files of the six knowledge directories: global `concepts/`
/// and `users/`, workspace `selections/`, `views/`, `sources/` and
/// `pipelines/specific/`. Each file is its name without `.md` and its text
/// when it could be read.
pub struct KnowledgeDirs {
    pub concepts: Vec<(String, Option<String>)>,
    pub users: Vec<(String, Option<String>)>,
    pub selections: Vec<(String, Option<String>)>,
    pub views: Vec<(String, Option<String>)>,
    pub sources: Vec<(String, Option<String>)>,
    pub recipes: Vec<(String, Option<String>)>,
}

/// The six directories, in the order above.
pub open spec fn dir_list(d: KnowledgeDirs) -> Seq<Seq<DocView>> {
    seq![
        dir_views(d.concepts@),
        dir_views(d.users@),
        dir_views(d.selections@),
        dir_views(d.views@),
        dir_views(d.sources@),
        dir_views(d.recipes@),
    ]
}

/// The labels of the six directories in the duplicates section.
pub open spec fn dup_labels() -> Seq<Seq<char>> {
    seq!["concepts"@, "users"@, "selections"@, "views"@, "sources"@, "recipes"@]
}

/// A directory's files as the similarity checks take them: name and
/// description (empty when there is none).
pub open spec fn raw_entries(docs: Seq<DocView>) -> Seq<(Seq<char>, Seq<char>)> {
    Seq::new(
        docs.len(),
        |i: int|
            (docs[i].0, match doc_desc(docs[i].1) {
                Some(d) => d,
                None => Seq::empty(),
            }),
    )
}

/// Every group of every directory, labelled, directories in order.
pub open spec fn flat_groups(labels: Seq<Seq<char>>, gs: Seq<Seq<Seq<Seq<char>>>>) -> Seq<(Seq<char>, Seq<Seq<char>>)>
    decreases gs.len(),
{
    if gs.len() == 0 || labels.len() == 0 {
        Seq::empty()
    } else {
        flat_groups(labels.drop_last(), gs.drop_last()) + Seq::new(gs.last().len(), |k: int| (labels.last(), gs.last()[k]))
    }
}

pub open spec fn group_sizes(f: Seq<(Seq<char>, Seq<Seq<char>>)>) -> Seq<int> {
    Seq::new(f.len(), |i: int| f[i].1.len() as int)
}

/// `p` orders the keys from largest to smallest, equal keys in the order
/// given.
pub open spec fn desc_order(p: Seq<int>, keys: Seq<int>) -> bool {
    &&& is_permutation(p, keys.len() as int)
    &&& forall|i: int, j: int| 0 <= i < j < p.len() ==> keys[#[trigger] p[i]] >= keys[#[trigger] p[j]]
        && (keys[p[i]] == keys[p[j]] ==> p[i] < p[j])
}

/// `- label: a ≈ b ≈ c`.
pub open spec fn dup_line(x: (Seq<char>, Seq<Seq<char>>)) -> Seq<char> {
    "- "@ + x.0 + ": "@ + join(x.1, " ≈ "@) + "\n"@
}

pub open spec fn dup_lines(xs: Seq<(Seq<char>, Seq<Seq<char>>)>) -> Seq<char>
    decreases xs.len(),
{
    if xs.len() == 0 {
        Seq::empty()
    } else {
        dup_lines(xs.drop_last()) + dup_line(xs.last())
    }
}

pub open spec fn dup_header() -> Seq<char> {
    "## ⚠️ 疑似重复知识（同一主题应合并为一个文件）\n"@
}

/// The section of suspected duplicates: the six largest groups (larger
/// first, ties in directory order); empty when there is none.
pub open spec fn dup_text(sf: Seq<(Seq<char>, Seq<Seq<char>>)>) -> Seq<char> {
    if sf.len() == 0 {
        Seq::empty()
    } else {
        dup_header() + dup_lines(sf.take(if sf.len() < 6 {
            sf.len() as int
        } else {
            6
        }))
    }
}

/// `r` is the duplicates section of the six directories, each grouped as
/// [`crate::okf::similarity::duplicate_groups`] does.
pub open spec fn dups_listed(dirs: Seq<Seq<DocView>>, r: Seq<char>) -> bool {
    exists|gs: Seq<Seq<Seq<Seq<char>>>>, p: Seq<int>|
        #![trigger dup_text(in_order(flat_groups(dup_labels(), gs), p))]
        {
            &&& gs.len() == 6
            &&& forall|k: int| 0 <= k < 6 ==> grouping_of(raw_entries(dirs[k]), #[trigger] gs[k])
            &&& desc_order(p, group_sizes(flat_groups(dup_labels(), gs)))
            &&& r == dup_text(in_order(flat_groups(dup_labels(), gs), p))
        }
}

/// A directory's files as [`raw_entries`].
fn raw_of(docs: &Vec<(String, Option<String>)>) -> (r: Vec<(String, String)>)
    ensures
        entry_views(r@) == raw_entries(dir_views(docs@)),
{
    let mut out: Vec<(String, String)> = Vec::new();
    let mut k: usize = 0;
    while k < docs.len()
        invariant
            k <= docs.len(),
            out@.len() == k,
            entry_views(out@) == raw_entries(dir_views(docs@)).take(k as int),
        decreases docs.len() - k,
    {
        let d = match description_of(&docs[k].1) {
            Some(x) => x,
            None => String::new(),
        };
        let ghost before = out@;
        let nm = docs[k].0.clone();
        proof {
            let rv = raw_entries(dir_views(docs@));
            assert(dir_views(docs@)[k as int] == (docs@[k as int].0@, opt_view(docs@[k as int].1)));
            assert(rv[k as int] == (nm@, d@));
        }
        let ghost item = (nm, d);
        out.push((nm, d));
        proof {
            assert(before.len() == k);
            assert(out@ == before.push(item));
            assert(out@.len() == k + 1);
            let rv = raw_entries(dir_views(docs@));
            assert forall|i: int| 0 <= i < k + 1 implies #[trigger] entry_views(out@)[i] == rv.take(k + 1)[i] by {
                if i < k {
                    assert(out@[i] == before[i]);
                    assert(entry_views(before)[i] == rv.take(k as int)[i]);
                }
            }
            assert(entry_views(out@) =~= rv.take(k + 1));
        }
        k = k + 1;
    }
    proof {
        assert(raw_entries(dir_views(docs@)).take(docs@.len() as int) =~= raw_entries(dir_views(docs@)));
    }
    out
}

pub open spec fn labelled_views(v: Seq<(String, Vec<String>)>) -> Seq<(Seq<char>, Seq<Seq<char>>)> {
    Seq::new(v.len(), |i: int| (v[i].0@, string_views(v[i].1@)))
}

/// Appends each group of one directory, labelled.
fn append_groups(flat: &mut Vec<(String, Vec<String>)>, label: &str, groups: Vec<Vec<String>>)
    ensures
        labelled_views(final(flat)@) == labelled_views(old(flat)@) + Seq::new(
            string_groups(groups@).len(),
            |k: int| (label@, string_groups(groups@)[k]),
        ),
{
    let ghost g0 = string_groups(groups@);
    let ghost start = labelled_views(flat@);
    let mut gs = groups;
    let ghost mut taken: int = 0;
    while gs.len() > 0
        invariant
            0 <= taken <= g0.len(),
            gs@.len() == g0.len() - taken,
            string_groups(gs@) == g0.skip(taken),
            labelled_views(flat@) == start + Seq::new(taken as nat, |k: int| (label@, g0[k])),
        decreases gs.len(),
    {
        let ghost before = gs@;
        let g = gs.remove(0);
        proof {
            assert(g == before[0]);
            assert(string_groups(before)[0] =~= string_views(g@));
            assert(g0.skip(taken)[0] == g0[taken]);
            assert(string_views(g@) == g0[taken]);
            assert(gs@ =~= before.skip(1));
            assert forall|q: int| 0 <= q < gs@.len() implies #[trigger] string_groups(gs@)[q] == g0.skip(taken + 1)[q] by {
                assert(gs@[q] == before[q + 1]);
                assert(string_groups(before)[q + 1] == g0.skip(taken)[q + 1]);
            }
            assert(string_groups(gs@) =~= g0.skip(taken + 1));
        }
        let ghost fb = flat@;
        let ghost gv = string_views(g@);
        let lo = label.to_owned();
        flat.push((lo, g));
        proof {
            let t0 = taken;
            taken = taken + 1;
            let want = start + Seq::new(taken as nat, |k: int| (label@, g0[k]));
            let had = start + Seq::new(t0 as nat, |k: int| (label@, g0[k]));
            assert(labelled_views(fb) == had);
            assert(labelled_views(fb).len() == fb.len());
            assert(had.len() == start.len() + t0);
            assert(fb.len() == start.len() + t0);
            assert forall|i: int| 0 <= i < want.len() implies #[trigger] labelled_views(flat@)[i] == want[i] by {
                if i < fb.len() {
                    assert(flat@[i] == fb[i]);
                    if i < start.len() {
                        assert(had[i] == start[i] && want[i] == start[i]);
                    } else {
                        assert(had[i] == (label@, g0[i - start.len()]));
                        assert(want[i] == (label@, g0[i - start.len()]));
                    }
                    assert(labelled_views(fb)[i] == want[i]);
                } else {
                    assert(i == fb.len());
                    assert(labelled_views(flat@)[i] == (label@, gv));
                }
            }
            assert(labelled_views(flat@) =~= want);
        }
    }
    proof {
        assert(g0.skip(taken).len() == 0);
        assert(taken == g0.len());
    }
}

/// Stable order of the keys, largest first.
#[verifier::rlimit(40)]
fn order_desc(keys: &Vec<usize>) -> (r: Vec<usize>)
    ensures
        desc_order(usize_ints(r@), usize_ints(keys@)),
{
    let ghost kv = usize_ints(keys@);
    let mut out: Vec<usize> = Vec::new();
    let mut m: usize = 0;
    while m < keys.len()
        invariant
            m <= keys.len(),
            kv == usize_ints(keys@),
            is_permutation(usize_ints(out@), m as int),
            forall|i: int, j: int| 0 <= i < j < out@.len() ==> keys@[#[trigger] out@[i] as int] >= keys@[#[trigger] out@[j] as int]
                && (keys@[out@[i] as int] == keys@[out@[j] as int] ==> out@[i] < out@[j]),
        decreases keys.len() - m,
    {
        proof {
            assert forall|i: int| 0 <= i < out@.len() implies (#[trigger] out@[i]) < m by {
                assert(usize_ints(out@)[i] == out@[i] as int);
            }
        }
        let mut pos: usize = 0;
        while pos < out.len() && keys[out[pos]] >= keys[m]
            invariant
                pos <= out@.len(),
                m < keys.len(),
                forall|i: int| 0 <= i < out@.len() ==> (#[trigger] out@[i]) < m,
                forall|i: int| 0 <= i < pos ==> keys@[(#[trigger] out@[i]) as int] >= keys@[m as int],
            decreases out@.len() - pos,
        {
            pos = pos + 1;
        }
        let ghost old_out = out@;
        out.insert(pos, m);
        proof {
            old_out.insert_ensures(pos as int, m);
            let np = usize_ints(out@);
            let op = usize_ints(old_out);
            assert forall|i: int| 0 <= i < m + 1 implies 0 <= #[trigger] np[i] < m + 1 by {
                if i > pos {
                    assert(out@[i] == old_out[i - 1]);
                } else if i < pos {
                    assert(out@[i] == old_out[i]);
                }
            }
            assert forall|i: int, j: int| 0 <= i < j < m + 1 implies np[i] != np[j] by {
                if i < pos && j > pos {
                    assert(out@[j] == old_out[j - 1]);
                    assert(op[i] != op[j - 1]);
                } else if i > pos {
                    assert(out@[i] == old_out[i - 1] && out@[j] == old_out[j - 1]);
                    assert(op[i - 1] != op[j - 1]);
                } else if i == pos {
                    assert(out@[j] == old_out[j - 1]);
                } else {
                    assert(op[i] == old_out[i] as int);
                }
            }
            assert(is_permutation(np, m + 1));
            assert forall|i: int, j: int| 0 <= i < j < out@.len() implies keys@[#[trigger] out@[i] as int] >= keys@[#[trigger] out@[j] as int]
                && (keys@[out@[i] as int] == keys@[out@[j] as int] ==> out@[i] < out@[j]) by {
                if j < pos {
                } else if j == pos {
                    assert(old_out[i] < m);
                } else if i < pos {
                    assert(out@[j] == old_out[j - 1]);
                } else if i == pos {
                    assert(out@[j] == old_out[j - 1]);
                    assert(keys@[old_out[pos as int] as int] < keys@[m as int]);
                    if j - 1 > pos {
                        assert(keys@[old_out[pos as int] as int] >= keys@[old_out[j - 1] as int]);
                    }
                } else {
                    assert(out@[i] == old_out[i - 1] && out@[j] == old_out[j - 1]);
                }
            }
        }
        m = m + 1;
    }
    proof {
        let np = usize_ints(out@);
        assert forall|i: int, j: int| 0 <= i < j < np.len() implies kv[#[trigger] np[i]] >= kv[#[trigger] np[j]]
            && (kv[np[i]] == kv[np[j]] ==> np[i] < np[j]) by {
            assert(np[i] == out@[i] as int && np[j] == out@[j] as int);
        }
    }
    out
}

/// The section of suspected duplicates (see [`dup_text`]).
#[verifier::rlimit(60)]
pub fn duplicate_section(dirs: &KnowledgeDirs) -> (r: String)
    ensures
        dups_listed(dir_list(*dirs), r@),
{
    let ghost dl = dir_list(*dirs);
    let g0 = duplicate_groups(raw_of(&dirs.concepts).as_slice());
    let g1 = duplicate_groups(raw_of(&dirs.users).as_slice());
    let g2 = duplicate_groups(raw_of(&dirs.selections).as_slice());
    let g3 = duplicate_groups(raw_of(&dirs.views).as_slice());
    let g4 = duplicate_groups(raw_of(&dirs.sources).as_slice());
    let g5 = duplicate_groups(raw_of(&dirs.recipes).as_slice());
    let ghost gs = seq![
        string_groups(g0@),
        string_groups(g1@),
        string_groups(g2@),
        string_groups(g3@),
        string_groups(g4@),
        string_groups(g5@),
    ];
    proof {
        assert forall|k: int| 0 <= k < 6 implies grouping_of(raw_entries(dl[k]), #[trigger] gs[k]) by {
            if k == 0 {
            } else if k == 1 {
            } else if k == 2 {
            } else if k == 3 {
            } else if k == 4 {
            } else {
            }
        }
    }
    let mut flat: Vec<(String, Vec<String>)> = Vec::new();
    append_groups(&mut flat, "concepts", g0);
    append_groups(&mut flat, "users", g1);
    append_groups(&mut flat, "selections", g2);
    append_groups(&mut flat, "views", g3);
    append_groups(&mut flat, "sources", g4);
    append_groups(&mut flat, "recipes", g5);
    let ghost fv = labelled_views(flat@);
    proof {
        let ls = dup_labels();
        assert(gs.take(6) =~= gs);
        assert(ls.take(6) =~= ls);
        reveal_with_fuel(flat_groups, 7);
        assert(ls.take(0) =~= Seq::<Seq<char>>::empty());
        assert(gs.take(1).drop_last() =~= gs.take(0));
        assert(ls.take(1).drop_last() =~= ls.take(0));
        assert(gs.take(2).drop_last() =~= gs.take(1));
        assert(ls.take(2).drop_last() =~= ls.take(1));
        assert(gs.take(3).drop_last() =~= gs.take(2));
        assert(ls.take(3).drop_last() =~= ls.take(2));
        assert(gs.take(4).drop_last() =~= gs.take(3));
        assert(ls.take(4).drop_last() =~= ls.take(3));
        assert(gs.take(5).drop_last() =~= gs.take(4));
        assert(ls.take(5).drop_last() =~= ls.take(4));
        assert(gs.drop_last() =~= gs.take(5));
        assert(ls.drop_last() =~= ls.take(5));
        assert(fv =~= flat_groups(ls, gs));
    }
    let mut keys: Vec<usize> = Vec::new();
    let mut k: usize = 0;
    while k < flat.len()
        invariant
            k <= flat.len(),
            fv == labelled_views(flat@),
            keys@.len() == k,
            usize_ints(keys@) == group_sizes(fv).take(k as int),
        decreases flat.len() - k,
    {
        let ghost before = keys@;
        keys.push(flat[k].1.len());
        proof {
            assert(fv[k as int].1.len() == flat@[k as int].1@.len());
            assert forall|i: int| 0 <= i < k + 1 implies #[trigger] usize_ints(keys@)[i] == group_sizes(fv).take(k + 1)[i] by {
                if i < k {
                    assert(usize_ints(before)[i] == group_sizes(fv).take(k as int)[i]);
                }
            }
            assert(usize_ints(keys@) =~= group_sizes(fv).take(k + 1));
        }
        k = k + 1;
    }
    proof {
        assert(group_sizes(fv).take(flat@.len() as int) =~= group_sizes(fv));
    }
    let order = order_desc(&keys);
    let ghost p = usize_ints(order@);
    let ghost sf = in_order(fv, p);
    let mut out: Vec<char> = Vec::new();
    if flat.len() > 0 {
        push_str(&mut out, "## ⚠️ 疑似重复知识（同一主题应合并为一个文件）\n");
        let ghost start = out@;
        let n: usize = if flat.len() < 6 { flat.len() } else { 6 };
        let mut i: usize = 0;
        while i < n
            invariant
                i <= n <= flat.len(),
                n == (if flat@.len() < 6 { flat@.len() } else { 6 }),
                order@.len() == flat@.len(),
                p == usize_ints(order@),
                is_permutation(p, flat@.len() as int),
                fv == labelled_views(flat@),
                sf == in_order(fv, p),
                out@ == start + dup_lines(sf.take(i as int)),
            decreases n - i,
        {
            let idx = order[i];
            proof {
                assert(p[i as int] == idx as int);
                assert(0 <= p[i as int] < flat@.len());
            }
            let label = &flat[idx].0;
            let group = &flat[idx].1;
            let ghost before = out@;
            push_str(&mut out, "- ");
            push_str(&mut out, label.as_str());
            push_str(&mut out, ": ");
            let j = join_strings(group, " ≈ ");
            crate::text::push_slice(&mut out, j.as_slice());
            push_str(&mut out, "\n");
            proof {
                assert(sf[i as int] == fv[idx as int]);
                assert(out@ =~= before + dup_line(sf[i as int]));
                assert(sf.take(i + 1).drop_last() =~= sf.take(i as int));
                assert(sf.take(i + 1).last() == sf[i as int]);
            }
            i = i + 1;
        }
    }
    proof {
        assert(out@ =~= dup_text(sf));
        assert(desc_order(p, group_sizes(flat_groups(dup_labels(), gs))));
    }
    string_from(out.as_slice())
}

// ---------------------------------------------------------------------------
// the outline with metadata
// ---------------------------------------------------------------------------

/// The files whose text could be read, in order.
pub open spec fn readable(sd: Seq<DocView>) -> Seq<DocView>
    decreases sd.len(),
{
    if sd.len() == 0 {
        Seq::empty()
    } else {
        let prev = readable(sd.drop_last());
        if sd.last().1 is Some {
            prev.push(sd.last())
        } else {
            prev
        }
    }
}

/// A text's frontmatter entries (none without frontmatter).
pub open spec fn fm_entries(c: Seq<char>) -> Entries {
    match split_spec(c).0 {
        Some(e) => e,
        None => Seq::empty(),
    }
}

/// A field's value, empty when absent.
pub open spec fn field(e: Entries, key: Seq<char>) -> Seq<char> {
    match lookup(e, key) {
        Some(v) => v,
        None => Seq::empty(),
    }
}

/// Bytes of a character in UTF-8.
pub open spec fn utf8_len(c: char) -> int {
    let u = c as u32;
    if u < 0x80 {
        1
    } else if u < 0x800 {
        2
    } else if u < 0x10000 {
        3
    } else {
        4
    }
}

/// The characters making up the first `n` bytes of `s` in UTF-8
/// (`str::get(..n)`): `None` when `s` is shorter or byte `n` falls inside a
/// character.
pub open spec fn take_bytes(s: Seq<char>, n: int) -> Option<Seq<char>>
    decreases s.len(),
{
    if n == 0 {
        Some(Seq::empty())
    } else if s.len() == 0 || n < 0 {
        None
    } else {
        let l = utf8_len(s[0]);
        if l > n {
            None
        } else {
            match take_bytes(s.drop_first(), n - l) {
                Some(t) => Some(seq![s[0]] + t),
                None => None,
            }
        }
    }
}

/// The date part of a timestamp field: its first ten bytes (`YYYY-MM-DD`),
/// empty when the field is absent or shorter.
pub open spec fn date_part(e: Entries, key: Seq<char>) -> Seq<char> {
    match lookup(e, key) {
        Some(v) => match take_bytes(v, 10) {
            Some(t) => t,
            None => Seq::empty(),
        },
        None => Seq::empty(),
    }
}

/// The first lines of a file's entry in the outline: its name in bold, then
/// its type, and its description and dates when present.
pub open spec fn meta_head(name: Seq<char>, e: Entries) -> Seq<char> {
    let desc = field(e, "description"@);
    let created = date_part(e, "created_at"@);
    let updated = date_part(e, "updated_at"@);
    "- **"@ + name + "**\n"@ + "  类型: "@ + field(e, "type"@) + (if desc.len() > 0 {
        " | 描述: "@ + desc
    } else {
        Seq::empty()
    }) + (if created.len() > 0 || updated.len() > 0 {
        " | 创建: "@ + created + " 更新: "@ + updated
    } else {
        Seq::empty()
    }) + "\n"@
}

/// `  板块: h1、h2`; empty without headings.
pub open spec fn sections_line(hs: Seq<Seq<char>>) -> Seq<char> {
    if hs.len() > 0 {
        "  板块: "@ + join(hs, "、"@) + "\n"@
    } else {
        Seq::empty()
    }
}

/// A file's entry in the outline: [`meta_head`], then (when `show`) its
/// second-level headings.
pub open spec fn meta_line(d: DocView, show: bool) -> Seq<char> {
    let c = match d.1 {
        Some(c) => c,
        None => Seq::empty(),
    };
    meta_head(d.0, fm_entries(c)) + sections_line(if show {
        headings_of(c, 2)
    } else {
        Seq::empty()
    })
}

pub open spec fn meta_lines(sd: Seq<DocView>, show: bool) -> Seq<char>
    decreases sd.len(),
{
    if sd.len() == 0 {
        Seq::empty()
    } else {
        meta_lines(sd.drop_last(), show) + meta_line(sd.last(), show)
    }
}

/// A counted section of the readable files with their metadata; empty when
/// there is none.
pub open spec fn meta_section_text(title: Seq<char>, rd: Seq<DocView>, show: bool) -> Seq<char> {
    if rd.len() == 0 {
        Seq::empty()
    } else {
        count_header(title, rd.len()) + meta_lines(rd, show)
    }
}

pub open spec fn meta_listed(title: Seq<char>, docs: Seq<DocView>, show: bool, r: Seq<char>) -> bool {
    exists|sd: Seq<DocView>| #[trigger] name_sorted(sd, named(docs)) && r == meta_section_text(title, readable(sd), show)
}

/// The first ten bytes of `s`, when they end on a character boundary.
fn date_prefix(s: &str) -> (r: Vec<char>)
    ensures
        r@ == (match take_bytes(s@, 10) {
            Some(t) => t,
            None => Seq::empty(),
        }),
{
    let v = chars_of(s);
    let mut k: usize = 0;
    let mut left: u32 = 10;
    proof {
        assert(v@.skip(0) =~= v@);
        match take_bytes(v@, 10) {
            Some(t) => {
                assert(v@.take(0) + t =~= t);
            },
            None => {},
        }
    }
    while k < v.len() && left > 0
        invariant
            k <= v.len(),
            left <= 10,
            v@ == s@,
            take_bytes(v@, 10) == match take_bytes(v@.skip(k as int), left as int) {
                Some(t) => Some(v@.take(k as int) + t),
                None => None,
            },
        decreases v.len() - k,
    {
        let u = v[k] as u32;
        let l: u32 = if u < 0x80 {
            1
        } else if u < 0x800 {
            2
        } else if u < 0x10000 {
            3
        } else {
            4
        };
        proof {
            assert(l == utf8_len(v@[k as int]));
            assert(v@.skip(k as int).drop_first() =~= v@.skip(k + 1));
            assert(v@.skip(k as int)[0] == v@[k as int]);
            assert(v@.take(k + 1) =~= v@.take(k as int) + seq![v@[k as int]]);
        }
        if l > left {
            let r: Vec<char> = Vec::new();
            proof {
                let sk = v@.skip(k as int);
                assert(sk.len() > 0 && left > 0);
                assert(utf8_len(sk[0]) > left);
                assert(take_bytes(sk, left as int) is None);
                assert(take_bytes(v@, 10) is None);
                assert(r@ =~= Seq::<char>::empty());
            }
            return r;
        }
        proof {
            let rest = take_bytes(v@.skip(k + 1), (left - l) as int);
            match rest {
                Some(t) => {
                    assert(seq![v@[k as int]] + t == seq![v@[k as int]] + t);
                    assert(v@.take(k as int) + (seq![v@[k as int]] + t) =~= v@.take(k + 1) + t);
                },
                None => {},
            }
        }
        left = left - l;
        k = k + 1;
    }
    if left > 0 {
        let r: Vec<char> = Vec::new();
        proof {
            assert(v@.skip(k as int).len() == 0);
            assert(r@ =~= Seq::<char>::empty());
        }
        return r;
    }
    let mut r: Vec<char> = Vec::new();
    crate::text::push_range(&mut r, &v, 0, k);
    proof {
        assert(take_bytes(v@.skip(k as int), 0) == Some(Seq::<char>::empty()));
        assert(v@.subrange(0, k as int) =~= v@.take(k as int) + Seq::<char>::empty());
    }
    r
}

fn fm_of(c: &str) -> (r: crate::okf::frontmatter::Frontmatter)
    ensures
        r@ == fm_entries(c@),
{
    let (fm, _) = split_document(c);
    match fm {
        Some(f) => f,
        None => crate::okf::frontmatter::Frontmatter::new(),
    }
}

fn field_of(fm: &crate::okf::frontmatter::Frontmatter, key: &str) -> (r: Vec<char>)
    ensures
        r@ == field(fm@, key@),
{
    match fm.get(key) {
        Some(v) => chars_of(v),
        None => {
            let r: Vec<char> = Vec::new();
            proof {
                assert(r@ =~= Seq::<char>::empty());
            }
            r
        },
    }
}

fn date_of(fm: &crate::okf::frontmatter::Frontmatter, key: &str) -> (r: Vec<char>)
    ensures
        r@ == date_part(fm@, key@),
{
    match fm.get(key) {
        Some(v) => date_prefix(v),
        None => {
            let r: Vec<char> = Vec::new();
            proof {
                assert(r@ =~= Seq::<char>::empty());
            }
            r
        },
    }
}

#[verifier::spinoff_prover]
#[verifier::rlimit(40)]
fn push_meta_head(out: &mut Vec<char>, name: &String, fm: &crate::okf::frontmatter::Frontmatter)
    ensures
        final(out)@ == old(out)@ + meta_head(name@, fm@),
{
    let ty = field_of(fm, "type");
    let desc = field_of(fm, "description");
    let created = date_of(fm, "created_at");
    let updated = date_of(fm, "updated_at");
    let ghost o = out@;
    push_str(out, "- **");
    push_str(out, name.as_str());
    push_str(out, "**\n");
    push_str(out, "  类型: ");
    crate::text::push_slice(out, ty.as_slice());
    let ghost a = out@;
    if desc.len() > 0 {
        push_str(out, " | 描述: ");
        crate::text::push_slice(out, desc.as_slice());
    }
    let ghost b = out@;
    if created.len() > 0 || updated.len() > 0 {
        push_str(out, " | 创建: ");
        crate::text::push_slice(out, created.as_slice());
        push_str(out, " 更新: ");
        crate::text::push_slice(out, updated.as_slice());
    }
    let ghost c = out@;
    push_str(out, "\n");
    proof {
        let e = fm@;
        let dsc = field(e, "description"@);
        let cr = date_part(e, "created_at"@);
        let up = date_part(e, "updated_at"@);
        assert(a =~= o + "- **"@ + name@ + "**\n"@ + "  类型: "@ + field(e, "type"@));
        assert(b =~= a + (if dsc.len() > 0 { " | 描述: "@ + dsc } else { Seq::<char>::empty() }));
        assert(c =~= b + (if cr.len() > 0 || up.len() > 0 { " | 创建: "@ + cr + " 更新: "@ + up } else { Seq::<char>::empty() }));
        assert(final(out)@ =~= old(out)@ + meta_head(name@, fm@));
    }
}

/// Appends [`meta_line`] for a readable file.
fn push_meta_line(out: &mut Vec<char>, name: &String, content: &String, show: bool)
    ensures
        final(out)@ == old(out)@ + meta_line((name@, Some(content@)), show),
{
    let fm = fm_of(content.as_str());
    push_meta_head(out, name, &fm);
    let ghost d = out@;
    let hs: Vec<String> = if show {
        extract_headings(content.as_str(), 2)
    } else {
        Vec::new()
    };
    proof {
        assert(hs@.map_values(|x: String| x@) =~= string_views(hs@));
        if !show {
            assert(string_views(hs@) =~= Seq::<Seq<char>>::empty());
        }
    }
    if hs.len() > 0 {
        push_str(out, "  板块: ");
        let j = join_strings(&hs, "、");
        crate::text::push_slice(out, j.as_slice());
        push_str(out, "\n");
    }
    proof {
        let hv: Seq<Seq<char>> = if show { headings_of(content@, 2) } else { Seq::empty() };
        assert(final(out)@ =~= d + sections_line(hv));
    }
}

/// A counted section of a directory's readable files with their metadata,
/// by name; empty when there is none.
pub fn metadata_section(title: &str, docs: &[(String, Option<String>)], show_headings: bool) -> (r: String)
    ensures
        meta_listed(title@, dir_views(docs@), show_headings, r@),
{
    let sd = sorted_docs(docs);
    let ghost dv = dir_views(sd@);
    let mut n: usize = 0;
    let mut k: usize = 0;
    while k < sd.len()
        invariant
            k <= sd.len(),
            dv == dir_views(sd@),
            n == readable(dv.take(k as int)).len(),
            n <= k,
        decreases sd.len() - k,
    {
        proof {
            assert(dv.take(k + 1).drop_last() =~= dv.take(k as int));
            assert(dv.take(k + 1).last() == dv[k as int]);
        }
        if sd[k].1.is_some() {
            n = n + 1;
        }
        k = k + 1;
    }
    proof {
        assert(dv.take(sd@.len() as int) =~= dv);
    }
    let mut out: Vec<char> = Vec::new();
    if n > 0 {
        push_count_header(&mut out, title, n);
        let ghost start = out@;
        let mut k: usize = 0;
        while k < sd.len()
            invariant
                k <= sd.len(),
                dv == dir_views(sd@),
                out@ == start + meta_lines(readable(dv.take(k as int)), show_headings),
            decreases sd.len() - k,
        {
            proof {
                assert(dv.take(k + 1).drop_last() =~= dv.take(k as int));
                assert(dv.take(k + 1).last() == dv[k as int]);
            }
            match &sd[k].1 {
                Some(c) => {
                    push_meta_line(&mut out, &sd[k].0, c, show_headings);
                    proof {
                        let rd = readable(dv.take(k as int));
                        assert(readable(dv.take(k + 1)) == rd.push(dv[k as int]));
                        assert(rd.push(dv[k as int]).drop_last() =~= rd);
                    }
                },
                None => {},
            }
            k = k + 1;
        }
        proof {
            assert(dv.take(sd@.len() as int) =~= dv);
        }
    }
    proof {
        assert(out@ =~= meta_section_text(title@, readable(dv), show_headings));
    }
    string_from(out.as_slice())
}

/// The registered tables in the outline: every table in the order given,
/// with its status line (pushdown tables marked ` [pushdown]`), column
/// comments and relations.
pub open spec fn outline_table_lines(tables: Seq<(TableRegistryEntry, TableNotes)>) -> Seq<char>
    decreases tables.len(),
{
    if tables.len() == 0 {
        Seq::empty()
    } else {
        let t = tables.last();
        outline_table_lines(tables.drop_last()) + status_line(t.0, " [pushdown]"@) + columns_text(t.1.columns@)
            + relations_text(t.1.relations@)
    }
}

pub open spec fn outline_tables_text(tables: Seq<(TableRegistryEntry, TableNotes)>) -> Seq<char> {
    if tables.len() == 0 {
        Seq::empty()
    } else {
        tables_header(tables.len()) + outline_table_lines(tables)
    }
}

fn outline_tables(tables: &[(TableRegistryEntry, TableNotes)]) -> (r: Vec<char>)
    ensures
        r@ == outline_tables_text(tables@),
{
    let mut out: Vec<char> = Vec::new();
    if tables.len() > 0 {
        push_str(&mut out, "### 已注册表 · ");
        push_u64(&mut out, tables.len() as u64);
        push_str(&mut out, "\n");
        let ghost start = out@;
        proof {
            assert(start =~= tables_header(tables@.len()));
        }
        let mut k: usize = 0;
        while k < tables.len()
            invariant
                k <= tables.len(),
                out@ == start + outline_table_lines(tables@.take(k as int)),
            decreases tables.len() - k,
        {
            entry_status_line(&mut out, &tables[k].0, " [pushdown]");
            render_columns(&mut out, &tables[k].1.columns);
            render_relations(&mut out, &tables[k].1.relations);
            proof {
                assert(tables@.take(k + 1).drop_last() =~= tables@.take(k as int));
                assert(tables@.take(k + 1).last() == tables@[k as int]);
                assert(out@ =~= start + outline_table_lines(tables@.take(k + 1)));
            }
            k = k + 1;
        }
        proof {
            assert(tables@.take(tables@.len() as int) =~= tables@);
        }
    }
    proof {
        assert(out@ =~= outline_tables_text(tables@));
    }
    out
}

/// The outline's parts put together: the global part when it has any
/// section, the workspace part when it has any, the duplicates section last,
/// the whole trimmed.
pub open spec fn assemble(global: Seq<char>, ws_any: bool, ws: Seq<char>, dup: Seq<char>) -> Seq<char> {
    let g = if global.len() > 0 {
        "# 知识库大纲\n\n"@ + "## 全局知识（跨工作区共享）\n"@ + global
    } else {
        Seq::empty()
    };
    let w = if ws_any {
        (if g.len() > 0 {
            "\n"@
        } else {
            "# 知识库大纲\n\n"@
        }) + "## 工作区知识\n"@ + ws
    } else {
        Seq::empty()
    };
    let body = g + w;
    trim(
        if dup.len() > 0 {
            body + (if body.len() > 0 {
                "\n"@
            } else {
                Seq::empty()
            }) + dup
        } else {
            body
        },
    )
}

/// The outline from its sections.
pub open spec fn outline_of(
    tables: Seq<(TableRegistryEntry, TableNotes)>,
    c: Seq<char>,
    u: Seq<char>,
    sel: Seq<char>,
    v: Seq<char>,
    so: Seq<char>,
    re: Seq<char>,
    dup: Seq<char>,
) -> Seq<char> {
    assemble(
        c + u,
        tables.len() > 0 || sel.len() > 0 || v.len() > 0 || so.len() > 0 || re.len() > 0,
        sel + outline_tables_text(tables) + v + so + re,
        dup,
    )
}

/// `r` is the outline with metadata of the knowledge `dirs` and the
/// registered `tables` (each directory's section as [`meta_listed`]).
pub open spec fn outline_listed(dirs: Seq<Seq<DocView>>, tables: Seq<(TableRegistryEntry, TableNotes)>, r: Seq<char>) -> bool {
    exists|c: Seq<char>, u: Seq<char>, sel: Seq<char>, v: Seq<char>, so: Seq<char>, re: Seq<char>, dup: Seq<char>|
        #![trigger outline_of(tables, c, u, sel, v, so, re, dup)]
        {
            &&& meta_listed("业务概念 (concepts/)"@, dirs[0], true, c)
            &&& meta_listed("用户背景 (users/)"@, dirs[1], false, u)
            &&& meta_listed("选表经验 (selections/)"@, dirs[2], false, sel)
            &&& meta_listed("视图 (views/)"@, dirs[3], false, v)
            &&& meta_listed("数据源知识 (sources/)"@, dirs[4], false, so)
            &&& meta_listed("排障配方 (pipelines/specific/)"@, dirs[5], false, re)
            &&& dups_listed(dirs, dup)
            &&& r == outline_of(tables, c, u, sel, v, so, re, dup)
        }
}

/// Puts the parts together as [`assemble`] does.
fn assemble_parts(global: &Vec<char>, ws_any: bool, ws: &Vec<char>, dup: &String) -> (r: String)
    ensures
        r@ == assemble(global@, ws_any, ws@, dup@),
{
    let mut out: Vec<char> = Vec::new();
    if global.len() > 0 {
        push_str(&mut out, "# 知识库大纲\n\n");
        push_str(&mut out, "## 全局知识（跨工作区共享）\n");
        crate::text::push_slice(&mut out, global.as_slice());
    }
    let ghost g = out@;
    if ws_any {
        if out.len() > 0 {
            push_str(&mut out, "\n");
        } else {
            push_str(&mut out, "# 知识库大纲\n\n");
        }
        push_str(&mut out, "## 工作区知识\n");
        crate::text::push_slice(&mut out, ws.as_slice());
    }
    let ghost body = out@;
    if !dup.as_str().is_empty() {
        if out.len() > 0 {
            push_str(&mut out, "\n");
        }
        push_str(&mut out, dup.as_str());
    }
    proof {
        let gg = if global@.len() > 0 {
            "# 知识库大纲\n\n"@ + "## 全局知识（跨工作区共享）\n"@ + global@
        } else {
            Seq::<char>::empty()
        };
        assert(g =~= gg);
        let w = if ws_any {
            (if gg.len() > 0 { "\n"@ } else { "# 知识库大纲\n\n"@ }) + "## 工作区知识\n"@ + ws@
        } else {
            Seq::<char>::empty()
        };
        assert(body =~= gg + w);
        let whole = if dup@.len() > 0 {
            body + (if body.len() > 0 { "\n"@ } else { Seq::<char>::empty() }) + dup@
        } else {
            body
        };
        assert(out@ =~= whole);
    }
    let (a, b) = trim_bounds(&out, 0, out.len());
    proof {
        assert(out@.subrange(0, out@.len() as int) =~= out@);
    }
    string_of_range(&out, a, b)
}

/// The outline with every entry's metadata: type, description, creation and
/// update dates, and for concepts their second-level headings; the
/// registered tables with their column comments and relations; suspected
/// duplicates last.
#[verifier::rlimit(50)]
#[verifier::spinoff_prover]
pub fn outline(dirs: &KnowledgeDirs, tables: &[(TableRegistryEntry, TableNotes)]) -> (r: String)
    ensures
        outline_listed(dir_list(*dirs), tables@, r@),
{
    let c = metadata_section("业务概念 (concepts/)", &dirs.concepts, true);
    let u = metadata_section("用户背景 (users/)", &dirs.users, false);
    let sel = metadata_section("选表经验 (selections/)", &dirs.selections, false);
    let v = metadata_section("视图 (views/)", &dirs.views, false);
    let so = metadata_section("数据源知识 (sources/)", &dirs.sources, false);
    let re = metadata_section("排障配方 (pipelines/specific/)", &dirs.recipes, false);
    let mut global: Vec<char> = Vec::new();
    push_str(&mut global, c.as_str());
    push_str(&mut global, u.as_str());
    let ws_any = tables.len() > 0 || !sel.as_str().is_empty() || !v.as_str().is_empty() || !so.as_str().is_empty()
        || !re.as_str().is_empty();
    let mut ws: Vec<char> = Vec::new();
    push_str(&mut ws, sel.as_str());
    let t = outline_tables(tables);
    crate::text::push_slice(&mut ws, t.as_slice());
    push_str(&mut ws, v.as_str());
    push_str(&mut ws, so.as_str());
    push_str(&mut ws, re.as_str());
    let dup = duplicate_section(dirs);
    proof {
        assert(global@ =~= c@ + u@);
        assert(ws@ =~= sel@ + outline_tables_text(tables@) + v@ + so@ + re@);
    }
    let r = assemble_parts(&global, ws_any, &ws, &dup);
    proof {
        assert(r@ == outline_of(tables@, c@, u@, sel@, v@, so@, re@, dup@));
    }
    r
}

/// Token budget of the registered-tables section of the preamble outline.
pub const SUMMARY_TABLES_BUDGET: u64 = 1000;

/// Token budget of the selection-notes section of the preamble outline.
pub const SUMMARY_SELECTIONS_BUDGET: u64 = 400;

/// The preamble outline from its sections.
pub open spec fn summary_of(
    tables: Seq<(TableRegistryEntry, TableNotes)>,
    c: Seq<char>,
    u: Seq<char>,
    sel: Seq<char>,
    tab: Seq<char>,
    v: Seq<char>,
    so: Seq<char>,
    re: Seq<char>,
    dup: Seq<char>,
) -> Seq<char> {
    assemble(
        c + u,
        tables.len() > 0 || sel.len() > 0 || v.len() > 0 || so.len() > 0 || re.len() > 0,
        sel + tab + v + so + re,
        dup,
    )
}

/// `r` is the preamble outline of the knowledge `dirs` and the registered
/// `tables`, for some token estimates that `est` gave.
pub open spec fn summary_listed<F: Fn(&str) -> u64>(est: F, dirs: Seq<Seq<DocView>>, tables: Seq<(TableRegistryEntry, TableNotes)>, r: Seq<char>) -> bool {
    exists|c: Seq<char>, u: Seq<char>, sel: Seq<char>, tab: Seq<char>, v: Seq<char>, so: Seq<char>, re: Seq<char>, dup: Seq<char>|
        #![trigger summary_of(tables, c, u, sel, tab, v, so, re, dup)]
        {
            &&& concepts_listed(dirs[0], c)
            &&& desc_listed("用户背景 (users/)"@, dirs[1], u)
            &&& selections_listed(est, dirs[2], SUMMARY_SELECTIONS_BUDGET as int, sel)
            &&& (if tables.len() > 0 { tables_listed(est, tables, SUMMARY_TABLES_BUDGET as int, tab) } else { tab.len() == 0 })
            &&& desc_listed("视图 (views/)"@, dirs[3], v)
            &&& desc_listed("数据源知识 (sources/)"@, dirs[4], so)
            &&& desc_listed("排障配方 (pipelines/specific/)"@, dirs[5], re)
            &&& dups_listed(dirs, dup)
            &&& r == summary_of(tables, c, u, sel, tab, v, so, re, dup)
        }
}

/// The knowledge outline injected into the preamble: concepts with their
/// headings and users with descriptions (global); selection notes and
/// registered tables within their token budgets, views, sources and
/// recipes with descriptions (workspace); suspected duplicates last. `est`
/// estimates the tokens of a text.
#[verifier::rlimit(50)]
#[verifier::spinoff_prover]
pub fn summary<F: Fn(&str) -> u64>(dirs: &KnowledgeDirs, tables: &[(TableRegistryEntry, TableNotes)], est: &F) -> (r: String)
    requires
        forall|s: &str| call_requires(*est, (s,)),
    ensures
        summary_listed(*est, dir_list(*dirs), tables@, r@),
{
    let c = concept_section(&dirs.concepts);
    let u = desc_section("用户背景 (users/)", &dirs.users);
    let sel = render_selections(&dirs.selections, SUMMARY_SELECTIONS_BUDGET, est);
    let v = desc_section("视图 (views/)", &dirs.views);
    let so = desc_section("数据源知识 (sources/)", &dirs.sources);
    let re = desc_section("排障配方 (pipelines/specific/)", &dirs.recipes);
    let tab = if tables.len() > 0 {
        render_registered_tables(tables, SUMMARY_TABLES_BUDGET, est)
    } else {
        String::new()
    };
    let mut global: Vec<char> = Vec::new();
    push_str(&mut global, c.as_str());
    push_str(&mut global, u.as_str());
    let ws_any = tables.len() > 0 || !sel.as_str().is_empty() || !v.as_str().is_empty() || !so.as_str().is_empty()
        || !re.as_str().is_empty();
    let mut ws: Vec<char> = Vec::new();
    push_str(&mut ws, sel.as_str());
    push_str(&mut ws, tab.as_str());
    push_str(&mut ws, v.as_str());
    push_str(&mut ws, so.as_str());
    push_str(&mut ws, re.as_str());
    let dup = duplicate_section(dirs);
    proof {
        assert(global@ =~= c@ + u@);
        assert(ws@ =~= sel@ + tab@ + v@ + so@ + re@);
    }
    let r = assemble_parts(&global, ws_any, &ws, &dup);
    proof {
        assert(r@ == summary_of(tables@, c@, u@, sel@, tab@, v@, so@, re@, dup@));
    }
    r
}

// ---------------------------------------------------------------------------
// laws
// ---------------------------------------------------------------------------

/// Law: a file is a search hit exactly when some line of it holds one of the
/// query's tokens (case-insensitively).
pub proof fn lemma_hit_iff_token_found(tokens: Seq<Seq<char>>, ls: Seq<Seq<char>>)
    ensures
        best_line(tokens, ls) is Some <==> exists|i: int| 0 <= i < ls.len() && line_score(tokens, #[trigger] ls[i]) > 0,
        best_line(tokens, ls) matches Some(b) ==> 0 <= b.1 < ls.len() && b.0 == line_score(tokens, ls[b.1]) && b.0 > 0,
    decreases ls.len(),
{
    if ls.len() > 0 {
        let p = ls.drop_last();
        lemma_hit_iff_token_found(tokens, p);
        assert forall|i: int| 0 <= i < p.len() implies #[trigger] p[i] == ls[i] by {}
        if exists|i: int| 0 <= i < ls.len() && line_score(tokens, #[trigger] ls[i]) > 0 {
            let i = choose|i: int| 0 <= i < ls.len() && line_score(tokens, #[trigger] ls[i]) > 0;
            if i < ls.len() - 1 {
                assert(line_score(tokens, p[i]) > 0);
            }
        }
    }
}

/// Law of search scoring: the line a file's hit is scored and previewed by
/// holds the most query tokens of all its lines (no line holds more), and
/// it is the first line holding that many.
pub proof fn lemma_best_line_is_max(tokens: Seq<Seq<char>>, ls: Seq<Seq<char>>)
    ensures
        best_line(tokens, ls) matches Some(b) ==> {
            &&& 0 <= b.1 < ls.len()
            &&& b.0 == line_score(tokens, ls[b.1])
            &&& forall|j: int| 0 <= j < ls.len() ==> line_score(tokens, #[trigger] ls[j]) <= b.0
            &&& forall|j: int| 0 <= j < b.1 ==> line_score(tokens, #[trigger] ls[j]) < b.0
        },
        best_line(tokens, ls) is None ==> forall|j: int| 0 <= j < ls.len() ==> line_score(tokens, #[trigger] ls[j]) == 0,
    decreases ls.len(),
{
    if ls.len() > 0 {
        let p = ls.drop_last();
        lemma_best_line_is_max(tokens, p);
        assert forall|i: int| 0 <= i < p.len() implies #[trigger] p[i] == ls[i] by {}
        let last = ls.len() - 1;
        assert(ls[last] == ls.last());
        match best_line(tokens, p) {
            Some(b) => {
                assert(line_score(tokens, p[b.1]) == b.0);
            },
            None => {},
        }
        assert forall|j: int| 0 <= j < ls.len() implies #[trigger] line_score(tokens, ls[j]) == (if j < last {
            line_score(tokens, p[j])
        } else {
            line_score(tokens, ls.last())
        }) by {}
    }
}

/// `h` is the hit of the document `d` in `scope`: for a line `i` that
/// holds the most query tokens of all its lines, and is the first to hold
/// that many (at least one), its score is that count, its path the
/// document's labelled path, and its preview the line before `i` (if any),
/// line `i` and up to three lines after it.
pub open spec fn hit_of(tokens: Seq<Seq<char>>, scope: Scope, d: (Seq<char>, Seq<char>), h: (nat, Seq<char>, Seq<char>)) -> bool {
    let ls = lines(d.1);
    exists|i: int|
        #![trigger ls[i]]
        {
            &&& 0 <= i < ls.len()
            &&& line_score(tokens, ls[i]) > 0
            &&& forall|j: int| 0 <= j < ls.len() ==> line_score(tokens, #[trigger] ls[j]) <= line_score(tokens, ls[i])
            &&& forall|j: int| 0 <= j < i ==> line_score(tokens, #[trigger] ls[j]) < line_score(tokens, ls[i])
            &&& h.0 == line_score(tokens, ls[i])
            &&& h.1 == hit_path(scope, d.0)
            &&& h.2 == join(ls.subrange(if i >= 1 { i - 1 } else { 0 }, if i + 4 < ls.len() { i + 4 } else { ls.len() as int }), seq!['\n'])
        }
}

/// Law of search hits: a document adds a hit exactly when one of its lines
/// holds a query token, and that hit is scored and previewed by the first
/// line holding the most tokens (see [`hit_of`]); a document with no such
/// line adds nothing.
pub proof fn lemma_scope_hit(tokens: Seq<Seq<char>>, scope: Scope, docs: Seq<(Seq<char>, Seq<char>)>, d: (Seq<char>, Seq<char>))
    ensures
        (forall|j: int| 0 <= j < lines(d.1).len() ==> line_score(tokens, #[trigger] lines(d.1)[j]) == 0)
            ==> scope_hits(tokens, scope, docs.push(d)) == scope_hits(tokens, scope, docs),
        (exists|j: int| 0 <= j < lines(d.1).len() && line_score(tokens, #[trigger] lines(d.1)[j]) > 0) ==> {
            &&& scope_hits(tokens, scope, docs.push(d)).len() == scope_hits(tokens, scope, docs).len() + 1
            &&& scope_hits(tokens, scope, docs.push(d)).drop_last() == scope_hits(tokens, scope, docs)
            &&& hit_of(tokens, scope, d, scope_hits(tokens, scope, docs.push(d)).last())
        },
{
    let ls = lines(d.1);
    let all = docs.push(d);
    assert(all.drop_last() =~= docs);
    assert(all.last() == d);
    lemma_hit_iff_token_found(tokens, ls);
    lemma_best_line_is_max(tokens, ls);
    match best_line(tokens, ls) {
        Some(b) => {
            let h = scope_hits(tokens, scope, all).last();
            assert(h == (b.0, hit_path(scope, d.0), preview_of(ls, b.1)));
            assert(ls[b.1] == ls[b.1]);
            assert(hit_of(tokens, scope, d, h));
        },
        None => {},
    }
}

/// Law: the first block of a budgeted section is always written in full.
pub proof fn lemma_first_block_full(costs: Seq<u64>, start: int, budget: int)
    requires
        costs.len() > 0,
    ensures
        last_in_full(costs.take(1), start, budget),
{
    assert(costs.take(1).drop_last() =~= Seq::<u64>::empty());
}

/// Law: what the blocks written in full cost, with the header, stays within
/// the budget, unless the first block alone goes over it.
pub proof fn lemma_budget_kept(costs: Seq<u64>, start: int, budget: int)
    requires
        costs.len() > 0,
    ensures
        spent(costs, start, budget).0 <= budget || spent(costs, start, budget).0 == start + costs[0],
    decreases costs.len(),
{
    if costs.len() > 1 {
        let p = costs.drop_last();
        lemma_budget_kept(p, start, budget);
        assert(p[0] == costs[0]);
        lemma_spent_started(p, start, budget);
        let sp = spent(p, start, budget);
        assert(spent(costs, start, budget) == (if sp.1 && sp.0 + costs.last() > budget {
            sp
        } else {
            (sp.0 + costs.last(), true)
        }));
        assert(costs.last() >= 0);
        if sp.1 && sp.0 + costs.last() > budget {
            assert(spent(costs, start, budget) == sp);
        } else {
            assert(sp.0 + costs.last() <= budget);
            assert(spent(costs, start, budget).0 <= budget);
        }
    } else {
        assert(costs.drop_last() =~= Seq::<u64>::empty());
        assert(costs.last() == costs[0]);
        assert(spent(costs.drop_last(), start, budget) == (start, false));
        assert(spent(costs, start, budget) == (start + costs[0], true));
    }
}

/// After at least one block, a block has been written in full.
proof fn lemma_spent_started(costs: Seq<u64>, start: int, budget: int)
    requires
        costs.len() > 0,
    ensures
        spent(costs, start, budget).1,
    decreases costs.len(),
{
    if costs.len() > 1 {
        lemma_spent_started(costs.drop_last(), start, budget);
    }
}

} // verus!
