//! A task's conversation is kept as a log of JSON lines, one message per
//! line; a message streamed in several steps is appended again under the
//! same id. Loading the log keeps, for each message id, the line written
//! last, in the order in which the ids first appeared.

use vstd::prelude::*;

use crate::text::{chars_of, line_ranges, lines, str_eq, string_of_range, trim, trim_bounds};

verus! {

/// The lines of a log that are not blank.
pub open spec fn non_blank(ls: Seq<Seq<char>>) -> Seq<Seq<char>>
    decreases ls.len(),
{
    if ls.len() == 0 {
        Seq::empty()
    } else {
        let prev = non_blank(ls.drop_last());
        if trim(ls.last()).len() == 0 {
            prev
        } else {
            prev.push(ls.last())
        }
    }
}

/// The lines of a log file that hold a record: every line but the blank
/// ones, in order.
pub fn chat_lines(content: &str) -> (r: Vec<String>)
    ensures
        r@.map_values(|s: String| s@) == non_blank(lines(content@)),
{
    let s = chars_of(content);
    let rs = line_ranges(&s);
    let ghost ls = lines(content@);
    let mut out: Vec<String> = Vec::new();
    let mut k: usize = 0;
    while k < rs.len()
        invariant
            s@ == content@,
            crate::text::ranges_in(s@, rs@),
            crate::text::range_texts(s@, rs@) == ls,
            k <= rs.len(),
            out@.map_values(|x: String| x@) == non_blank(ls.take(k as int)),
        decreases rs.len() - k,
    {
        let (lo, hi) = rs[k];
        proof {
            assert(ls.take(k + 1).drop_last() =~= ls.take(k as int));
            assert(ls[k as int] == s@.subrange(lo as int, hi as int));
        }
        let (a, b) = trim_bounds(&s, lo, hi);
        if a < b {
            let line = string_of_range(&s, lo, hi);
            out.push(line);
            proof {
                assert(out@.map_values(|x: String| x@) =~= non_blank(ls.take(k as int)).push(ls[k as int]));
            }
        }
        k = k + 1;
    }
    proof {
        assert(ls.take(rs@.len() as int) =~= ls);
    }
    out
}

/// `p` is the last position of its id in `ids`.
pub open spec fn is_last(ids: Seq<Seq<char>>, p: int) -> bool {
    &&& 0 <= p < ids.len()
    &&& forall|j: int| p < j < ids.len() ==> ids[j] != ids[p]
}

/// What [`latest_by_id`] answers for the ids of a log: positions into it,
/// one per distinct id, each the last line of its id; every id of the log
/// is there; and the ids come in the order of their first lines: before any
/// line of a later id there is a line of each earlier one.
pub open spec fn compacted(ids: Seq<Seq<char>>, r: Seq<usize>) -> bool {
    &&& forall|i: int| 0 <= i < r.len() ==> #[trigger] is_last(ids, r[i] as int)
    &&& forall|i: int, i2: int| #![trigger r[i], r[i2]] 0 <= i < r.len() && 0 <= i2 < r.len() && i != i2 ==> ids[r[i] as int] != ids[r[i2] as int]
    &&& forall|j: int| 0 <= j < ids.len() ==> #[trigger] is_kept(ids, r, ids[j])
    &&& forall|i: int, i2: int, m: int|
        #![trigger ids[m], r[i], r[i2]]
        0 <= i < i2 < r.len() && 0 <= m < ids.len() && ids[m] == ids[r[i2] as int] ==> seen_before(ids, ids[r[i] as int], m)
}

/// Some kept position holds the id `k`.
pub open spec fn is_kept(ids: Seq<Seq<char>>, r: Seq<usize>, k: Seq<char>) -> bool {
    exists|i: int| 0 <= i < r.len() && ids[#[trigger] r[i] as int] == k
}

/// The id `k` occurs before position `m`.
pub open spec fn seen_before(ids: Seq<Seq<char>>, k: Seq<char>, m: int) -> bool {
    exists|p: int| 0 <= p < m && #[trigger] ids[p] == k
}

/// What holds of the positions kept after the first `n` lines: each is
/// before `n` and the last of its id so far; ids are distinct; every id so
/// far is kept; `firsts` holds the first line of each kept id, increasing.
#[verifier::opaque]
pub open spec fn kept_so_far(v: Seq<Seq<char>>, n: int, out: Seq<usize>, firsts: Seq<int>) -> bool {
    &&& 0 <= n <= v.len()
    &&& firsts.len() == out.len()
    &&& forall|i: int| 0 <= i < out.len() ==> #[trigger] out[i] < n
    &&& forall|i: int, j: int| #![trigger v[j], out[i]] 0 <= i < out.len() && out[i] < j < n ==> v[j] != v[out[i] as int]
    &&& forall|i: int, i2: int| #![trigger out[i], out[i2]] 0 <= i < out.len() && 0 <= i2 < out.len() && i != i2 ==> v[out[i] as int] != v[out[i2] as int]
    &&& forall|j: int| 0 <= j < n ==> #[trigger] is_kept(v, out, v[j])
    &&& forall|i: int| 0 <= i < out.len() ==> 0 <= #[trigger] firsts[i] <= out[i] && v[firsts[i]] == v[out[i] as int]
    &&& forall|i: int, m: int| #![trigger v[m], firsts[i]] 0 <= i < out.len() && 0 <= m < firsts[i] ==> v[m] != v[firsts[i]]
    &&& forall|i: int, i2: int| 0 <= i < i2 < out.len() ==> #[trigger] firsts[i] < #[trigger] firsts[i2]
}

proof fn lemma_kept_start(v: Seq<Seq<char>>)
    ensures
        kept_so_far(v, 0, Seq::empty(), Seq::empty()),
{
    reveal(kept_so_far);
}

/// A line whose id is kept already replaces the kept position of that id.
proof fn lemma_kept_replace(v: Seq<Seq<char>>, n: int, out: Seq<usize>, firsts: Seq<int>, q: int)
    requires
        kept_so_far(v, n, out, firsts),
        n < v.len(),
        n <= usize::MAX,
        0 <= q < out.len(),
        v[out[q] as int] == v[n],
    ensures
        kept_so_far(v, n + 1, out.update(q, n as usize), firsts),
{
    reveal(kept_so_far);
    let o2 = out.update(q, n as usize);
    assert forall|i: int, j: int| #![trigger v[j], o2[i]] 0 <= i < o2.len() && o2[i] < j < n + 1 implies v[j] != v[o2[i] as int] by {
        if i != q && j == n {
            assert(v[out[i] as int] != v[out[q] as int]);
        }
    }
    assert forall|j: int| 0 <= j < n + 1 implies #[trigger] is_kept(v, o2, v[j]) by {
        if j == n {
            assert(v[o2[q] as int] == v[j]);
        } else {
            assert(is_kept(v, out, v[j]));
            let x = choose|x: int| 0 <= x < out.len() && v[#[trigger] out[x] as int] == v[j];
            if x == q {
                assert(v[o2[q] as int] == v[j]);
            } else {
                assert(o2[x] == out[x]);
            }
        }
    }
    assert forall|i: int, i2: int| #![trigger o2[i], o2[i2]] 0 <= i < o2.len() && 0 <= i2 < o2.len() && i != i2 implies v[o2[i] as int] != v[o2[i2] as int] by {
        assert(v[out[i] as int] != v[out[i2] as int]);
    }
}

/// A line with a new id is kept at the end.
proof fn lemma_kept_push(v: Seq<Seq<char>>, n: int, out: Seq<usize>, firsts: Seq<int>)
    requires
        kept_so_far(v, n, out, firsts),
        n < v.len(),
        n <= usize::MAX,
        forall|x: int| 0 <= x < out.len() ==> v[#[trigger] out[x] as int] != v[n],
    ensures
        kept_so_far(v, n + 1, out.push(n as usize), firsts.push(n)),
{
    reveal(kept_so_far);
    let o2 = out.push(n as usize);
    let f2 = firsts.push(n);
    assert forall|m: int| 0 <= m < n implies v[m] != v[n] by {
        if v[m] == v[n] {
            assert(is_kept(v, out, v[m]));
            let x = choose|x: int| 0 <= x < out.len() && v[#[trigger] out[x] as int] == v[m];
            assert(v[out[x] as int] != v[n]);
        }
    }
    assert forall|j: int| 0 <= j < n + 1 implies #[trigger] is_kept(v, o2, v[j]) by {
        if j == n {
            assert(v[o2[out.len() as int] as int] == v[j]);
        } else {
            assert(is_kept(v, out, v[j]));
            let x = choose|x: int| 0 <= x < out.len() && v[#[trigger] out[x] as int] == v[j];
            assert(o2[x] == out[x]);
        }
    }
    assert forall|i: int, i2: int| #![trigger o2[i], o2[i2]] 0 <= i < o2.len() && 0 <= i2 < o2.len() && i != i2 implies v[o2[i] as int] != v[o2[i2] as int] by {
        if i < out.len() && i2 < out.len() {
            assert(v[out[i] as int] != v[out[i2] as int]);
        } else if i < out.len() {
            assert(v[out[i] as int] != v[n]);
        } else {
            assert(v[out[i2] as int] != v[n]);
        }
    }
    assert forall|i: int, i2: int| 0 <= i < i2 < o2.len() implies #[trigger] f2[i] < #[trigger] f2[i2] by {
        if i2 == out.len() {
            assert(firsts[i] <= out[i]);
        }
    }
}

/// After all lines, the kept positions are the compacted log.
proof fn lemma_kept_done(v: Seq<Seq<char>>, out: Seq<usize>, firsts: Seq<int>)
    requires
        kept_so_far(v, v.len() as int, out, firsts),
    ensures
        compacted(v, out),
{
    reveal(kept_so_far);
    assert forall|i: int, i2: int, m: int|
        #![trigger v[m], out[i], out[i2]]
        0 <= i < i2 < out.len() && 0 <= m < v.len() && v[m] == v[out[i2] as int] implies seen_before(v, v[out[i] as int], m) by {
        assert(firsts[i] < firsts[i2]);
        assert(v[m] == v[firsts[i2]]);
        assert(firsts[i2] <= m);
        assert(v[firsts[i]] == v[out[i] as int]);
    }
}

/// Positions of the lines that a log keeps, given the id of each line: the
/// last line of each id, in the order in which the ids first appear.
pub fn latest_by_id(ids: &[String]) -> (r: Vec<usize>)
    ensures
        compacted(ids@.map_values(|s: String| s@), r@),
{
    let ghost v = ids@.map_values(|s: String| s@);
    let mut out: Vec<usize> = Vec::new();
    let ghost mut firsts: Seq<int> = Seq::empty();
    proof {
        lemma_kept_start(v);
    }
    let mut n: usize = 0;
    while n < ids.len()
        invariant
            v == ids@.map_values(|s: String| s@),
            n <= ids.len(),
            kept_so_far(v, n as int, out@, firsts),
        decreases ids.len() - n,
    {
        proof {
            reveal(kept_so_far);
        }
        let mut pos: Option<usize> = None;
        let mut i: usize = 0;
        while i < out.len()
            invariant
                v == ids@.map_values(|s: String| s@),
                n < ids.len(),
                i <= out.len(),
                forall|x: int| 0 <= x < out.len() ==> #[trigger] out@[x] < n,
                pos matches Some(q) ==> q < out.len() && v[out@[q as int] as int] == v[n as int],
                pos is None ==> forall|x: int| 0 <= x < i ==> v[#[trigger] out@[x] as int] != v[n as int],
            decreases out.len() - i,
        {
            if pos.is_none() && str_eq(ids[out[i]].as_str(), ids[n].as_str()) {
                pos = Some(i);
            }
            i = i + 1;
        }
        match pos {
            Some(q) => {
                proof {
                    lemma_kept_replace(v, n as int, out@, firsts, q as int);
                }
                out.set(q, n);
            },
            None => {
                proof {
                    lemma_kept_push(v, n as int, out@, firsts);
                    firsts = firsts.push(n as int);
                }
                out.push(n);
            },
        }
        n = n + 1;
    }
    proof {
        lemma_kept_done(v, out@, firsts);
    }
    out
}

/// Position `p` is among the kept ones.
pub open spec fn keeps(r: Seq<usize>, p: int) -> bool {
    exists|i: int| 0 <= i < r.len() && #[trigger] r[i] == p
}

/// Law: a line appended to a log is what loading keeps for its id: after
/// appending a line, the compacted log holds that last line.
pub proof fn lemma_appended_line_kept(ids: Seq<Seq<char>>, id: Seq<char>, r: Seq<usize>)
    requires
        compacted(ids.push(id), r),
    ensures
        keeps(r, ids.len() as int),
{
    let all = ids.push(id);
    let j = ids.len() as int;
    assert(is_kept(all, r, all[j]));
    let i = choose|i: int| 0 <= i < r.len() && all[#[trigger] r[i] as int] == all[j];
    assert(is_last(all, r[i] as int));
    assert(r[i] == j);
}

} // verus!
