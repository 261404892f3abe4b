//! Text primitives over Unicode scalar sequences.
//!
//! Every document operation of the library works on `Vec<char>` buffers whose
//! view is a `Seq<char>`. The spec functions below state what the std string
//! operations the library relies on (`trim`, `lines`, `starts_with`, `find`,
//! `join`, ...) compute, and the executable functions are proved against them.

use vstd::prelude::*;

verus! {

// ---------------------------------------------------------------------------
// conversions
// ---------------------------------------------------------------------------

/// The characters of `s`, in order.
pub fn chars_of(s: &str) -> (v: Vec<char>)
    ensures
        v@ == s@,
{
    let mut v: Vec<char> = Vec::new();
    for c in it: s.chars()
        invariant
            v@ == it.seq().take(it.index() as int),
            it.seq() == s@,
    {
        v.push(c);
    }
    v
}

/// Builds an owned string from a character buffer (std `FromIterator<&char>`).
#[verifier::external_body]
pub fn string_from(cs: &[char]) -> (s: String)
    ensures
        s@ == cs@,
{
    cs.iter().collect()
}

// ---------------------------------------------------------------------------
// whitespace and trimming
// ---------------------------------------------------------------------------

/// Unicode `White_Space` property (what `char::is_whitespace` tests).
pub open spec fn is_ws(c: char) -> bool {
    let u = c as u32;
    ||| (9 <= u && u <= 13)
    ||| u == 32
    ||| u == 0x85
    ||| u == 0xA0
    ||| u == 0x1680
    ||| (0x2000 <= u && u <= 0x200A)
    ||| u == 0x2028
    ||| u == 0x2029
    ||| u == 0x202F
    ||| u == 0x205F
    ||| u == 0x3000
}

/// `char::is_whitespace`.
pub fn is_whitespace(c: char) -> (b: bool)
    ensures
        b == is_ws(c),
{
    let u = c as u32;
    (9 <= u && u <= 13) || u == 32 || u == 0x85 || u == 0xA0 || u == 0x1680 || (0x2000 <= u
        && u <= 0x200A) || u == 0x2028 || u == 0x2029 || u == 0x202F || u == 0x205F || u
        == 0x3000
}

/// `str::trim_start`.
pub open spec fn ltrim(s: Seq<char>) -> Seq<char>
    decreases s.len(),
{
    if s.len() > 0 && is_ws(s[0]) {
        ltrim(s.drop_first())
    } else {
        s
    }
}

/// `str::trim_end`.
pub open spec fn rtrim(s: Seq<char>) -> Seq<char>
    decreases s.len(),
{
    if s.len() > 0 && is_ws(s.last()) {
        rtrim(s.drop_last())
    } else {
        s
    }
}

/// `str::trim`: whitespace removed from both ends.
pub open spec fn trim(s: Seq<char>) -> Seq<char> {
    rtrim(ltrim(s))
}

/// Bounds of the trimmed part of `s[lo..hi]`.
pub fn trim_bounds(s: &Vec<char>, lo: usize, hi: usize) -> (r: (usize, usize))
    requires
        lo <= hi <= s.len(),
    ensures
        lo <= r.0 <= r.1 <= hi,
        s@.subrange(r.0 as int, r.1 as int) == trim(s@.subrange(lo as int, hi as int)),
{
    let mut a = lo;
    while a < hi && is_whitespace(s[a])
        invariant
            lo <= a <= hi <= s.len(),
            ltrim(s@.subrange(lo as int, hi as int)) == ltrim(s@.subrange(a as int, hi as int)),
        decreases hi - a,
    {
        assert(s@.subrange(a as int, hi as int).drop_first() =~= s@.subrange(a + 1, hi as int));
        a = a + 1;
    }
    let mut b = hi;
    while b > a && is_whitespace(s[b - 1])
        invariant
            lo <= a <= b <= hi <= s.len(),
            rtrim(s@.subrange(a as int, hi as int)) == rtrim(s@.subrange(a as int, b as int)),
        decreases b - a,
    {
        assert(s@.subrange(a as int, b as int).drop_last() =~= s@.subrange(a as int, b - 1));
        b = b - 1;
    }
    proof {
        let t = s@.subrange(a as int, hi as int);
        assert(!(t.len() > 0 && is_ws(t[0])));
        assert(ltrim(t) == t);
        let u = s@.subrange(a as int, b as int);
        assert(!(u.len() > 0 && is_ws(u.last())));
    }
    (a, b)
}

// ---------------------------------------------------------------------------
// lines
// ---------------------------------------------------------------------------

/// Index of the first `'\n'` in `s`, or `-1`.
pub open spec fn nl_index(s: Seq<char>) -> int
    decreases s.len(),
{
    if s.len() == 0 {
        -1
    } else if s[0] == '\n' {
        0
    } else {
        let r = nl_index(s.drop_first());
        if r < 0 {
            -1
        } else {
            r + 1
        }
    }
}

/// A line terminated by `'\n'` also loses one `'\r'` before it.
pub open spec fn strip_cr(l: Seq<char>) -> Seq<char> {
    if l.len() > 0 && l.last() == '\r' {
        l.drop_last()
    } else {
        l
    }
}

/// `str::lines`: split at `'\n'` (a `"\r\n"` ending counts as one), with no
/// empty final line after a trailing newline.
pub open spec fn lines(s: Seq<char>) -> Seq<Seq<char>>
    decreases s.len(),
{
    if s.len() == 0 {
        Seq::empty()
    } else {
        let i = nl_index(s);
        proof {
            lemma_nl_index_props(s);
        }
        if i < 0 {
            seq![s]
        } else {
            seq![strip_cr(s.take(i))] + lines(s.skip(i + 1))
        }
    }
}

pub proof fn lemma_nl_index_props(s: Seq<char>)
    ensures
        -1 <= nl_index(s) < s.len(),
        nl_index(s) >= 0 ==> s[nl_index(s)] == '\n',
        forall|j: int| 0 <= j < s.len() && (nl_index(s) < 0 || j < nl_index(s)) ==> s[j] != '\n',
    decreases s.len(),
{
    if s.len() > 0 {
        lemma_nl_index_props(s.drop_first());
        assert forall|j: int| 0 < j < s.len() implies s[j] == s.drop_first()[j - 1] by {}
    }
}

pub proof fn lemma_nl_index_found(s: Seq<char>, k: int)
    requires
        0 <= k < s.len(),
        s[k] == '\n',
        forall|j: int| 0 <= j < k ==> s[j] != '\n',
    ensures
        nl_index(s) == k,
    decreases k,
{
    if k > 0 {
        lemma_nl_index_found(s.drop_first(), k - 1);
    }
}

pub proof fn lemma_nl_index_none(s: Seq<char>)
    requires
        forall|j: int| 0 <= j < s.len() ==> s[j] != '\n',
    ensures
        nl_index(s) == -1,
    decreases s.len(),
{
    if s.len() > 0 {
        lemma_nl_index_none(s.drop_first());
    }
}

/// The views of a list of character buffers.
pub open spec fn views(v: Seq<Vec<char>>) -> Seq<Seq<char>> {
    Seq::new(v.len(), |i: int| v[i]@)
}

/// The texts that a list of ranges cuts out of `s`.
pub open spec fn range_texts(s: Seq<char>, r: Seq<(usize, usize)>) -> Seq<Seq<char>> {
    Seq::new(r.len(), |i: int| s.subrange(r[i].0 as int, r[i].1 as int))
}

pub open spec fn ranges_in(s: Seq<char>, r: Seq<(usize, usize)>) -> bool {
    forall|i: int| 0 <= i < r.len() ==> (#[trigger] r[i]).0 <= r[i].1 <= s.len()
}

/// Ranges of the lines of `s` (see [`lines`]).
pub fn line_ranges(s: &Vec<char>) -> (r: Vec<(usize, usize)>)
    ensures
        ranges_in(s@, r@),
        range_texts(s@, r@) == lines(s@),
{
    let n = s.len();
    let mut r: Vec<(usize, usize)> = Vec::new();
    let mut start: usize = 0;
    let mut j: usize = 0;
    assert(s@.subrange(0, n as int) =~= s@);
    while j < n
        invariant
            n == s.len(),
            start <= j <= n,
            ranges_in(s@, r@),
            forall|k: int| start <= k < j ==> s@[k] != '\n',
            range_texts(s@, r@) + lines(s@.subrange(start as int, n as int)) == lines(s@),
        decreases n - j,
    {
        if s[j] == '\n' {
            let mut end = j;
            if end > start && s[end - 1] == '\r' {
                end = end - 1;
            }
            proof {
                let t = s@.subrange(start as int, n as int);
                let k = j - start;
                lemma_nl_index_found(t, k);
                assert(t.take(k) =~= s@.subrange(start as int, j as int));
                assert(t.skip(k + 1) =~= s@.subrange(j + 1, n as int));
                assert(strip_cr(t.take(k)) =~= s@.subrange(start as int, end as int));
                assert(lines(t) == seq![s@.subrange(start as int, end as int)] + lines(
                    s@.subrange(j + 1, n as int),
                ));
            }
            let ghost old_r = r@;
            r.push((start, end));
            proof {
                assert(range_texts(s@, r@) =~= range_texts(s@, old_r) + seq![
                    s@.subrange(start as int, end as int),
                ]);
                assert(range_texts(s@, r@) + lines(s@.subrange(j + 1, n as int)) =~= range_texts(
                    s@,
                    old_r,
                ) + (seq![s@.subrange(start as int, end as int)] + lines(
                    s@.subrange(j + 1, n as int),
                )));
            }
            start = j + 1;
        }
        j = j + 1;
    }
    if start < n {
        proof {
            let t = s@.subrange(start as int, n as int);
            lemma_nl_index_none(t);
            assert(lines(t) == seq![t]);
        }
        let ghost old_r = r@;
        r.push((start, n));
        proof {
            assert(range_texts(s@, r@) =~= range_texts(s@, old_r) + seq![
                s@.subrange(start as int, n as int),
            ]);
        }
    } else {
        proof {
            assert(s@.subrange(start as int, n as int).len() == 0);
            assert(range_texts(s@, r@) + lines(s@.subrange(start as int, n as int)) =~= range_texts(
                s@,
                r@,
            ));
        }
    }
    r
}

// ---------------------------------------------------------------------------
// prefixes, search, containment
// ---------------------------------------------------------------------------

/// `str::starts_with`.
pub open spec fn starts_with(s: Seq<char>, p: Seq<char>) -> bool {
    p.len() <= s.len() && s.take(p.len() as int) == p
}

/// `str::ends_with`.
pub open spec fn ends_with(s: Seq<char>, p: Seq<char>) -> bool {
    p.len() <= s.len() && s.skip(s.len() - p.len()) == p
}

/// `p` occurs in `s` at position `i`.
pub open spec fn occurs_at(s: Seq<char>, p: Seq<char>, i: int) -> bool {
    0 <= i && i + p.len() <= s.len() && s.subrange(i, i + p.len()) == p
}

/// `str::contains`.
pub open spec fn contains(s: Seq<char>, p: Seq<char>) -> bool {
    exists|i: int| #[trigger] occurs_at(s, p, i)
}

/// First position of `p` in `s` (`str::find`), if any.
#[verifier::opaque]
pub open spec fn find(s: Seq<char>, p: Seq<char>) -> Option<int> {
    if contains(s, p) {
        Some(choose|i: int| occurs_at(s, p, i) && forall|j: int| 0 <= j < i ==> !occurs_at(s, p, j))
    } else {
        None
    }
}

/// `s[lo..hi]` starts with `p`.
pub fn has_prefix_at(s: &Vec<char>, lo: usize, hi: usize, p: &[char]) -> (b: bool)
    requires
        lo <= hi <= s.len(),
    ensures
        b == starts_with(s@.subrange(lo as int, hi as int), p@),
{
    if p.len() > hi - lo {
        return false;
    }
    let mut k: usize = 0;
    while k < p.len()
        invariant
            lo <= hi <= s.len(),
            p.len() <= hi - lo,
            k <= p.len(),
            forall|m: int| 0 <= m < k ==> s@[lo + m] == p@[m],
        decreases p.len() - k,
    {
        if s[lo + k] != p[k] {
            proof {
                let t = s@.subrange(lo as int, hi as int);
                assert(t.take(p@.len() as int)[k as int] != p@[k as int]);
            }
            return false;
        }
        k = k + 1;
    }
    proof {
        let t = s@.subrange(lo as int, hi as int);
        assert(t.take(p@.len() as int) =~= p@);
    }
    true
}

/// `s[lo..hi]` ends with `p`.
pub fn has_suffix_at(s: &Vec<char>, lo: usize, hi: usize, p: &[char]) -> (b: bool)
    requires
        lo <= hi <= s.len(),
    ensures
        b == ends_with(s@.subrange(lo as int, hi as int), p@),
{
    if p.len() > hi - lo {
        return false;
    }
    let start = hi - p.len();
    let b = has_prefix_at(s, start, hi, p);
    proof {
        let t = s@.subrange(lo as int, hi as int);
        let u = s@.subrange(start as int, hi as int);
        assert(t.skip(t.len() - p@.len()) =~= u);
        assert(u.take(p@.len() as int) =~= u);
    }
    b
}

/// Position of the first occurrence of `p` in `s[lo..hi]`, relative to `lo`.
pub fn find_in(s: &Vec<char>, lo: usize, hi: usize, p: &[char]) -> (r: Option<usize>)
    requires
        lo <= hi <= s.len(),
    ensures
        r matches Some(i) ==> find(s@.subrange(lo as int, hi as int), p@) == Some(i as int),
        r is None ==> find(s@.subrange(lo as int, hi as int), p@) is None,
        r matches Some(i) ==> occurs_at(s@.subrange(lo as int, hi as int), p@, i as int),
        r is Some <==> contains(s@.subrange(lo as int, hi as int), p@),
{
    reveal(find);
    let ghost t = s@.subrange(lo as int, hi as int);
    if p.len() > hi - lo {
        proof {
            assert forall|i: int| !#[trigger] occurs_at(t, p@, i) by {}
            assert(find(t, p@).is_none());
        }
        return None;
    }
    let mut i: usize = 0;
    while i <= hi - lo && p.len() <= (hi - lo) - i
        invariant
            lo <= hi <= s.len(),
            p.len() <= hi - lo,
            t == s@.subrange(lo as int, hi as int),
            i <= hi - lo + 1,
            i + p.len() <= hi - lo + 1,
            forall|j: int| 0 <= j < i ==> !occurs_at(t, p@, j),
        decreases hi - lo + 1 - i,
    {
        if has_prefix_at(s, lo + i, hi, p) {
            proof {
                reveal(find);
                let u = s@.subrange(lo + i, hi as int);
                assert(u.take(p@.len() as int) =~= t.subrange(i as int, i + p@.len()));
                assert(occurs_at(t, p@, i as int));
                assert(contains(t, p@));
                let c = choose|k: int|
                    occurs_at(t, p@, k) && forall|j: int| 0 <= j < k ==> !occurs_at(t, p@, j);
                assert(occurs_at(t, p@, i as int) && forall|j: int|
                    0 <= j < i ==> !occurs_at(t, p@, j));
                if c < i {
                } else if c > i {
                }
                assert(c == i);
                assert(find(t, p@) == Some(i as int));
            }
            return Some(i);
        }
        proof {
            let u = s@.subrange(lo + i, hi as int);
            if occurs_at(t, p@, i as int) {
                assert(u.take(p@.len() as int) =~= t.subrange(i as int, i + p@.len()));
            }
            if p@.len() == 0 {
                assert(u.take(0) =~= p@);
            }
        }
        i = i + 1;
    }
    proof {
        reveal(find);
        assert forall|k: int| !#[trigger] occurs_at(t, p@, k) by {
            if 0 <= k && k + p@.len() <= t.len() {
                assert(k < i);
            }
        }
        assert(find(t, p@).is_none());
    }
    None
}

/// Whether `p` occurs in `s[lo..hi]`.
pub fn contains_in(s: &Vec<char>, lo: usize, hi: usize, p: &[char]) -> (b: bool)
    requires
        lo <= hi <= s.len(),
    ensures
        b == contains(s@.subrange(lo as int, hi as int), p@),
{
    let r = find_in(s, lo, hi, p);
    r.is_some()
}

/// Whether `p` occurs in the string `s`.
pub fn str_contains(s: &Vec<char>, p: &str) -> (b: bool)
    ensures
        b == contains(s@, p@),
{
    let pv = chars_of(p);
    let b = contains_in(s, 0, s.len(), pv.as_slice());
    assert(s@.subrange(0, s@.len() as int) =~= s@);
    b
}

// ---------------------------------------------------------------------------
// case
// ---------------------------------------------------------------------------

/// `char::to_ascii_lowercase`.
pub open spec fn ascii_lower(c: char) -> char {
    if 'A' <= c && c <= 'Z' {
        ((c as u32) + 32) as char
    } else {
        c
    }
}

/// `str::eq_ignore_ascii_case`.
pub open spec fn eq_ignore_ascii_case(a: Seq<char>, b: Seq<char>) -> bool {
    a.len() == b.len() && forall|i: int| 0 <= i < a.len() ==> ascii_lower(#[trigger] a[i])
        == ascii_lower(b[i])
}

pub fn to_ascii_lower(c: char) -> (r: char)
    ensures
        r == ascii_lower(c),
{
    if 'A' <= c && c <= 'Z' {
        ((c as u8) + 32) as char
    } else {
        c
    }
}

/// `s[lo..hi]` equals `p` ignoring ASCII case.
pub fn eq_ignore_case_at(s: &Vec<char>, lo: usize, hi: usize, p: &[char]) -> (b: bool)
    requires
        lo <= hi <= s.len(),
    ensures
        b == eq_ignore_ascii_case(s@.subrange(lo as int, hi as int), p@),
{
    if hi - lo != p.len() {
        return false;
    }
    let mut k: usize = 0;
    while k < p.len()
        invariant
            lo <= hi <= s.len(),
            hi - lo == p.len(),
            k <= p.len(),
            forall|m: int| 0 <= m < k ==> ascii_lower(s@[lo + m]) == ascii_lower(p@[m]),
        decreases p.len() - k,
    {
        if to_ascii_lower(s[lo + k]) != to_ascii_lower(p[k]) {
            proof {
                let t = s@.subrange(lo as int, hi as int);
                assert(ascii_lower(t[k as int]) != ascii_lower(p@[k as int]));
            }
            return false;
        }
        k = k + 1;
    }
    proof {
        let t = s@.subrange(lo as int, hi as int);
        assert forall|i: int| 0 <= i < t.len() implies ascii_lower(#[trigger] t[i]) == ascii_lower(
            p@[i],
        ) by {
            assert(t[i] == s@[lo + i]);
        }
    }
    true
}

/// What `str::to_lowercase` returns for a string (full Unicode case mapping).
pub uninterp spec fn unicode_lower(s: Seq<char>) -> Seq<char>;

/// `str::to_lowercase`.
#[verifier::external_body]
pub fn to_lowercase(s: &str) -> (r: String)
    ensures
        r@ == unicode_lower(s@),
{
    s.to_lowercase()
}

/// `to_lowercase` of a character buffer, as a buffer.
pub fn lowercase_chars(s: &[char]) -> (r: Vec<char>)
    ensures
        r@ == unicode_lower(s@),
{
    let st = string_from(s);
    let low = to_lowercase(st.as_str());
    chars_of(low.as_str())
}

// ---------------------------------------------------------------------------
// building
// ---------------------------------------------------------------------------

/// `parts` joined with `sep` between neighbours (`[T]::join`).
pub open spec fn join(parts: Seq<Seq<char>>, sep: Seq<char>) -> Seq<char>
    decreases parts.len(),
{
    if parts.len() == 0 {
        Seq::empty()
    } else if parts.len() == 1 {
        parts[0]
    } else {
        join(parts.drop_last(), sep) + sep + parts.last()
    }
}

/// Appends `s[lo..hi]`.
pub fn push_range(out: &mut Vec<char>, s: &Vec<char>, lo: usize, hi: usize)
    requires
        lo <= hi <= s.len(),
    ensures
        final(out)@ == old(out)@ + s@.subrange(lo as int, hi as int),
{
    let mut k = lo;
    while k < hi
        invariant
            lo <= k <= hi <= s.len(),
            out@ == old(out)@ + s@.subrange(lo as int, k as int),
        decreases hi - k,
    {
        out.push(s[k]);
        proof {
            assert(s@.subrange(lo as int, k + 1) =~= s@.subrange(lo as int, k as int).push(
                s@[k as int],
            ));
        }
        k = k + 1;
    }
}

/// `s[lo..hi]` as an owned string.
pub fn string_of_range(s: &Vec<char>, lo: usize, hi: usize) -> (r: String)
    requires
        lo <= hi <= s.len(),
    ensures
        r@ == s@.subrange(lo as int, hi as int),
{
    let mut v: Vec<char> = Vec::new();
    push_range(&mut v, s, lo, hi);
    assert(v@ =~= s@.subrange(lo as int, hi as int));
    string_from(v.as_slice())
}

/// Appends all of `s`.
pub fn push_slice(out: &mut Vec<char>, s: &[char])
    ensures
        final(out)@ == old(out)@ + s@,
{
    let mut k: usize = 0;
    while k < s.len()
        invariant
            k <= s.len(),
            out@ == old(out)@ + s@.take(k as int),
        decreases s.len() - k,
    {
        out.push(s[k]);
        proof {
            assert(s@.take(k + 1) =~= s@.take(k as int).push(s@[k as int]));
        }
        k = k + 1;
    }
    proof {
        assert(s@.take(s@.len() as int) =~= s@);
    }
}

/// Appends the characters of `s`.
pub fn push_str(out: &mut Vec<char>, s: &str)
    ensures
        final(out)@ == old(out)@ + s@,
{
    let v = chars_of(s);
    push_slice(out, v.as_slice());
}

/// The texts of `r[from..to]` joined with `sep`.
pub fn join_ranges(s: &Vec<char>, r: &Vec<(usize, usize)>, from: usize, to: usize, sep: &[char]) -> (out:
    Vec<char>)
    requires
        ranges_in(s@, r@),
        from <= to <= r.len(),
    ensures
        out@ == join(range_texts(s@, r@).subrange(from as int, to as int), sep@),
{
    let ghost texts = range_texts(s@, r@);
    let mut out: Vec<char> = Vec::new();
    let mut k = from;
    proof {
        assert(texts.subrange(from as int, from as int).len() == 0);
    }
    while k < to
        invariant
            from <= k <= to <= r.len(),
            ranges_in(s@, r@),
            texts == range_texts(s@, r@),
            out@ == join(texts.subrange(from as int, k as int), sep@),
        decreases to - k,
    {
        let (a, b) = r[k];
        proof {
            assert(r@[k as int].0 <= r@[k as int].1 <= s@.len());
        }
        if k > from {
            push_slice(&mut out, sep);
        }
        push_range(&mut out, s, a, b);
        proof {
            let part = texts.subrange(from as int, k + 1);
            assert(part.drop_last() =~= texts.subrange(from as int, k as int));
            assert(part.last() == s@.subrange(a as int, b as int));
            if k == from {
                assert(part.len() == 1);
                assert(out@ =~= part[0]);
            }
        }
        k = k + 1;
    }
    out
}

/// Whether two buffers hold the same characters.
pub fn same_chars(a: &[char], b: &[char]) -> (r: bool)
    ensures
        r == (a@ == b@),
{
    if a.len() != b.len() {
        return false;
    }
    let mut k: usize = 0;
    while k < a.len()
        invariant
            a.len() == b.len(),
            k <= a.len(),
            forall|m: int| 0 <= m < k ==> a@[m] == b@[m],
        decreases a.len() - k,
    {
        if a[k] != b[k] {
            return false;
        }
        k = k + 1;
    }
    assert(a@ =~= b@);
    true
}

pub proof fn lemma_join_push(parts: Seq<Seq<char>>, x: Seq<char>, sep: Seq<char>)
    ensures
        join(parts.push(x), sep) == (if parts.len() == 0 {
            x
        } else {
            join(parts, sep) + sep + x
        }),
{
    assert(parts.push(x).drop_last() =~= parts);
}

/// Appends line `x` to a buffer holding `join(parts, sep)`.
pub(crate) fn push_joined(buf: &mut Vec<char>, nonempty: bool, x: &[char], sep: &[char], Ghost(parts): Ghost<
    Seq<Seq<char>>,
>)
    requires
        old(buf)@ == join(parts, sep@),
        nonempty == (parts.len() > 0),
    ensures
        final(buf)@ == join(parts.push(x@), sep@),
{
    proof {
        lemma_join_push(parts, x@, sep@);
    }
    if nonempty {
        push_slice(buf, sep);
    }
    push_slice(buf, x);
}

/// `str::trim_start_matches(c)` for a single character.
pub open spec fn strip_leading(s: Seq<char>, c: char) -> Seq<char>
    decreases s.len(),
{
    if s.len() > 0 && s[0] == c {
        strip_leading(s.drop_first(), c)
    } else {
        s
    }
}

/// Number of leading `c` in `s`.
pub fn count_leading(s: &Vec<char>, c: char) -> (n: usize)
    ensures
        n <= s.len(),
        s@.skip(n as int) == strip_leading(s@, c),
{
    let mut n: usize = 0;
    assert(s@.skip(0) =~= s@);
    while n < s.len() && s[n] == c
        invariant
            n <= s.len(),
            strip_leading(s@, c) == strip_leading(s@.skip(n as int), c),
        decreases s.len() - n,
    {
        assert(s@.skip(n as int).drop_first() =~= s@.skip(n + 1));
        n = n + 1;
    }
    n
}


/// `str::trim_end_matches(c)` for a single character.
pub open spec fn strip_trailing(s: Seq<char>, c: char) -> Seq<char>
    decreases s.len(),
{
    if s.len() > 0 && s.last() == c {
        strip_trailing(s.drop_last(), c)
    } else {
        s
    }
}

/// `str::trim_matches(c)` for a single character.
pub open spec fn strip_both(s: Seq<char>, c: char) -> Seq<char> {
    strip_trailing(strip_leading(s, c), c)
}

/// Bounds of `strip_both(s[lo..hi], c)`.
pub fn strip_bounds(s: &Vec<char>, lo: usize, hi: usize, c: char) -> (r: (usize, usize))
    requires
        lo <= hi <= s.len(),
    ensures
        lo <= r.0 <= r.1 <= hi,
        s@.subrange(r.0 as int, r.1 as int) == strip_both(s@.subrange(lo as int, hi as int), c),
{
    let mut a = lo;
    while a < hi && s[a] == c
        invariant
            lo <= a <= hi <= s.len(),
            strip_leading(s@.subrange(lo as int, hi as int), c) == strip_leading(
                s@.subrange(a as int, hi as int),
                c,
            ),
        decreases hi - a,
    {
        assert(s@.subrange(a as int, hi as int).drop_first() =~= s@.subrange(a + 1, hi as int));
        a = a + 1;
    }
    let mut b = hi;
    while b > a && s[b - 1] == c
        invariant
            lo <= a <= b <= hi <= s.len(),
            strip_trailing(s@.subrange(a as int, hi as int), c) == strip_trailing(
                s@.subrange(a as int, b as int),
                c,
            ),
        decreases b - a,
    {
        assert(s@.subrange(a as int, b as int).drop_last() =~= s@.subrange(a as int, b - 1));
        b = b - 1;
    }
    proof {
        let t = s@.subrange(a as int, hi as int);
        assert(!(t.len() > 0 && t[0] == c));
        assert(strip_leading(t, c) == t);
    }
    (a, b)
}

/// Whether `s[lo..hi]` is exactly `lit`.
pub fn range_is(s: &Vec<char>, lo: usize, hi: usize, lit: &str) -> (b: bool)
    requires
        lo <= hi <= s.len(),
    ensures
        b == (s@.subrange(lo as int, hi as int) == lit@),
{
    let p = chars_of(lit);
    if hi - lo != p.len() {
        return false;
    }
    let b = has_prefix_at(s, lo, hi, p.as_slice());
    proof {
        let t = s@.subrange(lo as int, hi as int);
        assert(t.take(p@.len() as int) =~= t);
    }
    b
}

// ---------------------------------------------------------------------------
// splitting at a character
// ---------------------------------------------------------------------------

/// Index of the first `c` in `s`, or `-1`.
pub open spec fn char_index(s: Seq<char>, c: char) -> int
    decreases s.len(),
{
    if s.len() == 0 {
        -1
    } else if s[0] == c {
        0
    } else {
        let r = char_index(s.drop_first(), c);
        if r < 0 {
            -1
        } else {
            r + 1
        }
    }
}

/// `str::split(c)`: the pieces between occurrences of `c`, empty ones
/// included (one more piece than there are occurrences).
pub open spec fn split_on(s: Seq<char>, c: char) -> Seq<Seq<char>>
    decreases s.len(),
{
    let i = char_index(s, c);
    proof {
        lemma_char_index_props(s, c);
    }
    if i < 0 {
        seq![s]
    } else {
        seq![s.take(i)] + split_on(s.skip(i + 1), c)
    }
}

pub proof fn lemma_char_index_props(s: Seq<char>, c: char)
    ensures
        -1 <= char_index(s, c) < s.len(),
        char_index(s, c) >= 0 ==> s[char_index(s, c)] == c,
    decreases s.len(),
{
    if s.len() > 0 {
        lemma_char_index_props(s.drop_first(), c);
    }
}

pub proof fn lemma_char_index_found(s: Seq<char>, c: char, k: int)
    requires
        0 <= k < s.len(),
        s[k] == c,
        forall|j: int| 0 <= j < k ==> s[j] != c,
    ensures
        char_index(s, c) == k,
    decreases k,
{
    if k > 0 {
        lemma_char_index_found(s.drop_first(), c, k - 1);
    }
}

pub proof fn lemma_char_index_none(s: Seq<char>, c: char)
    requires
        forall|j: int| 0 <= j < s.len() ==> s[j] != c,
    ensures
        char_index(s, c) == -1,
    decreases s.len(),
{
    if s.len() > 0 {
        lemma_char_index_none(s.drop_first(), c);
    }
}

/// Ranges of the pieces of `s[lo..hi]` split at `c` (see [`split_on`]).
pub fn split_ranges(s: &Vec<char>, lo: usize, hi: usize, c: char) -> (r: Vec<(usize, usize)>)
    requires
        lo <= hi <= s.len(),
    ensures
        ranges_in(s@, r@),
        range_texts(s@, r@) == split_on(s@.subrange(lo as int, hi as int), c),
{
    let mut r: Vec<(usize, usize)> = Vec::new();
    let mut start: usize = lo;
    let mut j: usize = lo;
    while j < hi
        invariant
            lo <= start <= j <= hi <= s.len(),
            ranges_in(s@, r@),
            forall|k: int| start <= k < j ==> s@[k] != c,
            range_texts(s@, r@) + split_on(s@.subrange(start as int, hi as int), c) == split_on(
                s@.subrange(lo as int, hi as int),
                c,
            ),
        decreases hi - j,
    {
        if s[j] == c {
            proof {
                let t = s@.subrange(start as int, hi as int);
                let k = j - start;
                lemma_char_index_found(t, c, k);
                assert(t.take(k) =~= s@.subrange(start as int, j as int));
                assert(t.skip(k + 1) =~= s@.subrange(j + 1, hi as int));
                assert(split_on(t, c) == seq![s@.subrange(start as int, j as int)] + split_on(
                    s@.subrange(j + 1, hi as int),
                    c,
                ));
            }
            let ghost old_r = r@;
            r.push((start, j));
            proof {
                assert(range_texts(s@, r@) =~= range_texts(s@, old_r) + seq![
                    s@.subrange(start as int, j as int),
                ]);
                assert(range_texts(s@, r@) + split_on(s@.subrange(j + 1, hi as int), c)
                    =~= range_texts(s@, old_r) + (seq![s@.subrange(start as int, j as int)]
                    + split_on(s@.subrange(j + 1, hi as int), c)));
            }
            start = j + 1;
        }
        j = j + 1;
    }
    proof {
        let t = s@.subrange(start as int, hi as int);
        lemma_char_index_none(t, c);
        assert(split_on(t, c) == seq![t]);
    }
    let ghost old_r = r@;
    r.push((start, hi));
    proof {
        assert(range_texts(s@, r@) =~= range_texts(s@, old_r) + seq![
            s@.subrange(start as int, hi as int),
        ]);
    }
    r
}


// ---------------------------------------------------------------------------
// decimal numbers
// ---------------------------------------------------------------------------

/// The ASCII digit for `d` (`0 <= d < 10`).
pub open spec fn digit_char(d: int) -> char {
    (d + 48) as char
}

/// Decimal digits of `n`, most significant first, without leading zeros.
pub open spec fn digits(n: nat) -> Seq<char>
    decreases n,
{
    if n < 10 {
        seq![digit_char(n as int)]
    } else {
        digits(n / 10).push(digit_char((n % 10) as int))
    }
}

/// `i64::to_string` / `u64::to_string`: decimal, with `-` for negatives.
pub open spec fn decimal(i: int) -> Seq<char> {
    if i < 0 {
        seq!['-'] + digits((-i) as nat)
    } else {
        digits(i as nat)
    }
}

/// Appends the decimal digits of `n`.
pub fn push_digits(out: &mut Vec<char>, n: u64)
    ensures
        final(out)@ == old(out)@ + digits(n as nat),
    decreases n,
{
    if n >= 10 {
        push_digits(out, n / 10);
    }
    let d = (n % 10) as u8;
    let c = (d + 48) as char;
    assert(c == digit_char((n % 10) as int));
    out.push(c);
    proof {
        if n >= 10 {
            assert(digits(n as nat) == digits((n / 10) as nat).push(digit_char((n % 10) as int)));
        } else {
            assert(digits(n as nat) == seq![digit_char(n as int)]);
        }
    }
}

/// Appends `decimal(n)`.
pub fn push_i64(out: &mut Vec<char>, n: i64)
    ensures
        final(out)@ == old(out)@ + decimal(n as int),
{
    if n < 0 {
        out.push('-');
        let m: u64 = ((-(n + 1)) as u64) + 1;
        assert(m == -n);
        push_digits(out, m);
    } else {
        push_digits(out, n as u64);
    }
}

/// Appends `decimal(n)`.
pub fn push_u64(out: &mut Vec<char>, n: u64)
    ensures
        final(out)@ == old(out)@ + decimal(n as int),
{
    push_digits(out, n);
}


/// `n` in decimal, zero-padded to at least `w` characters after its sign
/// (`format!("{n:0w}")`).
pub open spec fn padded(n: int, w: nat) -> Seq<char> {
    let ds = digits((if n < 0 { -n } else { n }) as nat);
    let sign: Seq<char> = if n < 0 { seq!['-'] } else { Seq::empty() };
    let width = w - sign.len() - ds.len();
    sign + Seq::new(if width > 0 { width as nat } else { 0 }, |i: int| '0') + ds
}

/// Appends `padded(n, w)`.
pub fn push_padded(out: &mut Vec<char>, n: i64, w: usize)
    ensures
        final(out)@ == old(out)@ + padded(n as int, w as nat),
{
    let mut ds: Vec<char> = Vec::new();
    let neg = n < 0;
    if neg {
        let m: u64 = ((-(n + 1)) as u64) + 1;
        push_digits(&mut ds, m);
    } else {
        push_digits(&mut ds, n as u64);
    }
    let ghost start = out@;
    if neg {
        out.push('-');
    }
    let sl: usize = if neg { 1 } else { 0 };
    let need: usize = if ds.len() < w && w - ds.len() > sl { w - ds.len() - sl } else { 0 };
    let mut k: usize = 0;
    let ghost pre = out@;
    while k < need
        invariant
            k <= need,
            out@ == pre + Seq::new(k as nat, |i: int| '0'),
        decreases need - k,
    {
        out.push('0');
        proof {
            assert(out@ =~= pre + Seq::new((k + 1) as nat, |i: int| '0'));
        }
        k = k + 1;
    }
    let ghost mid = out@;
    push_slice(out, ds.as_slice());
    proof {
        let width = w - sl - ds@.len();
        assert(k == (if width > 0 { width as nat } else { 0 }));
        assert(out@ =~= old(out)@ + padded(n as int, w as nat));
    }
}


/// Whether two strings are equal.
pub fn str_eq(a: &str, b: &str) -> (r: bool)
    ensures
        r == (a@ == b@),
{
    let x = chars_of(a);
    let y = chars_of(b);
    same_chars(x.as_slice(), y.as_slice())
}


// ---------------------------------------------------------------------------
// whitespace-separated words
// ---------------------------------------------------------------------------

/// Length of the leading run of non-whitespace characters of `s`.
pub open spec fn word_len(s: Seq<char>) -> int
    decreases s.len(),
{
    if s.len() == 0 || is_ws(s[0]) {
        0
    } else {
        1 + word_len(s.drop_first())
    }
}

pub proof fn lemma_word_len(s: Seq<char>)
    ensures
        0 <= word_len(s) <= s.len(),
        s.len() > 0 && !is_ws(s[0]) ==> word_len(s) >= 1,
        forall|j: int| 0 <= j < word_len(s) ==> !is_ws(#[trigger] s[j]),
        word_len(s) < s.len() ==> is_ws(s[word_len(s)]),
    decreases s.len(),
{
    if s.len() > 0 && !is_ws(s[0]) {
        lemma_word_len(s.drop_first());
        assert forall|j: int| 0 <= j < word_len(s) implies !is_ws(#[trigger] s[j]) by {
            if j > 0 {
                assert(s[j] == s.drop_first()[j - 1]);
            }
        }
    }
}

pub proof fn lemma_ltrim_len(s: Seq<char>)
    ensures
        ltrim(s).len() <= s.len(),
        ltrim(s).len() > 0 ==> !is_ws(ltrim(s)[0]),
    decreases s.len(),
{
    if s.len() > 0 && is_ws(s[0]) {
        lemma_ltrim_len(s.drop_first());
    }
}

/// `str::split_whitespace`: the maximal runs of non-whitespace characters.
pub open spec fn ws_words(s: Seq<char>) -> Seq<Seq<char>>
    decreases s.len(),
{
    let t = ltrim(s);
    proof {
        lemma_ltrim_len(s);
        lemma_word_len(t);
    }
    if t.len() == 0 {
        Seq::empty()
    } else {
        let e = word_len(t);
        seq![t.take(e)] + ws_words(t.skip(e))
    }
}

/// Ranges of the words of `s[lo..hi]` (see [`ws_words`]).
pub fn word_ranges(s: &Vec<char>, lo: usize, hi: usize) -> (r: Vec<(usize, usize)>)
    requires
        lo <= hi <= s.len(),
    ensures
        ranges_in(s@, r@),
        range_texts(s@, r@) == ws_words(s@.subrange(lo as int, hi as int)),
{
    let mut r: Vec<(usize, usize)> = Vec::new();
    let mut p = lo;
    while p < hi
        invariant
            lo <= p <= hi <= s.len(),
            ranges_in(s@, r@),
            range_texts(s@, r@) + ws_words(s@.subrange(p as int, hi as int)) == ws_words(
                s@.subrange(lo as int, hi as int),
            ),
        decreases hi - p,
    {
        let mut q = p;
        while q < hi && is_whitespace(s[q])
            invariant
                p <= q <= hi <= s.len(),
                ltrim(s@.subrange(p as int, hi as int)) == ltrim(s@.subrange(q as int, hi as int)),
            decreases hi - q,
        {
            assert(s@.subrange(q as int, hi as int).drop_first() =~= s@.subrange(q + 1, hi as int));
            q = q + 1;
        }
        let ghost t = s@.subrange(q as int, hi as int);
        proof {
            assert(!(t.len() > 0 && is_ws(t[0])));
            assert(ltrim(t) == t);
        }
        if q == hi {
            proof {
                assert(ws_words(s@.subrange(p as int, hi as int)) =~= Seq::<Seq<char>>::empty());
                assert(range_texts(s@, r@) + Seq::<Seq<char>>::empty() =~= range_texts(s@, r@));
                assert(s@.subrange(hi as int, hi as int).len() == 0);
                assert(ws_words(s@.subrange(hi as int, hi as int)) =~= Seq::<Seq<char>>::empty());
            }
            p = hi;
        } else {
            let mut e = q;
            while e < hi && !is_whitespace(s[e])
                invariant
                    q <= e <= hi <= s.len(),
                    forall|j: int| q <= j < e ==> !is_ws(s@[j]),
                decreases hi - e,
            {
                e = e + 1;
            }
            proof {
                lemma_word_len(t);
                let w = word_len(t);
                if w < e - q {
                    assert(is_ws(t[w]));
                    assert(t[w] == s@[q + w]);
                }
                if w > e - q {
                    assert(!is_ws(t[e - q]));
                    assert(t[e - q] == s@[e as int]);
                }
                assert(w == e - q);
                assert(t.take(w) =~= s@.subrange(q as int, e as int));
                assert(t.skip(w) =~= s@.subrange(e as int, hi as int));
                assert(ws_words(s@.subrange(p as int, hi as int)) == seq![s@.subrange(q as int, e as int)]
                    + ws_words(s@.subrange(e as int, hi as int)));
            }
            let ghost old_r = r@;
            r.push((q, e));
            proof {
                assert(range_texts(s@, r@) =~= range_texts(s@, old_r) + seq![s@.subrange(q as int, e as int)]);
                assert(range_texts(s@, r@) + ws_words(s@.subrange(e as int, hi as int)) =~= range_texts(s@, old_r)
                    + (seq![s@.subrange(q as int, e as int)] + ws_words(s@.subrange(e as int, hi as int))));
            }
            p = e;
        }
    }
    proof {
        assert(s@.subrange(p as int, hi as int).len() == 0);
        assert(ltrim(s@.subrange(p as int, hi as int)).len() == 0);
        assert(ws_words(s@.subrange(p as int, hi as int)) =~= Seq::<Seq<char>>::empty());
        assert(range_texts(s@, r@) + Seq::<Seq<char>>::empty() =~= range_texts(s@, r@));
    }
    r
}

// ---------------------------------------------------------------------------
// unsigned integers
// ---------------------------------------------------------------------------

pub open spec fn is_digit_char(c: char) -> bool {
    '0' <= c && c <= '9'
}

/// Value of a run of decimal digits.
pub open spec fn digits_value(s: Seq<char>) -> int
    decreases s.len(),
{
    if s.len() == 0 {
        0
    } else {
        digits_value(s.drop_last()) * 10 + (s.last() as int - 48)
    }
}

proof fn lemma_digits_mono(s: Seq<char>, k: int)
    requires
        0 <= k <= s.len(),
        forall|i: int| 0 <= i < s.len() ==> is_digit_char(#[trigger] s[i]),
    ensures
        0 <= digits_value(s.take(k)) <= digits_value(s),
    decreases s.len(),
{
    if k < s.len() {
        lemma_digits_mono(s.drop_last(), k);
        assert(s.drop_last().take(k) =~= s.take(k));
        assert(is_digit_char(s.last()));
    } else {
        assert(s.take(k) =~= s);
        if s.len() > 0 {
            lemma_digits_mono(s.drop_last(), s.len() - 1);
            assert(s.drop_last().take(s.len() - 1) =~= s.drop_last());
            assert(is_digit_char(s.last()));
        }
    }
}

/// `u64::from_str`: an optional `+` and one or more decimal digits whose
/// value fits in 64 bits.
pub open spec fn parse_u64_spec(s: Seq<char>) -> Option<u64> {
    parse_digits_spec(if s.len() > 0 && s[0] == '+' { s.drop_first() } else { s })
}

/// One or more decimal digits whose value fits in 64 bits.
pub open spec fn parse_digits_spec(body: Seq<char>) -> Option<u64> {
    if body.len() > 0 && (forall|i: int| 0 <= i < body.len() ==> is_digit_char(#[trigger] body[i]))
        && digits_value(body) <= u64::MAX {
        Some(digits_value(body) as u64)
    } else {
        None
    }
}

/// Parses `s[lo..hi]` as a `u64` (see [`parse_u64_spec`]).
pub fn parse_u64_at(s: &Vec<char>, lo: usize, hi: usize) -> (r: Option<u64>)
    requires
        lo <= hi <= s.len(),
    ensures
        r == parse_u64_spec(s@.subrange(lo as int, hi as int)),
{
    let ghost t = s@.subrange(lo as int, hi as int);
    let a = if lo < hi && s[lo] == '+' { lo + 1 } else { lo };
    let ghost body = s@.subrange(a as int, hi as int);
    proof {
        if lo < hi && s@[lo as int] == '+' {
            assert(t.drop_first() =~= body);
        } else {
            assert(t =~= body);
        }
    }
    if a == hi {
        return None;
    }
    let mut v: u128 = 0;
    let mut k = a;
    while k < hi
        invariant
            a <= k <= hi <= s.len(),
            body == s@.subrange(a as int, hi as int),
            parse_u64_spec(s@.subrange(lo as int, hi as int)) == parse_digits_spec(body),
            forall|i: int| a <= i < k ==> is_digit_char(#[trigger] s@[i]),
            v == digits_value(s@.subrange(a as int, k as int)),
            v <= u64::MAX,
        decreases hi - k,
    {
        let c = s[k];
        if !('0' <= c && c <= '9') {
            proof {
                assert(body[k - a] == c);
            }
            return None;
        }
        proof {
            assert(s@.subrange(a as int, k + 1).drop_last() =~= s@.subrange(a as int, k as int));
        }
        let nv = v * 10 + (c as u32 - 48) as u128;
        if nv > 0xFFFF_FFFF_FFFF_FFFF {
            proof {
                assert forall|i: int| 0 <= i < body.len() implies is_digit_char(#[trigger] body[i]) || i > k - a by {
                    assert(body[i] == s@[a + i]);
                }
                if forall|i: int| 0 <= i < body.len() ==> is_digit_char(#[trigger] body[i]) {
                    lemma_digits_mono(body, k + 1 - a);
                    assert(body.take(k + 1 - a) =~= s@.subrange(a as int, k + 1));
                }
            }
            return None;
        }
        v = nv;
        k = k + 1;
    }
    proof {
        assert forall|i: int| 0 <= i < body.len() implies is_digit_char(#[trigger] body[i]) by {
            assert(body[i] == s@[a + i]);
        }
    }
    Some(v as u64)
}


// ---------------------------------------------------------------------------
// lines of joined texts
// ---------------------------------------------------------------------------

/// A text that is one line: no `'\n'`, and no `'\r'` at its end.
pub open spec fn is_plain_line(l: Seq<char>) -> bool {
    (forall|i: int| 0 <= i < l.len() ==> #[trigger] l[i] != '\n') && (l.len() == 0 || l.last() != '\r')
}

/// `join` seen from the front.
pub proof fn lemma_join_front(parts: Seq<Seq<char>>, sep: Seq<char>)
    requires
        parts.len() >= 2,
    ensures
        join(parts, sep) == parts[0] + sep + join(parts.drop_first(), sep),
    decreases parts.len(),
{
    if parts.len() == 2 {
        assert(parts.drop_last().len() == 1);
        assert(parts.drop_first().len() == 1);
        assert(join(parts.drop_first(), sep) == parts[1]);
        assert(join(parts.drop_last(), sep) == parts[0]);
    } else {
        lemma_join_front(parts.drop_last(), sep);
        assert(parts.drop_last().drop_first() =~= parts.drop_first().drop_last());
        assert(parts.drop_first().last() == parts.last());
        assert(parts.drop_last()[0] == parts[0]);
    }
}

/// The lines of a line, a newline, and more text.
pub proof fn lemma_lines_cons(a: Seq<char>, b: Seq<char>)
    requires
        forall|i: int| 0 <= i < a.len() ==> #[trigger] a[i] != '\n',
    ensures
        lines(a + seq!['\n'] + b) == seq![strip_cr(a)] + lines(b),
{
    let s = a + seq!['\n'] + b;
    lemma_nl_index_found(s, a.len() as int);
    assert(s.take(a.len() as int) =~= a);
    assert(s.skip(a.len() as int + 1) =~= b);
}

/// The lines of a single line.
pub proof fn lemma_lines_one(a: Seq<char>)
    requires
        forall|i: int| 0 <= i < a.len() ==> #[trigger] a[i] != '\n',
    ensures
        lines(a) == (if a.len() == 0 { Seq::<Seq<char>>::empty() } else { seq![a] }),
{
    if a.len() > 0 {
        lemma_nl_index_none(a);
    }
}

/// Dropping a final carriage return does not change a trimmed line.
pub proof fn lemma_trim_strip_cr(l: Seq<char>)
    ensures
        trim(strip_cr(l)) == trim(l),
{
    if l.len() > 0 && l.last() == '\r' {
        assert(is_ws('\r'));
        let x = l.drop_last();
        assert(x + seq!['\r'] =~= l);
        lemma_ltrim_append(x, seq!['\r']);
    }
}

/// A text without `\n`.
pub open spec fn one_line(l: Seq<char>) -> bool {
    forall|i: int| 0 <= i < l.len() ==> #[trigger] l[i] != '\n'
}

/// Each of the lines without its final carriage return.
pub open spec fn strip_crs(q: Seq<Seq<char>>) -> Seq<Seq<char>> {
    Seq::new(q.len(), |i: int| strip_cr(q[i]))
}

/// Splitting lines joined by newlines, followed by a newline and more text:
/// each line comes back without a final carriage return, then the lines of
/// the rest.
pub proof fn lemma_lines_join_then(q: Seq<Seq<char>>, y: Seq<char>)
    requires
        q.len() > 0,
        forall|i: int| 0 <= i < q.len() ==> one_line(#[trigger] q[i]),
    ensures
        lines(join(q, seq!['\n']) + seq!['\n'] + y) == strip_crs(q) + lines(y),
    decreases q.len(),
{
    let nl = seq!['\n'];
    assert(one_line(q[0]));
    if q.len() == 1 {
        assert(join(q, nl) == q[0]);
        lemma_lines_cons(q[0], y);
        assert(strip_crs(q) =~= seq![strip_cr(q[0])]);
    } else {
        let r = q.drop_first();
        assert forall|i: int| 0 <= i < r.len() implies one_line(#[trigger] r[i]) by {
            assert(r[i] == q[i + 1]);
        }
        lemma_join_front(q, nl);
        lemma_lines_join_then(r, y);
        let z = join(r, nl) + nl + y;
        assert(join(q, nl) + nl + y =~= q[0] + nl + z);
        lemma_lines_cons(q[0], z);
        assert(strip_crs(q) =~= seq![strip_cr(q[0])] + strip_crs(r));
    }
}

/// Splitting lines joined by newlines: each but the last comes back without
/// a final carriage return, and the last as it is unless it is empty.
pub proof fn lemma_lines_join_all(q: Seq<Seq<char>>)
    requires
        q.len() > 0,
        forall|i: int| 0 <= i < q.len() ==> one_line(#[trigger] q[i]),
    ensures
        lines(join(q, seq!['\n'])) == strip_crs(q.drop_last()) + (if q.last().len() == 0 {
            Seq::<Seq<char>>::empty()
        } else {
            seq![q.last()]
        }),
{
    assert(one_line(q[q.len() - 1]));
    lemma_lines_one(q.last());
    if q.len() == 1 {
        assert(join(q, seq!['\n']) == q[0]);
        assert(strip_crs(q.drop_last()) =~= Seq::<Seq<char>>::empty());
    } else {
        let p = q.drop_last();
        assert forall|i: int| 0 <= i < p.len() implies one_line(#[trigger] p[i]) by {
            assert(p[i] == q[i]);
        }
        lemma_lines_join_then(p, q.last());
    }
}

/// Splitting plain lines joined by newlines gives them back, but for a last
/// empty one.
pub proof fn lemma_lines_join(parts: Seq<Seq<char>>)
    requires
        forall|i: int| 0 <= i < parts.len() ==> is_plain_line(#[trigger] parts[i]),
    ensures
        lines(join(parts, seq!['\n'])) == (if parts.len() > 0 && parts.last().len() == 0 {
            parts.drop_last()
        } else {
            parts
        }),
    decreases parts.len(),
{
    if parts.len() == 0 {
    } else if parts.len() == 1 {
        assert(is_plain_line(parts[0]));
        lemma_lines_one(parts[0]);
        assert(parts.drop_last() =~= Seq::<Seq<char>>::empty());
        assert(seq![parts[0]] =~= parts);
    } else {
        lemma_join_front(parts, seq!['\n']);
        let rest = parts.drop_first();
        assert forall|i: int| 0 <= i < rest.len() implies is_plain_line(#[trigger] rest[i]) by {
            assert(rest[i] == parts[i + 1]);
        }
        lemma_lines_join(rest);
        assert(is_plain_line(parts[0]));
        lemma_lines_cons(parts[0], join(rest, seq!['\n']));
        assert(strip_cr(parts[0]) == parts[0]);
        assert(rest.last() == parts.last());
        if parts.last().len() == 0 {
            assert(seq![parts[0]] + rest.drop_last() =~= parts.drop_last());
        } else {
            assert(seq![parts[0]] + rest =~= parts);
        }
    }
}

/// Without carriage returns, the lines of a text joined back by newlines
/// give the text, but for a final newline.
pub proof fn lemma_join_lines(c: Seq<char>)
    requires
        forall|i: int| 0 <= i < c.len() ==> #[trigger] c[i] != '\r',
    ensures
        c == join(lines(c), seq!['\n']) || c == join(lines(c), seq!['\n']) + seq!['\n'],
        forall|i: int| 0 <= i < lines(c).len() ==> is_plain_line(#[trigger] lines(c)[i]),
    decreases c.len(),
{
    if c.len() > 0 {
        let i = nl_index(c);
        lemma_nl_index_props(c);
        if i < 0 {
            assert(lines(c) == seq![c]);
            assert(join(lines(c), seq!['\n']) == c);
            assert forall|j: int| 0 <= j < c.len() implies #[trigger] c[j] != '\n' by {}
        } else {
            let a = c.take(i);
            let b = c.skip(i + 1);
            assert(forall|j: int| 0 <= j < b.len() ==> #[trigger] b[j] == c[i + 1 + j]);
            lemma_join_lines(b);
            assert(strip_cr(a) == a);
            assert(lines(c) == seq![a] + lines(b));
            assert(c =~= a + seq!['\n'] + b);
            assert forall|j: int| 0 <= j < a.len() implies #[trigger] a[j] != '\n' by {}
            if lines(b).len() == 0 {
                assert(b.len() == 0);
                assert(lines(c) =~= seq![a]);
                assert(join(lines(c), seq!['\n']) == a);
            } else {
                let ps = seq![a] + lines(b);
                assert(ps.drop_first() =~= lines(b));
                lemma_join_front(ps, seq!['\n']);
            }
            assert forall|j: int| 0 <= j < lines(c).len() implies is_plain_line(#[trigger] lines(c)[j]) by {
                if j > 0 {
                    assert(lines(c)[j] == lines(b)[j - 1]);
                }
            }
        }
    }
}


/// The lines of a newline-terminated text followed by more text.
pub proof fn lemma_lines_append(a: Seq<char>, b: Seq<char>)
    requires
        a.len() > 0,
        a.last() == '\n',
    ensures
        lines(a + b) == lines(a) + lines(b),
    decreases a.len(),
{
    lemma_nl_index_props(a);
    let i = nl_index(a);
    assert(i >= 0) by {
        if i < 0 {
            assert(a[a.len() - 1] != '\n');
        }
    }
    let s = a + b;
    assert forall|j: int| 0 <= j < i implies s[j] != '\n' by {
        assert(s[j] == a[j]);
    }
    lemma_nl_index_found(s, i);
    assert(s.take(i) =~= a.take(i));
    assert(s.skip(i + 1) =~= a.skip(i + 1) + b);
    if i == a.len() - 1 {
        assert(a.skip(i + 1) =~= Seq::<char>::empty());
        assert(lines(a) == seq![strip_cr(a.take(i))] + lines(a.skip(i + 1)));
        assert(a.skip(i + 1) + b =~= b);
    } else {
        let a2 = a.skip(i + 1);
        assert(a2.last() == a.last());
        lemma_lines_append(a2, b);
        assert(seq![strip_cr(a.take(i))] + (lines(a2) + lines(b)) =~= (seq![strip_cr(a.take(i))] + lines(a2)) + lines(b));
    }
}

/// A final newline does not change the trimmed text.
pub proof fn lemma_trim_newline(x: Seq<char>)
    ensures
        trim(x + seq!['\n']) == trim(x),
    decreases x.len(),
{
    assert(is_ws('\n'));
    lemma_rtrim_newline(ltrim(x));
    lemma_ltrim_append(x, seq!['\n']);
}

proof fn lemma_rtrim_newline(y: Seq<char>)
    ensures
        rtrim(y + seq!['\n']) == rtrim(y),
{
    assert(is_ws('\n'));
    assert((y + seq!['\n']).drop_last() =~= y);
}

proof fn lemma_ltrim_append(x: Seq<char>, w: Seq<char>)
    requires
        forall|i: int| 0 <= i < w.len() ==> is_ws(#[trigger] w[i]),
    ensures
        ltrim(x + w) == ltrim(x) + w || (ltrim(x).len() == 0 && ltrim(x + w).len() == 0),
        rtrim(ltrim(x + w)) == rtrim(ltrim(x)),
    decreases x.len() + w.len(),
{
    if x.len() == 0 {
        assert(x + w =~= w);
        lemma_ltrim_ws(w);
    } else if is_ws(x[0]) {
        assert((x + w).drop_first() =~= x.drop_first() + w);
        lemma_ltrim_append(x.drop_first(), w);
    } else {
        assert((x + w)[0] == x[0]);
        lemma_rtrim_ws_suffix(x, w);
    }
}

proof fn lemma_ltrim_ws(w: Seq<char>)
    requires
        forall|i: int| 0 <= i < w.len() ==> is_ws(#[trigger] w[i]),
    ensures
        ltrim(w).len() == 0,
    decreases w.len(),
{
    if w.len() > 0 {
        lemma_ltrim_ws(w.drop_first());
    }
}

proof fn lemma_rtrim_ws_suffix(x: Seq<char>, w: Seq<char>)
    requires
        forall|i: int| 0 <= i < w.len() ==> is_ws(#[trigger] w[i]),
    ensures
        rtrim(x + w) == rtrim(x),
    decreases w.len(),
{
    if w.len() > 0 {
        assert((x + w).drop_last() =~= x + w.drop_last());
        lemma_rtrim_ws_suffix(x, w.drop_last());
    } else {
        assert(x + w =~= x);
    }
}


/// `find` gives the first occurrence.
pub proof fn lemma_find_first(s: Seq<char>, p: Seq<char>, i: int)
    requires
        occurs_at(s, p, i),
        forall|j: int| 0 <= j < i ==> !occurs_at(s, p, j),
    ensures
        find(s, p) == Some(i),
{
    reveal(find);
    assert(contains(s, p));
    let c = choose|c: int| occurs_at(s, p, c) && forall|j: int| 0 <= j < c ==> !occurs_at(s, p, j);
    assert(occurs_at(s, p, i) && forall|j: int| 0 <= j < i ==> !occurs_at(s, p, j));
    if c < i {
        assert(!occurs_at(s, p, c));
    }
    if c > i {
        assert(!occurs_at(s, p, i));
    }
}


// ---------------------------------------------------------------------------
// lexicographic order
// ---------------------------------------------------------------------------

/// `a < b` in the order of `str`'s `Ord` (code point by code point, a
/// proper prefix first).
pub open spec fn lex_lt(a: Seq<char>, b: Seq<char>) -> bool
    decreases a.len(),
{
    if a.len() == 0 {
        b.len() > 0
    } else if b.len() == 0 {
        false
    } else if a[0] != b[0] {
        a[0] < b[0]
    } else {
        lex_lt(a.drop_first(), b.drop_first())
    }
}

pub open spec fn lex_le(a: Seq<char>, b: Seq<char>) -> bool {
    lex_lt(a, b) || a == b
}

pub proof fn lemma_lex_total(a: Seq<char>, b: Seq<char>)
    ensures
        lex_lt(a, b) || lex_lt(b, a) || a == b,
        !(lex_lt(a, b) && lex_lt(b, a)),
        !lex_lt(a, a),
    decreases a.len(),
{
    if a.len() > 0 {
        lemma_lex_total(a.drop_first(), a.drop_first());
    }
    if a.len() > 0 && b.len() > 0 {
        if a[0] == b[0] {
            lemma_lex_total(a.drop_first(), b.drop_first());
            if a.drop_first() == b.drop_first() {
                assert(a =~= seq![a[0]] + a.drop_first());
                assert(b =~= seq![b[0]] + b.drop_first());
            }
        }
    }
}

pub proof fn lemma_lex_trans(a: Seq<char>, b: Seq<char>, c: Seq<char>)
    requires
        lex_lt(a, b),
        lex_lt(b, c),
    ensures
        lex_lt(a, c),
    decreases a.len(),
{
    if a.len() > 0 && b.len() > 0 && c.len() > 0 {
        if a[0] == b[0] && b[0] == c[0] {
            lemma_lex_trans(a.drop_first(), b.drop_first(), c.drop_first());
        }
    }
}

/// `a < b` in `str` order.
pub fn str_lt(a: &str, b: &str) -> (r: bool)
    ensures
        r == lex_lt(a@, b@),
{
    let x = chars_of(a);
    let y = chars_of(b);
    let mut k: usize = 0;
    assert(x@.skip(0) =~= x@ && y@.skip(0) =~= y@);
    while k < x.len() && k < y.len() && x[k] == y[k]
        invariant
            k <= x.len(),
            k <= y.len(),
            lex_lt(x@, y@) == lex_lt(x@.skip(k as int), y@.skip(k as int)),
        decreases x.len() - k,
    {
        proof {
            assert(x@.skip(k as int).drop_first() =~= x@.skip(k + 1));
            assert(y@.skip(k as int).drop_first() =~= y@.skip(k + 1));
        }
        k = k + 1;
    }
    if k == x.len() {
        k < y.len()
    } else if k == y.len() {
        false
    } else {
        proof {
            assert(x@.skip(k as int)[0] == x@[k as int]);
            assert(y@.skip(k as int)[0] == y@[k as int]);
        }
        x[k] < y[k]
    }
}

} // verus!
