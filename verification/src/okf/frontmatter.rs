//! Frontmatter parsing and serialization: plain `key: value` lines, unknown
//! fields kept in order, missing fields read as absent.

use vstd::prelude::*;

use crate::text::{
    chars_of, find, find_in, line_ranges, lines, push_slice, push_str, range_texts, ranges_in,
    string_from, string_of_range, trim, trim_bounds, join, join_ranges, strip_leading, count_leading,
};

verus! {

/// A frontmatter entry list, viewed as `(key, value)` pairs.
pub type Entries = Seq<(Seq<char>, Seq<char>)>;

/// Index of the first entry whose key is `key`, or `-1`.
pub open spec fn key_index(e: Entries, key: Seq<char>) -> int
    decreases e.len(),
{
    if e.len() == 0 {
        -1
    } else if e[0].0 == key {
        0
    } else {
        let r = key_index(e.drop_first(), key);
        if r < 0 {
            -1
        } else {
            r + 1
        }
    }
}

/// Value of the first entry with key `key`.
pub open spec fn lookup(e: Entries, key: Seq<char>) -> Option<Seq<char>> {
    let i = key_index(e, key);
    if 0 <= i < e.len() {
        Some(e[i].1)
    } else {
        None
    }
}

/// `set`: the first entry with that key gets the new value; with no such
/// entry the pair is appended.
pub open spec fn set_entry(e: Entries, key: Seq<char>, val: Seq<char>) -> Entries {
    let i = key_index(e, key);
    if 0 <= i < e.len() {
        e.update(i, (key, val))
    } else {
        e.push((key, val))
    }
}

pub proof fn lemma_key_index(e: Entries, key: Seq<char>)
    ensures
        -1 <= key_index(e, key) < e.len(),
        key_index(e, key) >= 0 ==> e[key_index(e, key)].0 == key,
        forall|j: int|
            0 <= j < e.len() && (key_index(e, key) < 0 || j < key_index(e, key)) ==> e[j].0 != key,
    decreases e.len(),
{
    if e.len() > 0 {
        lemma_key_index(e.drop_first(), key);
        assert forall|j: int| 0 < j < e.len() implies e[j] == e.drop_first()[j - 1] by {}
    }
}

pub proof fn lemma_key_index_at(e: Entries, key: Seq<char>, k: int)
    requires
        0 <= k < e.len(),
        e[k].0 == key,
        forall|j: int| 0 <= j < k ==> e[j].0 != key,
    ensures
        key_index(e, key) == k,
    decreases k,
{
    if k > 0 {
        lemma_key_index_at(e.drop_first(), key, k - 1);
    }
}

pub proof fn lemma_key_index_absent(e: Entries, key: Seq<char>)
    requires
        forall|j: int| 0 <= j < e.len() ==> e[j].0 != key,
    ensures
        key_index(e, key) == -1,
    decreases e.len(),
{
    if e.len() > 0 {
        lemma_key_index_absent(e.drop_first(), key);
    }
}

/// The frontmatter line fence.
pub open spec fn fence() -> Seq<char> {
    seq!['-', '-', '-']
}

/// One frontmatter line applied to the entries read so far: blank lines and
/// `#` comments are skipped, a line without `:` is ignored, and otherwise the
/// trimmed text before the first `:` (if not empty) is set to the trimmed
/// text after it.
#[verifier::opaque]
pub open spec fn apply_line(e: Entries, line: Seq<char>) -> Entries {
    let t = trim(line);
    if t.len() == 0 || t[0] == '#' {
        e
    } else {
        match find(t, seq![':']) {
            None => e,
            Some(idx) => {
                let k = trim(t.take(idx));
                let v = trim(t.skip(idx + 1));
                if k.len() == 0 {
                    e
                } else {
                    set_entry(e, k, v)
                }
            },
        }
    }
}

/// Entries read from a list of lines, first to last.
pub open spec fn parse_lines(ls: Seq<Seq<char>>) -> Entries
    decreases ls.len(),
{
    if ls.len() == 0 {
        Seq::empty()
    } else {
        apply_line(parse_lines(ls.drop_last()), ls.last())
    }
}

/// What `Frontmatter::parse` reads from a text.
pub open spec fn parse_text(text: Seq<char>) -> Entries {
    parse_lines(lines(text))
}

/// `key: value\n` for every entry, in order.
pub open spec fn entry_lines(e: Entries) -> Seq<char>
    decreases e.len(),
{
    if e.len() == 0 {
        Seq::empty()
    } else {
        entry_lines(e.drop_last()) + e.last().0 + seq![':', ' '] + e.last().1 + seq!['\n']
    }
}

/// What `Frontmatter::serialize` writes: nothing for no entries, else the
/// entry lines between two `---` fences.
pub open spec fn serialized(e: Entries) -> Seq<char> {
    if e.len() == 0 {
        Seq::empty()
    } else {
        fence().push('\n') + entry_lines(e) + fence().push('\n')
    }
}

/// A one-character buffer.
pub fn single(c: char) -> (v: Vec<char>)
    ensures
        v@ == seq![c],
{
    let mut v: Vec<char> = Vec::new();
    v.push(c);
    assert(v@ =~= seq![c]);
    v
}

/// A line that trims to `---`.
pub open spec fn is_fence_line(l: Seq<char>) -> bool {
    trim(l) == fence()
}

/// Index of the first fence line at or after `from`, or `-1`.
pub open spec fn fence_from(ls: Seq<Seq<char>>, from: int) -> int
    decreases ls.len() - from,
{
    if from < 0 || from >= ls.len() {
        -1
    } else if is_fence_line(ls[from]) {
        from
    } else {
        fence_from(ls, from + 1)
    }
}

/// What `split_document` returns for a file: with a `---` first line and a
/// later closing `---` line, the entries parsed from the lines in between and
/// the lines after the close (joined by newlines, leading newlines dropped);
/// otherwise no frontmatter and the whole content.
pub open spec fn split_spec(content: Seq<char>) -> (Option<Entries>, Seq<char>) {
    let ls = lines(content);
    if ls.len() == 0 || !is_fence_line(ls[0]) {
        (None, content)
    } else {
        let c = fence_from(ls, 1);
        if c < 0 {
            (None, content)
        } else {
            (
                Some(parse_text(join(ls.subrange(1, c), seq!['\n']))),
                strip_leading(join(ls.skip(c + 1), seq!['\n']), '\n'),
            )
        }
    }
}

/// What `join_document` writes.
pub open spec fn joined(fm: Option<Entries>, body: Seq<char>) -> Seq<char> {
    match fm {
        Some(e) => if e.len() > 0 {
            serialized(e) + seq!['\n'] + body
        } else {
            body
        },
        None => body,
    }
}

/// Whether `s[lo..hi]` trims to `---`.
pub fn fence_at(s: &Vec<char>, lo: usize, hi: usize) -> (b: bool)
    requires
        lo <= hi <= s.len(),
    ensures
        b == is_fence_line(s@.subrange(lo as int, hi as int)),
{
    let (a, b) = trim_bounds(s, lo, hi);
    let r = b - a == 3 && s[a] == '-' && s[a + 1] == '-' && s[a + 2] == '-';
    proof {
        let t = s@.subrange(a as int, b as int);
        if r {
            assert(t =~= fence());
        }
        if t == fence() {
            assert(t.len() == 3);
            assert(t[0] == fence()[0] && t[1] == fence()[1] && t[2] == fence()[2]);
        }
    }
    r
}

/// Splits file content into `(frontmatter, body)`; no frontmatter, or an
/// unclosed one, gives `(None, content)`.
pub fn split_document(content: &str) -> (r: (Option<Frontmatter>, String))
    ensures
        r.1@ == split_spec(content@).1,
        match split_spec(content@).0 {
            Some(e) => r.0 matches Some(f) && f@ == e,
            None => r.0 is None,
        },
{
    let s = chars_of(content);
    let r = line_ranges(&s);
    let ghost ls = range_texts(s@, r@);
    assert(ls == lines(content@));
    if r.len() == 0 {
        return (None, content.to_owned());
    }
    let (lo0, hi0) = r[0];
    proof {
        assert(r@[0].0 <= r@[0].1 <= s@.len());
    }
    if !fence_at(&s, lo0, hi0) {
        return (None, content.to_owned());
    }
    let mut c: usize = 1;
    while c < r.len()
        invariant
            1 <= c <= r.len(),
            ranges_in(s@, r@),
            ls == range_texts(s@, r@),
            fence_from(ls, 1) == fence_from(ls, c as int),
        ensures
            1 <= c <= r.len(),
            fence_from(ls, 1) == (if c < r.len() {
                c as int
            } else {
                -1
            }),
        decreases r.len() - c,
    {
        let (lo, hi) = r[c];
        proof {
            assert(r@[c as int].0 <= r@[c as int].1 <= s@.len());
        }
        if fence_at(&s, lo, hi) {
            break;
        }
        c = c + 1;
    }
    if c == r.len() {
        return (None, content.to_owned());
    }
    let nl = single('\n');
    let fm_text = join_ranges(&s, &r, 1, c, nl.as_slice());
    let fm = Frontmatter::parse_chars(&fm_text);
    let body = join_ranges(&s, &r, c + 1, r.len(), nl.as_slice());
    let k = count_leading(&body, '\n');
    let out = string_of_range(&body, k, body.len());
    proof {
        assert(ls.subrange(c + 1, ls.len() as int) =~= ls.skip(c + 1));
        assert(body@.skip(k as int) =~= body@.subrange(k as int, body@.len() as int));
    }
    (Some(fm), out)
}

/// Puts frontmatter and body back together into file content.
pub fn join_document(fm: Option<&Frontmatter>, body: &str) -> (s: String)
    ensures
        s@ == joined(
            match fm {
                Some(f) => Some(f@),
                None => None,
            },
            body@,
        ),
{
    match fm {
        Some(f) => {
            if f.entries.len() > 0 {
                let mut out = f.serialize_chars();
                out.push('\n');
                push_str(&mut out, body);
                string_from(out.as_slice())
            } else {
                body.to_owned()
            }
        },
        None => body.to_owned(),
    }
}

/// Ordered frontmatter entries; unknown fields are preserved.
#[derive(Debug, Clone, PartialEq, Eq)]
pub struct Frontmatter {
    pub entries: Vec<(String, String)>,
}

impl View for Frontmatter {
    type V = Entries;

    open spec fn view(&self) -> Entries {
        Seq::new(self.entries@.len(), |i: int| (self.entries@[i].0@, self.entries@[i].1@))
    }
}

impl Default for Frontmatter {
    fn default() -> (r: Self)
        ensures
            r@ == Seq::<(Seq<char>, Seq<char>)>::empty(),
    {
        Frontmatter::new()
    }
}

impl Frontmatter {
    /// An empty frontmatter.
    pub fn new() -> (r: Self)
        ensures
            r@ == Seq::<(Seq<char>, Seq<char>)>::empty(),
    {
        let r = Frontmatter { entries: Vec::new() };
        assert(r@ =~= Seq::<(Seq<char>, Seq<char>)>::empty());
        r
    }

    /// Index of the first entry with this key.
    fn position(&self, key: &String) -> (r: Option<usize>)
        ensures
            match r {
                Some(i) => key_index(self@, key@) == i as int,
                None => key_index(self@, key@) == -1,
            },
    {
        let mut i: usize = 0;
        while i < self.entries.len()
            invariant
                i <= self.entries.len(),
                forall|j: int| 0 <= j < i ==> self@[j].0 != key@,
            decreases self.entries.len() - i,
        {
            if self.entries[i].0 == *key {
                proof {
                    lemma_key_index_at(self@, key@, i as int);
                }
                return Some(i);
            }
            i = i + 1;
        }
        proof {
            lemma_key_index_absent(self@, key@);
        }
        None
    }

    /// Value of the first entry with this key.
    pub fn get(&self, key: &str) -> (r: Option<&str>)
        ensures
            match r {
                Some(v) => lookup(self@, key@) == Some(v@),
                None => lookup(self@, key@).is_none(),
            },
    {
        let k = key.to_owned();
        proof {
            lemma_key_index(self@, k@);
        }
        match self.position(&k) {
            Some(i) => Some(self.entries[i].1.as_str()),
            None => None,
        }
    }

    fn set_owned(&mut self, key: String, val: String)
        ensures
            final(self)@ == set_entry(old(self)@, key@, val@),
    {
        proof {
            lemma_key_index(self@, key@);
        }
        match self.position(&key) {
            Some(i) => {
                let ghost before = self@;
                self.entries.set(i, (key, val));
                assert(self@ =~= set_entry(before, key@, val@));
            },
            None => {
                let ghost before = self@;
                self.entries.push((key, val));
                assert(self@ =~= set_entry(before, key@, val@));
            },
        }
    }

    /// Sets a field: updates the first entry with this key, else appends.
    pub fn set(&mut self, key: &str, val: &str)
        ensures
            final(self)@ == set_entry(old(self)@, key@, val@),
    {
        self.set_owned(key.to_owned(), val.to_owned());
    }

    /// Applies one line `text[lo..hi]` (see [`apply_line`]).
    fn apply_line_chars(&mut self, text: &Vec<char>, lo: usize, hi: usize)
        requires
            lo <= hi <= text.len(),
        ensures
            final(self)@ == apply_line(old(self)@, text@.subrange(lo as int, hi as int)),
    {
        reveal(apply_line);
        let (a, b) = trim_bounds(text, lo, hi);
        let ghost t = text@.subrange(a as int, b as int);
        if a == b || text[a] == '#' {
            return;
        }
        assert(t[0] == text@[a as int]);
        let colon = single(':');
        match find_in(text, a, b, colon.as_slice()) {
            Some(idx) => {
                let (ka, kb) = trim_bounds(text, a, a + idx);
                let (va, vb) = trim_bounds(text, a + idx + 1, b);
                proof {
                    assert(t.take(idx as int) =~= text@.subrange(a as int, a + idx));
                    assert(t.skip(idx + 1) =~= text@.subrange(a + idx + 1, b as int));
                }
                let ghost line = text@.subrange(lo as int, hi as int);
                assert(trim(line) == t);
                assert(find(t, seq![':']) == Some(idx as int));
                if ka < kb {
                    let key = string_of_range(text, ka, kb);
                    let val = string_of_range(text, va, vb);
                    self.set_owned(key, val);
                } else {
                    assert(apply_line(old(self)@, line) == old(self)@);
                }
            },
            None => {
                assert(find(t, seq![':']).is_none());
            },
        }
    }

    /// Reads frontmatter entries from a character buffer.
    pub fn parse_chars(text: &Vec<char>) -> (fm: Self)
        ensures
            fm@ == parse_text(text@),
    {
        let mut fm = Frontmatter::new();
        let r = line_ranges(text);
        let ghost ls = range_texts(text@, r@);
        let mut i: usize = 0;
        while i < r.len()
            invariant
                i <= r.len(),
                ranges_in(text@, r@),
                ls == range_texts(text@, r@),
                ls == lines(text@),
                fm@ == parse_lines(ls.take(i as int)),
            decreases r.len() - i,
        {
            let (lo, hi) = r[i];
            proof {
                assert(r@[i as int].0 <= r@[i as int].1 <= text@.len());
                assert(ls.take(i + 1).drop_last() =~= ls.take(i as int));
                assert(ls.take(i + 1).last() == text@.subrange(lo as int, hi as int));
            }
            fm.apply_line_chars(text, lo, hi);
            i = i + 1;
        }
        proof {
            assert(ls.take(r@.len() as int) =~= ls);
        }
        fm
    }

    /// Parses frontmatter text (without the `---` fences).
    pub fn parse(text: &str) -> (fm: Self)
        ensures
            fm@ == parse_text(text@),
    {
        let v = chars_of(text);
        Self::parse_chars(&v)
    }

    /// The entries as a character buffer (see [`serialized`]).
    pub fn serialize_chars(&self) -> (out: Vec<char>)
        ensures
            out@ == serialized(self@),
    {
        let mut out: Vec<char> = Vec::new();
        if self.entries.len() == 0 {
            return out;
        }
        let head = ['-', '-', '-', '\n'];
        push_slice(&mut out, &head);
        let sep = [':', ' '];
        let mut i: usize = 0;
        proof {
            assert(self@.take(0) =~= Seq::<(Seq<char>, Seq<char>)>::empty());
            assert(head@ =~= fence().push('\n'));
        }
        while i < self.entries.len()
            invariant
                i <= self.entries.len(),
                out@ == fence().push('\n') + entry_lines(self@.take(i as int)),
                sep@ == seq![':', ' '],
            decreases self.entries.len() - i,
        {
            push_str(&mut out, self.entries[i].0.as_str());
            push_slice(&mut out, &sep);
            push_str(&mut out, self.entries[i].1.as_str());
            out.push('\n');
            proof {
                let e = self@.take(i + 1);
                assert(e.drop_last() =~= self@.take(i as int));
                assert(e.last() == self@[i as int]);
                assert(out@ =~= fence().push('\n') + entry_lines(e));
            }
            i = i + 1;
        }
        push_slice(&mut out, &head);
        proof {
            assert(self@.take(self@.len() as int) =~= self@);
        }
        out
    }

    /// Serializes to a frontmatter block with fences; empty when no entries.
    pub fn serialize(&self) -> (s: String)
        ensures
            s@ == serialized(self@),
    {
        let v = self.serialize_chars();
        string_from(v.as_slice())
    }
}


/// The `key: value` text of an entry.
pub open spec fn entry_text(kv: (Seq<char>, Seq<char>)) -> Seq<char> {
    kv.0 + seq![':', ' '] + kv.1
}

pub open spec fn entry_texts(e: Entries) -> Seq<Seq<char>> {
    Seq::new(e.len(), |i: int| entry_text(e[i]))
}

/// Entries that each serialize to one plain line.
pub open spec fn plain_entries(e: Entries) -> bool {
    forall|i: int| 0 <= i < e.len() ==> crate::text::is_plain_line(#[trigger] entry_text(e[i]))
}

pub proof fn lemma_entry_lines(e: Entries)
    requires
        plain_entries(e),
    ensures
        lines(entry_lines(e)) == entry_texts(e),
        e.len() > 0 ==> entry_lines(e).len() > 0 && entry_lines(e).last() == '\n',
    decreases e.len(),
{
    if e.len() > 0 {
        let init = e.drop_last();
        assert forall|i: int| 0 <= i < init.len() implies crate::text::is_plain_line(#[trigger] entry_text(init[i])) by {
            assert(init[i] == e[i]);
        }
        lemma_entry_lines(init);
        let kv = entry_text(e.last());
        assert(crate::text::is_plain_line(entry_text(e[e.len() - 1])));
        assert(entry_lines(e) =~= entry_lines(init) + (kv + seq!['\n']));
        crate::text::lemma_lines_cons(kv, Seq::empty());
        assert(kv + seq!['\n'] + Seq::<char>::empty() =~= kv + seq!['\n']);
        assert(crate::text::strip_cr(kv) == kv);
        assert(lines(Seq::<char>::empty()) =~= Seq::<Seq<char>>::empty());
        if init.len() > 0 {
            crate::text::lemma_lines_append(entry_lines(init), kv + seq!['\n']);
        } else {
            assert(entry_lines(init) =~= Seq::<char>::empty());
            assert(entry_lines(init) + (kv + seq!['\n']) =~= kv + seq!['\n']);
        }
        assert(entry_texts(e) =~= entry_texts(init).push(kv));
    }
}

/// The lines of serialized entries: the fences and one line per entry.
pub proof fn lemma_serialized_lines(e: Entries)
    requires
        plain_entries(e),
        e.len() > 0,
    ensures
        lines(serialized(e)) == seq![fence()] + entry_texts(e) + seq![fence()],
        serialized(e).last() == '\n',
{
    lemma_entry_lines(e);
    let f1 = fence().push('\n');
    assert(serialized(e) =~= f1 + (entry_lines(e) + f1));
    crate::text::lemma_lines_append(f1, entry_lines(e) + f1);
    crate::text::lemma_lines_cons(fence(), Seq::empty());
    assert(f1 =~= fence() + seq!['\n'] + Seq::<char>::empty());
    assert(crate::text::strip_cr(fence()) == fence());
    assert(lines(Seq::<char>::empty()) =~= Seq::<Seq<char>>::empty());
    crate::text::lemma_lines_append(entry_lines(e), f1);
}


/// Law: after `set(key, val)`, `get(key)` gives `val`, every other key reads
/// as before, and the entry count grows by one exactly when the key was
/// absent.
pub proof fn lemma_set_then_get(e: Entries, key: Seq<char>, val: Seq<char>)
    ensures
        lookup(set_entry(e, key, val), key) == Some(val),
        forall|k: Seq<char>| k != key ==> #[trigger] lookup(set_entry(e, key, val), k) == lookup(e, k),
        set_entry(e, key, val).len() == e.len() + (if lookup(e, key) is None { 1int } else { 0int }),
{
    lemma_key_index(e, key);
    let i = key_index(e, key);
    let e2 = set_entry(e, key, val);
    if 0 <= i {
        assert forall|j: int| 0 <= j < i implies e2[j].0 != key by {
            assert(e2[j] == e[j]);
        }
        lemma_key_index_at(e2, key, i);
        assert forall|k: Seq<char>| k != key implies #[trigger] lookup(e2, k) == lookup(e, k) by {
            lemma_key_index(e, k);
            let m = key_index(e, k);
            assert forall|j: int| 0 <= j < e2.len() implies (e2[j].0 == k <==> e[j].0 == k) by {
                if j == i {
                } else {
                    assert(e2[j] == e[j]);
                }
            }
            if m >= 0 {
                assert forall|j: int| 0 <= j < m implies e2[j].0 != k by {}
                lemma_key_index_at(e2, k, m);
                assert(m != i);
                assert(e2[m] == e[m]);
            } else {
                lemma_key_index_absent(e2, k);
            }
        }
    } else {
        assert forall|j: int| 0 <= j < e.len() implies e2[j].0 != key by {
            assert(e2[j] == e[j]);
        }
        lemma_key_index_at(e2, key, e.len() as int);
        assert forall|k: Seq<char>| k != key implies #[trigger] lookup(e2, k) == lookup(e, k) by {
            lemma_key_index(e, k);
            let m = key_index(e, k);
            if m >= 0 {
                assert forall|j: int| 0 <= j < m implies e2[j].0 != k by {
                    assert(e2[j] == e[j]);
                }
                assert(e2[m] == e[m]);
                lemma_key_index_at(e2, k, m);
            } else {
                assert forall|j: int| 0 <= j < e2.len() implies e2[j].0 != k by {
                    if j < e.len() {
                        assert(e2[j] == e[j]);
                    }
                }
                lemma_key_index_absent(e2, k);
            }
        }
    }
}


/// Entries that serialize and parse back unchanged: distinct keys; each key
/// non-empty, without `:` or `\n`, not starting with `#` and not padded with
/// whitespace; each value without `\n` and not padded (a carriage return
/// inside a key or value is kept).
pub open spec fn clean_entries(e: Entries) -> bool {
    &&& forall|i: int, j: int| 0 <= i < j < e.len() ==> (#[trigger] e[i]).0 != (#[trigger] e[j]).0
    &&& forall|i: int| 0 <= i < e.len() ==> clean_key(#[trigger] e[i].0) && clean_value(e[i].1)
}

pub open spec fn clean_key(k: Seq<char>) -> bool {
    &&& k.len() > 0
    &&& k[0] != '#'
    &&& !crate::text::is_ws(k[0])
    &&& !crate::text::is_ws(k.last())
    &&& forall|i: int| 0 <= i < k.len() ==> #[trigger] k[i] != ':' && k[i] != '\n'
}

pub open spec fn clean_value(v: Seq<char>) -> bool {
    &&& trim(v) == v
    &&& forall|i: int| 0 <= i < v.len() ==> #[trigger] v[i] != '\n'
}

proof fn lemma_clean_plain(e: Entries)
    requires
        clean_entries(e),
    ensures
        plain_entries(e),
{
    assert forall|i: int| 0 <= i < e.len() implies crate::text::is_plain_line(#[trigger] entry_text(e[i])) by {
        let (k, v) = e[i];
        assert(clean_key(e[i].0) && clean_value(e[i].1));
        let t = entry_text(e[i]);
        assert forall|j: int| 0 <= j < t.len() implies #[trigger] t[j] != '\n' by {
            if j < k.len() {
                assert(t[j] == k[j]);
            } else if j >= k.len() + 2 {
                assert(t[j] == v[j - k.len() - 2]);
            }
        }
        if v.len() > 0 {
            lemma_value_ends(v);
            assert(t.last() == v.last());
        }
    }
}

proof fn lemma_value_ends(v: Seq<char>)
    requires
        v.len() > 0,
        trim(v) == v,
    ensures
        !crate::text::is_ws(v[0]),
        !crate::text::is_ws(v.last()),
{
    crate::text::lemma_ltrim_len(v);
    lemma_rtrim_len(crate::text::ltrim(v));
    if crate::text::is_ws(v[0]) {
        crate::text::lemma_ltrim_len(v.drop_first());
    }
    assert(crate::text::ltrim(v) == v);
    if crate::text::is_ws(v.last()) {
        lemma_rtrim_len(v.drop_last());
    }
}

proof fn lemma_rtrim_len(x: Seq<char>)
    ensures
        crate::text::rtrim(x).len() <= x.len(),
    decreases x.len(),
{
    if x.len() > 0 && crate::text::is_ws(x.last()) {
        lemma_rtrim_len(x.drop_last());
    }
}

/// A clean entry's line parses back to the entry.
proof fn lemma_apply_entry_line(e: Entries, k: Seq<char>, v: Seq<char>)
    requires
        clean_key(k),
        clean_value(v),
        forall|j: int| 0 <= j < e.len() ==> (#[trigger] e[j]).0 != k,
    ensures
        apply_line(e, entry_text((k, v))) == e.push((k, v)),
{
    reveal(apply_line);
    let line = entry_text((k, v));
    let t = if v.len() == 0 { k + seq![':'] } else { line };
    // trimming the line
    assert(crate::text::ltrim(line) == line);
    if v.len() == 0 {
        assert(line =~= k + seq![':', ' ']);
        assert(line.drop_last() =~= k + seq![':']);
        assert(crate::text::rtrim(line) == crate::text::rtrim(k + seq![':']));
        assert(crate::text::rtrim(k + seq![':']) == k + seq![':']);
    } else {
        lemma_value_ends(v);
        assert(line.last() == v.last());
        assert(crate::text::rtrim(line) == line);
    }
    assert(trim(line) == t);
    assert(t.len() > 0 && t[0] == k[0]);
    // the first colon
    let colon = seq![':'];
    assert(crate::text::occurs_at(t, colon, k.len() as int)) by {
        assert(t.subrange(k.len() as int, k.len() as int + 1) =~= colon);
    }
    assert forall|j: int| 0 <= j < k.len() implies !crate::text::occurs_at(t, colon, j) by {
        if crate::text::occurs_at(t, colon, j) {
            assert(t.subrange(j, j + 1)[0] == t[j]);
            assert(t[j] == k[j]);
        }
    }
    crate::text::lemma_find_first(t, colon, k.len() as int);
    assert(t.take(k.len() as int) =~= k);
    assert(trim(k) == k) by {
        assert(crate::text::ltrim(k) == k);
    }
    let rest = t.skip(k.len() as int + 1);
    if v.len() == 0 {
        assert(rest =~= Seq::<char>::empty());
        assert(trim(rest) =~= Seq::<char>::empty());
    } else {
        assert(rest =~= seq![' '] + v);
        assert(rest.drop_first() =~= v);
        assert(crate::text::ltrim(rest) == crate::text::ltrim(v));
    }
    assert(trim(rest) == v);
    lemma_key_index_absent(e, k);
}

/// Law: serialized entries parse back to the same entries, when they are
/// clean (see [`clean_entries`]).
pub proof fn lemma_parse_serialized_entries(e: Entries)
    requires
        clean_entries(e),
    ensures
        parse_text(entry_lines(e)) == e,
        parse_lines(entry_texts(e)) == e,
    decreases e.len(),
{
    lemma_clean_plain(e);
    lemma_entry_lines(e);
    if e.len() > 0 {
        let init = e.drop_last();
        assert(clean_entries(init)) by {
            assert forall|i: int, j: int| 0 <= i < j < init.len() implies (#[trigger] init[i]).0 != (#[trigger] init[j]).0 by {
                assert(init[i] == e[i] && init[j] == e[j]);
            }
            assert forall|i: int| 0 <= i < init.len() implies clean_key(#[trigger] init[i].0) && clean_value(init[i].1) by {
                assert(init[i] == e[i]);
            }
        }
        lemma_parse_serialized_entries(init);
        assert(entry_texts(e).drop_last() =~= entry_texts(init));
        assert(entry_texts(e).last() == entry_text(e.last()));
        let (k, v) = e.last();
        assert(clean_key(e[e.len() - 1].0) && clean_value(e[e.len() - 1].1));
        assert forall|j: int| 0 <= j < init.len() implies (#[trigger] init[j]).0 != k by {
            assert(init[j] == e[j]);
        }
        lemma_apply_entry_line(init, k, v);
        assert(init.push((k, v)) =~= e);
    } else {
        assert(entry_texts(e) =~= Seq::<Seq<char>>::empty());
    }
}


pub(crate) proof fn lemma_fence_from_at(ls: Seq<Seq<char>>, from: int, k: int)
    requires
        0 <= from <= k < ls.len(),
        forall|j: int| from <= j < k ==> !is_fence_line(#[trigger] ls[j]),
        is_fence_line(ls[k]),
    ensures
        fence_from(ls, from) == k,
    decreases k - from,
{
    if from < k {
        lemma_fence_from_at(ls, from + 1, k);
    }
}

/// A clean entry's line is no fence.
proof fn lemma_entry_not_fence(k: Seq<char>, v: Seq<char>)
    requires
        clean_key(k),
        clean_value(v),
    ensures
        !is_fence_line(entry_text((k, v))),
{
    let line = entry_text((k, v));
    assert(crate::text::ltrim(line) == line);
    let t = trim(line);
    if v.len() == 0 {
        assert(line =~= k + seq![':', ' ']);
        assert(line.drop_last() =~= k + seq![':']);
        assert(crate::text::rtrim(line) == crate::text::rtrim(k + seq![':']));
        assert(crate::text::rtrim(k + seq![':']) == k + seq![':']);
        assert(t == k + seq![':']);
    } else {
        lemma_value_ends(v);
        assert(line.last() == v.last());
        assert(t == line);
    }
    assert(t[k.len() as int] == ':');
    if t == fence() {
        assert(fence()[k.len() as int] == '-');
    }
}

/// Law: a document put together from clean frontmatter and a body splits
/// back into the same frontmatter and body, when the body has no carriage
/// return and neither starts nor ends with a newline.
pub proof fn lemma_split_joined(e: Entries, body: Seq<char>)
    requires
        clean_entries(e),
        e.len() > 0,
        forall|i: int| 0 <= i < body.len() ==> #[trigger] body[i] != '\r',
        body.len() > 0 ==> body[0] != '\n' && body.last() != '\n',
    ensures
        split_spec(joined(Some(e), body)) == (Some(e), body),
{
    lemma_clean_plain(e);
    lemma_serialized_lines(e);
    lemma_parse_serialized_entries(e);
    let doc = joined(Some(e), body);
    assert(doc =~= serialized(e) + (seq!['\n'] + body));
    crate::text::lemma_lines_append(serialized(e), seq!['\n'] + body);
    crate::text::lemma_lines_cons(Seq::<char>::empty(), body);
    assert(Seq::<char>::empty() + seq!['\n'] + body =~= seq!['\n'] + body);
    assert(crate::text::strip_cr(Seq::<char>::empty()) =~= Seq::<char>::empty());
    let kvs = entry_texts(e);
    let ls = lines(doc);
    assert(ls =~= seq![fence()] + kvs + seq![fence()] + seq![Seq::<char>::empty()] + lines(body));
    let n = e.len() as int;
    assert(trim(fence()) == fence()) by {
        assert(crate::text::ltrim(fence()) == fence());
    }
    assert(is_fence_line(ls[0]));
    assert forall|j: int| 1 <= j < n + 1 implies !is_fence_line(#[trigger] ls[j]) by {
        assert(ls[j] == kvs[j - 1]);
        assert(clean_key(e[j - 1].0) && clean_value(e[j - 1].1));
        lemma_entry_not_fence(e[j - 1].0, e[j - 1].1);
    }
    assert(ls[n + 1] == fence());
    lemma_fence_from_at(ls, 1, n + 1);
    // the frontmatter
    assert(ls.subrange(1, n + 1) =~= kvs);
    crate::text::lemma_lines_join(kvs);
    assert(kvs.last() == entry_text(e.last()));
    assert(entry_text(e.last()).len() > 0) by {
        assert(clean_key(e[n - 1].0));
    }
    // the body
    crate::text::lemma_join_lines(body);
    let after = ls.skip(n + 2);
    assert(after =~= seq![Seq::<char>::empty()] + lines(body));
    let jb = join(lines(body), seq!['\n']);
    if lines(body).len() == 0 {
        assert(after =~= seq![Seq::<char>::empty()]);
        assert(join(after, seq!['\n']) =~= Seq::<char>::empty());
        assert(body.len() == 0) by {
            if body.len() > 0 {
                crate::text::lemma_nl_index_props(body);
            }
        }
        assert(strip_leading(Seq::<char>::empty(), '\n') =~= Seq::<char>::empty());
    } else {
        crate::text::lemma_join_front(after, seq!['\n']);
        assert(after.drop_first() =~= lines(body));
        assert(join(after, seq!['\n']) =~= seq!['\n'] + jb);
        assert(body == jb) by {
            if body != jb {
                assert(body == jb + seq!['\n']);
                assert(body.last() == '\n');
            }
        }
        assert((seq!['\n'] + jb).drop_first() =~= jb);
        assert(strip_leading(seq!['\n'] + jb, '\n') == strip_leading(jb, '\n'));
        assert(body.len() > 0);
    }
}

} // verus!
