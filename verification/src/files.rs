//! The workspace file tree: which children of a folder are shown, and in what
//! order.

use vstd::prelude::*;

use crate::okf::catalog::is_permutation;
use crate::okf::paths::{path_absolute, path_is_absolute, path_join, path_joined};
use crate::text::{chars_of, has_prefix_at, lex_lt, starts_with, str_eq, str_lt};

verus! {

/// A child of a folder.
#[derive(Debug, Clone)]
pub struct FileItem {
    pub name: String,
    pub path: String,
    pub is_dir: bool,
}

/// A registered workspace.
#[derive(Debug, Clone)]
pub struct Workspace {
    pub name: String,
    pub path: String,
}

/// A child is shown unless it is hidden (a dot name) or the local data store.
pub open spec fn shown(name: Seq<char>) -> bool {
    !(name.len() > 0 && name[0] == '.') && name != "daw.db"@ && name != "oa.db"@
}

/// Whether a child of this name is shown.
pub fn is_shown(name: &str) -> (r: bool)
    ensures
        r == shown(name@),
{
    let v = chars_of(name);
    let dot = v.len() > 0 && v[0] == '.';
    !dot && !str_eq(name, "daw.db") && !str_eq(name, "oa.db")
}

pub open spec fn item_view(f: FileItem) -> (Seq<char>, Seq<char>, bool) {
    (f.name@, f.path@, f.is_dir)
}

pub open spec fn item_views(v: Seq<FileItem>) -> Seq<(Seq<char>, Seq<char>, bool)> {
    Seq::new(v.len(), |i: int| item_view(v[i]))
}

/// The shown children, in the order given.
pub open spec fn shown_items(v: Seq<(Seq<char>, Seq<char>, bool)>) -> Seq<(Seq<char>, Seq<char>, bool)>
    decreases v.len(),
{
    if v.len() == 0 {
        Seq::empty()
    } else {
        let prev = shown_items(v.drop_last());
        if shown(v.last().0) {
            prev.push(v.last())
        } else {
            prev
        }
    }
}

/// `a` is listed before `b`: folders first, then by name.
pub open spec fn listed_before(a: (Seq<char>, Seq<char>, bool), b: (Seq<char>, Seq<char>, bool)) -> bool {
    (a.2 && !b.2) || (a.2 == b.2 && lex_lt(a.0, b.0))
}

/// `out` is `inp` stably sorted: folders first, then by name; ties keep
/// their order.
pub open spec fn tree_sorted(out: Seq<(Seq<char>, Seq<char>, bool)>, inp: Seq<(Seq<char>, Seq<char>, bool)>) -> bool {
    exists|p: Seq<int>| {
        &&& is_permutation(p, inp.len() as int)
        &&& out.len() == inp.len()
        &&& forall|i: int| 0 <= i < out.len() ==> #[trigger] out[i] == inp[p[i]]
        &&& forall|i: int, j: int| 0 <= i < j < out.len() ==> !listed_before(#[trigger] out[j], #[trigger] out[i])
            && ((out[i].2 == out[j].2 && out[i].0 == out[j].0) ==> p[i] < p[j])
    }
}

proof fn lemma_listed_total(a: (Seq<char>, Seq<char>, bool), b: (Seq<char>, Seq<char>, bool))
    ensures
        listed_before(a, b) || listed_before(b, a) || (a.2 == b.2 && a.0 == b.0),
        !(listed_before(a, b) && listed_before(b, a)),
{
    crate::text::lemma_lex_total(a.0, b.0);
}

proof fn lemma_listed_trans(a: (Seq<char>, Seq<char>, bool), b: (Seq<char>, Seq<char>, bool), c: (Seq<char>, Seq<char>, bool))
    requires
        listed_before(a, b) || (a.2 == b.2 && a.0 == b.0),
        listed_before(b, c),
    ensures
        listed_before(a, c),
{
    if a.2 == b.2 && b.2 == c.2 && a.0 != b.0 {
        crate::text::lemma_lex_trans(a.0, b.0, c.0);
    }
}

fn before(a: &FileItem, b: &FileItem) -> (r: bool)
    ensures
        r == listed_before(item_view(*a), item_view(*b)),
{
    (a.is_dir && !b.is_dir) || (a.is_dir == b.is_dir && str_lt(a.name.as_str(), b.name.as_str()))
}

fn copy_item(f: &FileItem) -> (r: FileItem)
    ensures
        item_view(r) == item_view(*f),
{
    FileItem { name: f.name.clone(), path: f.path.clone(), is_dir: f.is_dir }
}

/// The children of a folder as the file tree lists them: hidden names and
/// the data store left out, folders first, then by name.
#[verifier::rlimit(60)]
pub fn read_directory(entries: &[FileItem]) -> (r: Vec<FileItem>)
    ensures
        tree_sorted(item_views(r@), shown_items(item_views(entries@))),
{
    let ghost ev = item_views(entries@);
    let mut items: Vec<FileItem> = Vec::new();
    let mut k: usize = 0;
    while k < entries.len()
        invariant
            k <= entries.len(),
            ev == item_views(entries@),
            item_views(items@) == shown_items(ev.take(k as int)),
        decreases entries.len() - k,
    {
        proof {
            assert(ev.take(k + 1).drop_last() =~= ev.take(k as int));
            assert(ev.take(k + 1).last() == ev[k as int]);
        }
        if is_shown(entries[k].name.as_str()) {
            let x = copy_item(&entries[k]);
            let ghost before_items = items@;
            items.push(x);
            proof {
                assert(item_views(items@) =~= item_views(before_items).push(ev[k as int]));
            }
        }
        k = k + 1;
    }
    proof {
        assert(ev.take(entries@.len() as int) =~= ev);
    }
    let ghost inp = item_views(items@);
    let mut out: Vec<FileItem> = Vec::new();
    let ghost mut p: Seq<int> = Seq::empty();
    let mut m: usize = 0;
    while m < items.len()
        invariant
            m <= items@.len(),
            inp == item_views(items@),
            is_permutation(p, m as int),
            out@.len() == m,
            forall|i: int| 0 <= i < out@.len() ==> #[trigger] item_views(out@)[i] == inp[p[i]],
            forall|i: int, j: int| 0 <= i < j < out@.len() ==> !listed_before(#[trigger] item_views(out@)[j], #[trigger] item_views(out@)[i])
                && ((item_views(out@)[i].2 == item_views(out@)[j].2 && item_views(out@)[i].0 == item_views(out@)[j].0) ==> p[i] < p[j]),
        decreases items@.len() - m,
    {
        let x = copy_item(&items[m]);
        proof {
            assert(inp[m as int] == item_view(x));
        }
        let mut pos: usize = 0;
        while pos < out.len() && !before(&x, &out[pos])
            invariant
                pos <= out@.len(),
                forall|i: int| 0 <= i < pos ==> !listed_before(item_view(x), item_view(#[trigger] out@[i])),
            decreases out@.len() - pos,
        {
            pos = pos + 1;
        }
        let ghost old_out = out@;
        let ghost ov = item_views(out@);
        let ghost old_p = p;
        let ghost xv = item_view(x);
        proof {
            assert forall|i: int| 0 <= i < pos implies !listed_before(xv, #[trigger] ov[i]) by {
                assert(ov[i] == item_view(old_out[i]));
            }
            if pos < old_out.len() {
                assert(listed_before(xv, ov[pos as int]));
                assert forall|j: int| pos <= j < ov.len() implies listed_before(xv, #[trigger] ov[j]) by {
                    if j > pos {
                        assert(!listed_before(ov[j], ov[pos as int]));
                        lemma_listed_total(ov[pos as int], ov[j]);
                        if listed_before(ov[pos as int], ov[j]) {
                            lemma_listed_trans(xv, ov[pos as int], ov[j]);
                        }
                    }
                }
            }
        }
        out.insert(pos, x);
        proof {
            p = old_p.insert(pos as int, m as int);
            old_p.insert_ensures(pos as int, m as int);
            old_out.insert_ensures(pos as int, x);
            let nv = item_views(out@);
            assert forall|i: int| 0 <= i < nv.len() implies #[trigger] nv[i] == (if i < pos {
                ov[i]
            } else if i == pos {
                xv
            } else {
                ov[i - 1]
            }) by {
                if i > pos {
                    assert(out@[i] == old_out[i - 1]);
                }
            }
            assert(is_permutation(p, m + 1)) by {
                assert forall|i: int, j: int| 0 <= i < j < m + 1 implies p[i] != p[j] by {
                    if i < pos && j > pos {
                        assert(p[j] == old_p[j - 1]);
                    } else if i > pos {
                        assert(p[i] == old_p[i - 1] && p[j] == old_p[j - 1]);
                    }
                }
                assert forall|i: int| 0 <= i < m + 1 implies 0 <= #[trigger] p[i] < m + 1 by {
                    if i > pos {
                        assert(p[i] == old_p[i - 1]);
                    }
                }
            }
            assert forall|i: int| 0 <= i < nv.len() implies #[trigger] nv[i] == inp[p[i]] by {
                if i > pos {
                    assert(p[i] == old_p[i - 1]);
                }
            }
            assert forall|i: int, j: int| 0 <= i < j < nv.len() implies !listed_before(#[trigger] nv[j], #[trigger] nv[i])
                && ((nv[i].2 == nv[j].2 && nv[i].0 == nv[j].0) ==> p[i] < p[j]) by {
                if j < pos {
                } else if j == pos {
                    assert(old_p[i] < m);
                } else if i == pos {
                    assert(nv[j] == ov[j - 1]);
                    assert(listed_before(xv, ov[j - 1]));
                    lemma_listed_total(xv, ov[j - 1]);
                } else if i < pos {
                    assert(p[j] == old_p[j - 1]);
                } else {
                    assert(p[i] == old_p[i - 1]);
                    assert(p[j] == old_p[j - 1]);
                }
            }
        }
        m = m + 1;
    }
    proof {
        let ov = item_views(out@);
        assert(is_permutation(p, inp.len() as int));
        assert(ov.len() == inp.len());
        assert(forall|i: int| 0 <= i < ov.len() ==> #[trigger] ov[i] == inp[p[i]]);
    }
    out
}

/// A path given to the file tree: `~` and `~/…` under the home directory
/// (its lookup failing is an error), absolute paths as given, anything else
/// under the application directory (whose lookup error is passed on).
pub open spec fn resolved(workspace: Seq<char>, home: Option<Seq<char>>, app_dir: Result<Seq<char>, Seq<char>>) -> Result<Seq<char>, Seq<char>> {
    if starts_with(workspace, "~/"@) || workspace == "~"@ {
        match home {
            None => Err("Could not find home directory"@),
            Some(h) => Ok(if workspace.len() > 2 { path_joined(h, workspace.skip(2)) } else { h }),
        }
    } else if path_absolute(workspace) {
        Ok(workspace)
    } else {
        match app_dir {
            Ok(d) => Ok(path_joined(d, workspace)),
            Err(e) => Err(e),
        }
    }
}

pub open spec fn result_view(r: Result<String, String>) -> Result<Seq<char>, Seq<char>> {
    match r {
        Ok(x) => Ok(x@),
        Err(e) => Err(e@),
    }
}

/// Resolves a path of the file tree (see [`resolved`]).
pub fn resolve_path(workspace: &str, home: Option<String>, app_dir: Result<String, String>) -> (r: Result<String, String>)
    ensures
        result_view(r) == resolved(workspace@, match home { Some(h) => Some(h@), None => None }, result_view(app_dir)),
{
    let v = chars_of(workspace);
    let tilde = chars_of("~/");
    proof {
        reveal_strlit("~/");
        reveal_strlit("~");
        assert(v@.subrange(0, v@.len() as int) =~= v@);
    }
    if has_prefix_at(&v, 0, v.len(), tilde.as_slice()) || str_eq(workspace, "~") {
        return match home {
            None => Err("Could not find home directory".to_owned()),
            Some(h) => {
                if v.len() > 2 {
                    let rest = crate::text::string_of_range(&v, 2, v.len());
                    proof {
                        assert(v@.subrange(2, v@.len() as int) =~= workspace@.skip(2));
                    }
                    Ok(path_join(h.as_str(), rest.as_str()))
                } else {
                    Ok(h)
                }
            },
        };
    }
    if path_is_absolute(workspace) {
        return Ok(workspace.to_owned());
    }
    match app_dir {
        Ok(d) => Ok(path_join(d.as_str(), workspace)),
        Err(e) => Err(e),
    }
}

} // verus!
