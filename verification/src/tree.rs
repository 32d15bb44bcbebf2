//! The tree view of a bookmark directory: folders first, then bookmarks, each by name.
use crate::checker::{has_url_extension, url_stem};
use crate::fs::{
    entries_size, entry_size, lemma_entries_size_member, lemma_sort_size, sort_entries,
    sort_entry_vec, FsEntry,
};
use crate::importer::{join_path, join_path_string};
use crate::shortcut::{
    find_key_line, key_line, law_url_survives_shortcut, lemma_key_line_form, shortcut_text, url_key,
};
use crate::text::trim_end;
use crate::text::{char_vec, string_of};
use vstd::prelude::*;

verus! {

/// A node of the tree view, as values.
pub enum TreeSpec {
    Folder { name: Seq<char>, path: Seq<char>, children: Seq<TreeSpec> },
    Bookmark { name: Seq<char>, path: Seq<char>, url: Seq<char> },
}

/// A node of the tree view: a folder with its children, or a bookmark with its URL.
pub struct TreeNode {
    pub name: String,
    pub path: String,
    pub is_folder: bool,
    pub url: String,
    pub children: Vec<TreeNode>,
}

pub open spec fn tree_view(t: TreeNode) -> TreeSpec
    decreases t,
{
    if t.is_folder {
        TreeSpec::Folder { name: t.name@, path: t.path@, children: trees_view(t.children@) }
    } else {
        TreeSpec::Bookmark { name: t.name@, path: t.path@, url: t.url@ }
    }
}

pub open spec fn trees_view(s: Seq<TreeNode>) -> Seq<TreeSpec>
    decreases s,
{
    if s.len() == 0 {
        seq![]
    } else {
        trees_view(s.drop_last()).push(tree_view(s.last()))
    }
}

/// `t` without all the `URL=` at its start (`trim_start_matches("URL=")`).
pub open spec fn strip_keys(t: Seq<char>) -> Seq<char>
    decreases t.len(),
{
    if t.len() >= 4 && t.take(4) == url_key() {
        strip_keys(t.skip(4))
    } else {
        t
    }
}

/// The URL the tree view shows for a shortcut file's text: its [`key_line`] without the
/// `URL=` keys at its start; empty when the text has no such line or could not be read.
pub open spec fn listing_url(content: Option<String>) -> Seq<char> {
    match content {
        Some(c) => match key_line(c@) {
            Some(t) => strip_keys(t),
            None => seq![],
        },
        None => seq![],
    }
}

/// The tree view of an entry at `path`: a directory whose entries could be read becomes a
/// folder with the tree views of its entries, directories before files and each by name
/// (entries that give none left out); a file with the extension `url` becomes a bookmark
/// named by its stem; anything else gives none.
pub open spec fn tree_entry(e: FsEntry, path: Seq<char>, sep: char) -> Option<TreeSpec>
    decreases entry_size(e), 0int,
{
    if e.is_dir {
        if e.listed {
            proof {
                lemma_sort_size(e.children@, true);
            }
            Some(
                TreeSpec::Folder {
                    name: e.name@,
                    path,
                    children: tree_entries(sort_entries(e.children@, true), path, sep),
                },
            )
        } else {
            None
        }
    } else if has_url_extension(e.name@) {
        Some(TreeSpec::Bookmark { name: url_stem(e.name@), path, url: listing_url(e.content) })
    } else {
        None
    }
}

/// The tree views of the entries of the directory at `dir`, in the given order, each at the
/// path `dir` joined with its name by the separator `sep`.
pub open spec fn tree_entries(s: Seq<FsEntry>, dir: Seq<char>, sep: char) -> Seq<TreeSpec>
    decreases entries_size(s), 1int,
{
    if s.len() == 0 {
        seq![]
    } else {
        proof {
            lemma_entries_size_member(s, s.len() - 1);
        }
        let rest = tree_entries(s.drop_last(), dir, sep);
        match tree_entry(s.last(), join_path(dir, s.last().name@, sep), sep) {
            Some(t) => rest.push(t),
            None => rest,
        }
    }
}

/// The URL the tree view shows for a shortcut file (see [`listing_url`]).
pub fn read_url(content: &Option<String>) -> (r: String)
    ensures
        r@ == listing_url(*content),
{
    match content {
        None => String::new(),
        Some(c) => match find_key_line(c.as_str()) {
            None => String::new(),
            Some((v, a, b)) => {
                let ghost t = v@.subrange(a as int, b as int);
                let mut k = a;
                assert(v@.subrange(k as int, b as int) == t);
                while b - k >= 4 && v[k] == 'U' && v[k + 1] == 'R' && v[k + 2] == 'L' && v[k + 3]
                    == '='
                    invariant
                        a <= k <= b <= v@.len(),
                        strip_keys(t) == strip_keys(v@.subrange(k as int, b as int)),
                    decreases b - k,
                {
                    let ghost u = v@.subrange(k as int, b as int);
                    assert(u.take(4) =~= url_key());
                    assert(u.skip(4) == v@.subrange(k + 4, b as int));
                    k = k + 4;
                }
                proof {
                    let u = v@.subrange(k as int, b as int);
                    if u.len() >= 4 && u.take(4) == url_key() {
                        assert(u.take(4)[0] == u[0] && u[0] == v@[k as int]);
                        assert(u.take(4)[1] == u[1] && u[1] == v@[k + 1]);
                        assert(u.take(4)[2] == u[2] && u[2] == v@[k + 2]);
                        assert(u.take(4)[3] == u[3] && u[3] == v@[k + 3]);
                    }
                }
                string_of(&v, k, b)
            },
        },
    }
}

/// The tree view of an entry at `path` (see [`tree_entry`]); `None` for an entry that gives
/// none.
pub fn dir_node(e: FsEntry, path: String, sep: char) -> (r: Option<TreeNode>)
    ensures
        match tree_entry(e, path@, sep) {
            None => r is None,
            Some(t) => (r matches Some(n) && tree_view(n) == t),
        },
    decreases entry_size(e), 0int,
{
    let ghost ge = e;
    let FsEntry { name, is_dir, is_file: _, listed, modified: _, content, children } = e;
    if is_dir {
        if !listed {
            return None;
        }
        proof {
            lemma_sort_size(children@, true);
        }
        let sorted = sort_entry_vec(children, true);
        let kids = tree_children(sorted, path.as_str(), sep);
        Some(TreeNode { name, path, is_folder: true, url: String::new(), children: kids })
    } else {
        let v = char_vec(name.as_str());
        if v.len() > 4 && v[v.len() - 4] == '.' && v[v.len() - 3] == 'u' && v[v.len() - 2] == 'r'
            && v[v.len() - 1] == 'l' {
            assert(v@.subrange(v.len() - 4, v.len() as int) =~= crate::exporter::url_ext());
            let stem = string_of(&v, 0, v.len() - 4);
            let url = read_url(&content);
            Some(TreeNode { name: stem, path, is_folder: false, url, children: Vec::new() })
        } else {
            proof {
                if v.len() > 4 {
                    let t = v@.subrange(v.len() - 4, v.len() as int);
                    if t == crate::exporter::url_ext() {
                        assert(t[0] == v@[v.len() - 4]);
                        assert(t[1] == v@[v.len() - 3]);
                        assert(t[2] == v@[v.len() - 2]);
                        assert(t[3] == v@[v.len() - 1]);
                    }
                }
            }
            None
        }
    }
}

/// The tree views of the entries of the directory at `dir` (see [`tree_entries`]).
pub fn tree_children(s: Vec<FsEntry>, dir: &str, sep: char) -> (r: Vec<TreeNode>)
    ensures
        trees_view(r@) == tree_entries(s@, dir@, sep),
    decreases entries_size(s@), 1int,
{
    let ghost orig = s@;
    let mut out: Vec<TreeNode> = Vec::new();
    for e in it: s
        invariant
            it.seq() == orig,
            orig == s@,
            trees_view(out@) == tree_entries(orig.take(it.index() as int), dir@, sep),
    {
        let ghost k = it.index() as int;
        proof {
            lemma_entries_size_member(orig, k);
            assert(orig.take(k + 1).drop_last() == orig.take(k));
            assert(orig.take(k + 1).last() == orig[k]);
            assert(e == orig[k]);
        }
        let p = join_path_string(dir, e.name.as_str(), sep);
        match dir_node(e, p, sep) {
            Some(t) => {
                let ghost o = out@;
                out.push(t);
                assert(out@.drop_last() == o);
            },
            None => {},
        }
    }
    assert(orig.take(orig.len() as int) == orig);
    out
}

/// The tree view shows the URL of a shortcut file that the importer wrote, whatever the URL:
/// reading back the text written for `url` gives `url` less any whitespace at its end,
/// provided the URL holds no line break and does not itself start with `URL=`.
pub proof fn law_tree_shows_shortcut_url(content: String, url: Seq<char>)
    requires
        content@ == shortcut_text(url),
        forall|i: int| 0 <= i < url.len() ==> url[i] != '\n',
        !(trim_end(url).len() >= 4 && trim_end(url).take(4) == url_key()),
    ensures
        listing_url(Some(content)) == trim_end(url),
{
    law_url_survives_shortcut(url);
    lemma_key_line_form(content@);
    let t = key_line(content@)->0;
    assert(t.skip(4) == trim_end(url));
    assert(t.skip(4).len() < 4 || t.skip(4).take(4) != url_key());
    assert(strip_keys(t) == strip_keys(t.skip(4)));
}

} // verus!
