//! What survives an import followed by an export.
use crate::exporter::{
    bookmark_line, ends_with_url, escape, export_header, export_spec, folder_close, folder_open,
    indent, next_depth, render_dir, render_entries, render_entry, url_or_empty,
};
use crate::fs::{insert_entry, sort_entries, FsEntry};
use crate::dom::{
    first_in_forest, forest_size, lemma_first_in_size, lemma_forest_size_member, DomNode,
};
use crate::importer::{
    href_of, is_item, item_step, nested_items, plan_bookmarks, plan_folders, plan_items, PlanSpec,
};
use crate::shortcut::{law_url_survives_shortcut, shortcut_text};
use crate::text::{int_decimal, trim_end};
use vstd::multiset::Multiset;
use vstd::prelude::*;

verus! {

/// `n` occurs in `h`.
pub open spec fn contains(h: Seq<char>, n: Seq<char>) -> bool {
    exists|i: int| 0 <= i && i + n.len() <= h.len() && #[trigger] h.subrange(i, i + n.len()) == n
}

/// The start of the exported line of a bookmark to `url`, up to the end of its `HREF`.
pub open spec fn href_text(url: Seq<char>) -> Seq<char> {
    "<DT><A HREF=\""@ + escape(url) + "\""@
}

/// A shortcut file for `url`.
pub open spec fn bookmark_file(f: FsEntry, url: Seq<char>) -> bool {
    &&& !f.is_dir
    &&& ends_with_url(f.name@)
    &&& f.content matches Some(c) && c@ == shortcut_text(url)
}

/// Every entry of the plan is found in the directory: a bookmark as a shortcut file for its
/// URL (under whatever name), a folder as a readable directory in which its entries are
/// found in turn. The directory may hold more.
pub open spec fn realizes(d: Seq<FsEntry>, p: Seq<PlanSpec>) -> bool
    decreases p,
{
    if p.len() == 0 {
        true
    } else {
        realizes(d, p.drop_last()) && match p.last() {
            PlanSpec::Bookmark { url, .. } => exists|i: int|
                0 <= i < d.len() && bookmark_file(#[trigger] d[i], url),
            PlanSpec::Folder { entries, .. } => exists|i: int|
                0 <= i < d.len() && (#[trigger] d[i]).is_dir && d[i].listed && realizes(
                    d[i].children@,
                    entries,
                ),
        }
    }
}

/// The plan has a bookmark to `url`, at any depth.
pub open spec fn plan_has_url(p: Seq<PlanSpec>, url: Seq<char>) -> bool
    decreases p,
{
    if p.len() == 0 {
        false
    } else {
        plan_has_url(p.drop_last(), url) || match p.last() {
            PlanSpec::Bookmark { url: u, .. } => u == url,
            PlanSpec::Folder { entries, .. } => plan_has_url(entries, url),
        }
    }
}

pub proof fn lemma_contains_concat(a: Seq<char>, b: Seq<char>, c: Seq<char>, n: Seq<char>)
    requires
        contains(b, n),
    ensures
        contains(a + b + c, n),
{
    let i = choose|i: int| 0 <= i && i + n.len() <= b.len() && #[trigger] b.subrange(i, i + n.len()) == n;
    let j = a.len() + i;
    assert((a + b + c).subrange(j, j + n.len()) =~= b.subrange(i, i + n.len()));
    assert(0 <= j && j + n.len() <= (a + b + c).len());
}

pub proof fn lemma_contains_whole(n: Seq<char>)
    ensures
        contains(n, n),
{
    assert(n.subrange(0int, 0int + n.len()) =~= n);
}

pub proof fn lemma_contains_trans(x: Seq<char>, y: Seq<char>, z: Seq<char>)
    requires
        contains(x, y),
        contains(y, z),
    ensures
        contains(x, z),
{
    let i = choose|i: int| 0 <= i && i + y.len() <= x.len() && #[trigger] x.subrange(i, i + y.len()) == y;
    let k = choose|k: int| 0 <= k && k + z.len() <= y.len() && #[trigger] y.subrange(k, k + z.len()) == z;
    assert(x.subrange(i + k, i + k + z.len()) =~= y.subrange(k, k + z.len()));
}

pub proof fn lemma_insert_keeps(s: Seq<FsEntry>, x: FsEntry, files_last: bool, j: int)
    requires
        0 <= j < s.len(),
    ensures
        insert_entry(s, x, files_last).contains(s[j]),
        insert_entry(s, x, files_last).contains(x),
    decreases s.len(),
{
    let r = insert_entry(s, x, files_last);
    if crate::fs::entry_le(x, s[0], files_last) {
        assert(r[j + 1] == s[j]);
        assert(r[0] == x);
    } else {
        if j == 0 {
            assert(r[0] == s[0]);
        } else {
            lemma_insert_keeps(s.drop_first(), x, files_last, j - 1);
            let k = choose|k: int| 0 <= k < r.len() - 1 && insert_entry(s.drop_first(), x, files_last)[k] == s[j];
            assert(r[k + 1] == s[j]);
        }
        if s.len() == 1 {
            assert(r[1] == x);
        } else {
            lemma_insert_keeps(s.drop_first(), x, files_last, 0);
            let k = choose|k: int| 0 <= k < r.len() - 1 && insert_entry(s.drop_first(), x, files_last)[k] == x;
            assert(r[k + 1] == x);
        }
    }
}

/// Sorting keeps every entry.
pub proof fn lemma_sort_keeps(s: Seq<FsEntry>, files_last: bool, j: int)
    requires
        0 <= j < s.len(),
    ensures
        sort_entries(s, files_last).contains(s[j]),
    decreases s.len(),
{
    let rest = sort_entries(s.drop_first(), files_last);
    crate::fs::lemma_sort_size(s.drop_first(), files_last);
    if j == 0 {
        if rest.len() == 0 {
            assert(insert_entry(rest, s[0], files_last)[0] == s[0]);
        } else {
            lemma_insert_keeps(rest, s[0], files_last, 0);
        }
    } else {
        lemma_sort_keeps(s.drop_first(), files_last, j - 1);
        let k = choose|k: int| 0 <= k < rest.len() && rest[k] == s[j];
        lemma_insert_keeps(rest, s[0], files_last, k);
    }
}

/// Each entry's export is part of the export of the sequence.
pub proof fn lemma_render_member(s: Seq<FsEntry>, depth: nat, j: int)
    requires
        0 <= j < s.len(),
        render_entries(s, depth) is Some,
    ensures
        render_entry(s[j], depth) is Some,
        contains(render_entries(s, depth)->0.html, render_entry(s[j], depth)->0.html),
    decreases s.len(),
{
    let prev = render_entries(s.drop_last(), depth)->0;
    let last = render_entry(s.last(), depth)->0;
    assert(render_entries(s, depth)->0.html == prev.html + last.html);
    if j == s.len() - 1 {
        lemma_contains_whole(last.html);
        lemma_contains_concat(prev.html, last.html, seq![], last.html);
        assert(prev.html + last.html + Seq::<char>::empty() == prev.html + last.html);
    } else {
        lemma_render_member(s.drop_last(), depth, j);
        assert(s.drop_last()[j] == s[j]);
        lemma_contains_concat(seq![], prev.html, last.html, render_entry(s[j], depth)->0.html);
        assert(Seq::<char>::empty() + prev.html + last.html == prev.html + last.html);
    }
}

/// Each entry of a directory is exported somewhere in the directory's export.
pub proof fn lemma_dir_member(d: Seq<FsEntry>, depth: nat, j: int)
    requires
        0 <= j < d.len(),
        render_dir(d, depth) is Some,
    ensures
        render_entry(d[j], depth) is Some,
        contains(render_dir(d, depth)->0.html, render_entry(d[j], depth)->0.html),
{
    let s = sort_entries(d, false);
    lemma_sort_keeps(d, false, j);
    let k = choose|k: int| 0 <= k < s.len() && s[k] == d[j];
    lemma_render_member(s, depth, k);
}

pub proof fn lemma_href_in_line(url: Seq<char>, date: int, title: Seq<char>, depth: nat)
    ensures
        contains(bookmark_line(url, date, title, depth), href_text(url)),
{
    reveal_strlit("\" ADD_DATE=\"");
    reveal_strlit("\"");
    let rest = "\" ADD_DATE=\""@ + int_decimal(date) + "\">"@ + escape(title) + "</A>\n"@;
    assert(rest == "\""@ + rest.skip(1));
    let h = href_text(url);
    assert(bookmark_line(url, date, title, depth) == indent(depth) + h + rest.skip(1));
    lemma_contains_whole(h);
    lemma_contains_concat(indent(depth), h, rest.skip(1), h);
}

/// Every bookmark of the plan whose URL holds no line break and is not blank appears in
/// the export of any directory that realizes the plan, with its URL less any whitespace at
/// its end, escaped (see [`href_text`]).
pub proof fn lemma_urls_kept(d: Seq<FsEntry>, p: Seq<PlanSpec>, url: Seq<char>, depth: nat)
    requires
        realizes(d, p),
        plan_has_url(p, url),
        forall|i: int| 0 <= i < url.len() ==> url[i] != '\n',
        trim_end(url).len() > 0,
        render_dir(d, depth) is Some,
    ensures
        contains(render_dir(d, depth)->0.html, href_text(trim_end(url))),
    decreases p,
{
    let out = render_dir(d, depth)->0.html;
    if plan_has_url(p.drop_last(), url) {
        lemma_urls_kept(d, p.drop_last(), url, depth);
    } else {
        match p.last() {
            PlanSpec::Bookmark { url: u, .. } => {
                let i = choose|i: int| 0 <= i < d.len() && bookmark_file(#[trigger] d[i], u);
                lemma_dir_member(d, depth, i);
                let f = d[i];
                law_url_survives_shortcut(url);
                assert(url_or_empty(f.content->0@) == trim_end(url));
                let line = bookmark_line(
                    trim_end(url),
                    f.modified as int,
                    crate::exporter::strip_url_ext(f.name@),
                    depth,
                );
                assert(render_entry(f, depth)->0.html == line);
                lemma_href_in_line(
                    trim_end(url),
                    f.modified as int,
                    crate::exporter::strip_url_ext(f.name@),
                    depth,
                );
                lemma_contains_trans(out, line, href_text(trim_end(url)));
            },
            PlanSpec::Folder { entries, .. } => {
                let i = choose|i: int|
                    0 <= i < d.len() && (#[trigger] d[i]).is_dir && d[i].listed && realizes(
                        d[i].children@,
                        entries,
                    );
                lemma_dir_member(d, depth, i);
                let f = d[i];
                let nd = next_depth(depth);
                let inner = render_dir(f.children@, nd)->0;
                assert(render_entry(f, depth)->0.html == folder_open(
                    f.name@,
                    f.modified as int,
                    depth,
                ) + inner.html + folder_close(depth));
                lemma_urls_kept(f.children@, entries, url, nd);
                lemma_contains_concat(
                    folder_open(f.name@, f.modified as int, depth),
                    inner.html,
                    folder_close(depth),
                    href_text(trim_end(url)),
                );
                lemma_contains_trans(out, render_entry(f, depth)->0.html, href_text(trim_end(url)));
            },
        }
    }
}

/// No bookmark is lost between import and export: for a directory that realizes the import
/// plan, the exported file holds every bookmark's URL (less any whitespace at its end,
/// escaped), as long as the URL holds no line break and is not blank.
pub proof fn law_import_export_keeps_urls(d: Seq<FsEntry>, p: Seq<PlanSpec>, url: Seq<char>)
    requires
        realizes(d, p),
        plan_has_url(p, url),
        forall|i: int| 0 <= i < url.len() ==> url[i] != '\n',
        trim_end(url).len() > 0,
        export_spec(d) is Some,
    ensures
        contains(export_spec(d)->0.html, href_text(trim_end(url))),
{
    lemma_urls_kept(d, p, url, 1);
    let r = render_dir(d, 1)->0;
    lemma_contains_concat(export_header(), r.html, "</DL><p>\n"@, href_text(trim_end(url)));
}


/// The numbers of folders and bookmarks that entries export to, if they export.
pub open spec fn tally(s: Seq<FsEntry>, depth: nat) -> Option<(nat, nat)> {
    match render_entries(s, depth) {
        Some(r) => Some((r.folders, r.bookmarks)),
        None => None,
    }
}

pub open spec fn add_tally(a: Option<(nat, nat)>, b: Option<(nat, nat)>) -> Option<(nat, nat)> {
    match (a, b) {
        (Some(x), Some(y)) => Some((x.0 + y.0, x.1 + y.1)),
        _ => None,
    }
}

pub proof fn lemma_tally_concat(a: Seq<FsEntry>, b: Seq<FsEntry>, depth: nat)
    ensures
        tally(a + b, depth) == add_tally(tally(a, depth), tally(b, depth)),
    decreases b.len(),
{
    if b.len() == 0 {
        assert(a + b == a);
    } else {
        assert((a + b).drop_last() == a + b.drop_last());
        assert((a + b).last() == b.last());
        lemma_tally_concat(a, b.drop_last(), depth);
    }
}

pub proof fn lemma_tally_insert(s: Seq<FsEntry>, x: FsEntry, depth: nat)
    ensures
        tally(insert_entry(s, x, false), depth) == add_tally(tally(s, depth), tally(seq![x], depth)),
    decreases s.len(),
{
    if s.len() == 0 {
        assert(tally(s, depth) == Some((0nat, 0nat)));
    } else if crate::fs::entry_le(x, s[0], false) {
        lemma_tally_concat(seq![x], s, depth);
    } else {
        let t = s.drop_first();
        lemma_tally_insert(t, x, depth);
        lemma_tally_concat(seq![s[0]], insert_entry(t, x, false), depth);
        lemma_tally_concat(seq![s[0]], t, depth);
        assert(seq![s[0]] + t == s);
    }
}

pub proof fn lemma_tally_sort(s: Seq<FsEntry>, depth: nat)
    ensures
        tally(sort_entries(s, false), depth) == tally(s, depth),
    decreases s.len(),
{
    if s.len() > 0 {
        let t = s.drop_first();
        lemma_tally_sort(t, depth);
        lemma_tally_insert(sort_entries(t, false), s[0], depth);
        lemma_tally_concat(seq![s[0]], t, depth);
        assert(seq![s[0]] + t == s);
    }
}

/// A URL that the export keeps: no line break, not blank.
pub open spec fn exportable_url(url: Seq<char>) -> bool {
    &&& forall|i: int| 0 <= i < url.len() ==> url[i] != '\n'
    &&& trim_end(url).len() > 0
}

/// The entries, in the order listed, are exactly the plan's: a shortcut file for each
/// bookmark, whose URL the export keeps, and a readable directory for each folder, holding
/// exactly the folder's entries in turn.
pub open spec fn realizes_exactly(d: Seq<FsEntry>, p: Seq<PlanSpec>) -> bool
    decreases p,
{
    &&& d.len() == p.len()
    &&& p.len() > 0 ==> {
        &&& realizes_exactly(d.drop_last(), p.drop_last())
        &&& match p.last() {
            PlanSpec::Bookmark { url, .. } => bookmark_file(d.last(), url) && exportable_url(url),
            PlanSpec::Folder { entries, .. } => d.last().is_dir && d.last().listed
                && realizes_exactly(d.last().children@, entries),
        }
    }
}

pub proof fn lemma_tally_realized(d: Seq<FsEntry>, p: Seq<PlanSpec>, depth: nat)
    requires
        realizes_exactly(d, p),
    ensures
        tally(d, depth) == Some((plan_folders(p), plan_bookmarks(p))),
    decreases p,
{
    if p.len() > 0 {
        lemma_tally_realized(d.drop_last(), p.drop_last(), depth);
        let f = d.last();
        match p.last() {
            PlanSpec::Bookmark { url, .. } => {
                law_url_survives_shortcut(url);
                assert(url_or_empty(f.content->0@) == trim_end(url));
                assert(render_entry(f, depth) matches Some(r) && r.folders == 0 && r.bookmarks == 1);
            },
            PlanSpec::Folder { entries, .. } => {
                let nd = next_depth(depth);
                lemma_tally_realized(f.children@, entries, nd);
                lemma_tally_sort(f.children@, nd);
                assert(tally(sort_entries(f.children@, false), nd) == Some(
                    (plan_folders(entries), plan_bookmarks(entries)),
                ));
                assert(render_entry(f, depth) matches Some(r) && r.folders == plan_folders(entries) + 1
                    && r.bookmarks == plan_bookmarks(entries));
            },
        }
        assert(d.drop_last() + seq![f] == d);
        assert(render_entries(d, depth) == match (
            render_entries(d.drop_last(), depth),
            render_entry(d.last(), depth),
        ) {
            (Some(a), Some(b)) => Some(crate::exporter::join(a, b)),
            _ => None,
        });
    }
}

/// Import and export count alike: a directory that holds exactly the entries of an import
/// plan (each bookmark's URL free of line breaks and not blank) exports without error, with
/// as many folders and bookmarks as the plan has.
pub proof fn law_import_export_counts(d: Seq<FsEntry>, p: Seq<PlanSpec>)
    requires
        realizes_exactly(d, p),
    ensures
        export_spec(d) matches Some(r) && r.folders == plan_folders(p) && r.bookmarks
            == plan_bookmarks(p),
{
    lemma_tally_realized(d, p, 1);
    lemma_tally_sort(d, 1);
}

/// The URLs of the bookmark lines that entries export to, if they export.
pub open spec fn url_bag(s: Seq<FsEntry>, depth: nat) -> Option<Multiset<Seq<char>>> {
    match render_entries(s, depth) {
        Some(r) => Some(r.urls),
        None => None,
    }
}

pub open spec fn add_bag(
    a: Option<Multiset<Seq<char>>>,
    b: Option<Multiset<Seq<char>>>,
) -> Option<Multiset<Seq<char>>> {
    match (a, b) {
        (Some(x), Some(y)) => Some(x.add(y)),
        _ => None,
    }
}

pub proof fn lemma_bag_concat(a: Seq<FsEntry>, b: Seq<FsEntry>, depth: nat)
    ensures
        url_bag(a + b, depth) == add_bag(url_bag(a, depth), url_bag(b, depth)),
    decreases b.len(),
{
    if b.len() == 0 {
        assert(a + b == a);
        if let Some(x) = url_bag(a, depth) {
            assert(x.add(Multiset::empty()) =~= x);
        }
    } else {
        assert((a + b).drop_last() == a + b.drop_last());
        assert((a + b).last() == b.last());
        lemma_bag_concat(a, b.drop_last(), depth);
        match (url_bag(a, depth), url_bag(b.drop_last(), depth), render_entry(b.last(), depth)) {
            (Some(x), Some(y), Some(z)) => {
                assert(x.add(y).add(z.urls) =~= x.add(y.add(z.urls)));
            },
            _ => {},
        }
    }
}

pub proof fn lemma_bag_insert(s: Seq<FsEntry>, x: FsEntry, depth: nat)
    ensures
        url_bag(insert_entry(s, x, false), depth) == add_bag(url_bag(s, depth), url_bag(seq![x], depth)),
    decreases s.len(),
{
    if s.len() == 0 {
        assert(url_bag(s, depth) == Some(Multiset::<Seq<char>>::empty()));
        if let Some(b) = url_bag(seq![x], depth) {
            assert(Multiset::<Seq<char>>::empty().add(b) =~= b);
        }
    } else if crate::fs::entry_le(x, s[0], false) {
        lemma_bag_concat(seq![x], s, depth);
        match (url_bag(s, depth), url_bag(seq![x], depth)) {
            (Some(a), Some(b)) => {
                assert(b.add(a) =~= a.add(b));
            },
            _ => {},
        }
    } else {
        let t = s.drop_first();
        lemma_bag_insert(t, x, depth);
        lemma_bag_concat(seq![s[0]], insert_entry(t, x, false), depth);
        lemma_bag_concat(seq![s[0]], t, depth);
        assert(seq![s[0]] + t == s);
        match (url_bag(seq![s[0]], depth), url_bag(t, depth), url_bag(seq![x], depth)) {
            (Some(a), Some(b), Some(c)) => {
                assert(a.add(b.add(c)) =~= a.add(b).add(c));
            },
            _ => {},
        }
    }
}

pub proof fn lemma_bag_sort(s: Seq<FsEntry>, depth: nat)
    ensures
        url_bag(sort_entries(s, false), depth) == url_bag(s, depth),
    decreases s.len(),
{
    if s.len() > 0 {
        let t = s.drop_first();
        lemma_bag_sort(t, depth);
        lemma_bag_insert(sort_entries(t, false), s[0], depth);
        lemma_bag_concat(seq![s[0]], t, depth);
        assert(seq![s[0]] + t == s);
        match (url_bag(t, depth), url_bag(seq![s[0]], depth)) {
            (Some(a), Some(b)) => {
                assert(a.add(b) =~= b.add(a));
            },
            _ => {},
        }
    }
}

/// The URLs of a plan's bookmarks, at any depth, each less any whitespace at its end, as a
/// multiset.
pub open spec fn plan_url_bag(p: Seq<PlanSpec>) -> Multiset<Seq<char>>
    decreases p,
{
    if p.len() == 0 {
        Multiset::empty()
    } else {
        plan_url_bag(p.drop_last()).add(
            match p.last() {
                PlanSpec::Bookmark { url, .. } => Multiset::singleton(trim_end(url)),
                PlanSpec::Folder { entries, .. } => plan_url_bag(entries),
            },
        )
    }
}

pub proof fn lemma_bag_realized(d: Seq<FsEntry>, p: Seq<PlanSpec>, depth: nat)
    requires
        realizes_exactly(d, p),
    ensures
        url_bag(d, depth) == Some(plan_url_bag(p)),
    decreases p,
{
    if p.len() > 0 {
        lemma_bag_realized(d.drop_last(), p.drop_last(), depth);
        let f = d.last();
        match p.last() {
            PlanSpec::Bookmark { url, .. } => {
                law_url_survives_shortcut(url);
                assert(url_or_empty(f.content->0@) == trim_end(url));
                assert(render_entry(f, depth) matches Some(r) && r.urls == Multiset::singleton(
                    trim_end(url),
                ));
            },
            PlanSpec::Folder { entries, .. } => {
                let nd = next_depth(depth);
                lemma_bag_realized(f.children@, entries, nd);
                lemma_bag_sort(f.children@, nd);
                assert(render_entry(f, depth) matches Some(r) && r.urls == plan_url_bag(entries));
            },
        }
        assert(render_entries(d, depth) == match (
            render_entries(d.drop_last(), depth),
            render_entry(d.last(), depth),
        ) {
            (Some(a), Some(b)) => Some(crate::exporter::join(a, b)),
            _ => None,
        });
    }
}

/// The export holds the plan's URLs and no others: for a directory that holds exactly the
/// entries of an import plan (each bookmark's URL free of line breaks and not blank), the
/// bookmark lines of the export carry, as a multiset, exactly the plan's URLs (each less any
/// whitespace at its end), each line written as [`bookmark_line`] writes it.
pub proof fn law_import_export_same_urls(d: Seq<FsEntry>, p: Seq<PlanSpec>)
    requires
        realizes_exactly(d, p),
    ensures
        export_spec(d) matches Some(r) && r.urls == plan_url_bag(p),
{
    lemma_bag_realized(d, p, 1);
    lemma_bag_sort(d, 1);
}

pub proof fn lemma_has_url_concat(p: Seq<PlanSpec>, q: Seq<PlanSpec>, url: Seq<char>)
    ensures
        plan_has_url(p + q, url) == (plan_has_url(p, url) || plan_has_url(q, url)),
    decreases q.len(),
{
    if q.len() == 0 {
        assert(p + q == p);
    } else {
        assert((p + q).drop_last() == p + q.drop_last());
        assert((p + q).last() == q.last());
        lemma_has_url_concat(p, q.drop_last(), url);
    }
}

pub proof fn lemma_has_url_grows(s: Seq<DomNode>, k: int, url: Seq<char>)
    requires
        0 <= k <= s.len(),
        plan_has_url(plan_items(s.take(k)), url),
    ensures
        plan_has_url(plan_items(s), url),
    decreases s.len() - k,
{
    if k < s.len() {
        let t = s.take(k + 1);
        assert(t.drop_last() == s.take(k));
        assert(t.last() == s[k]);
        lemma_has_url_concat(
            plan_items(s.take(k)),
            item_step(s[k], plan_items(nested_items(s[k]))),
            url,
        );
        lemma_has_url_grows(s, k + 1, url);
    } else {
        assert(s.take(k) == s);
    }
}

/// The import loses no bookmark of a list: an item that is a folder passes on every bookmark
/// of its nested list (also where its name is blank), and an item that is a link with a
/// non-empty `href` is a bookmark to it. By induction, every link at any depth of folders
/// reaches the plan.
pub proof fn law_import_keeps_bookmarks(s: Seq<DomNode>, i: int, url: Seq<char>)
    requires
        0 <= i < s.len(),
        is_item(s[i]),
    ensures
        first_in_forest(s[i].children@, "h3"@) is Some && plan_has_url(
            plan_items(nested_items(s[i])),
            url,
        ) ==> plan_has_url(plan_items(s), url),
        first_in_forest(s[i].children@, "h3"@) is None ==> match first_in_forest(
            s[i].children@,
            "a"@,
        ) {
            Some(a) => href_of(a).len() > 0 ==> plan_has_url(plan_items(s), href_of(a)),
            None => true,
        },
{
    let dt = s[i];
    let nested = plan_items(nested_items(dt));
    let step = item_step(dt, nested);
    let t = s.take(i + 1);
    assert(t.drop_last() == s.take(i));
    assert(t.last() == dt);
    assert(plan_items(t) == plan_items(s.take(i)) + step);
    match first_in_forest(dt.children@, "h3"@) {
        Some(h3) => {
            if plan_has_url(nested, url) {
                if step != nested {
                    let f = step[0];
                    assert(step == seq![f]);
                    assert(step.drop_last() == Seq::<PlanSpec>::empty());
                    assert(plan_has_url(step, url));
                }
                lemma_has_url_concat(plan_items(s.take(i)), step, url);
                lemma_has_url_grows(s, i + 1, url);
            }
        },
        None => match first_in_forest(dt.children@, "a"@) {
            Some(a) => {
                if href_of(a).len() > 0 {
                    let u = href_of(a);
                    assert(step.len() == 1);
                    assert(step.drop_last() == Seq::<PlanSpec>::empty());
                    assert(plan_has_url(step, u));
                    lemma_has_url_concat(plan_items(s.take(i)), step, u);
                    lemma_has_url_grows(s, i + 1, u);
                }
            },
            None => {},
        },
    }
}

/// The links that one list item counts, given those of its nested list: an item with an
/// `h3` heading passes on the links of its nested list; otherwise an item whose first link
/// has a non-empty `href` counts that `href`, less any whitespace at its end.
pub open spec fn item_links(dt: DomNode, nested: Multiset<Seq<char>>) -> Multiset<Seq<char>> {
    if !is_item(dt) {
        Multiset::empty()
    } else {
        match first_in_forest(dt.children@, "h3"@) {
            Some(_) => nested,
            None => match first_in_forest(dt.children@, "a"@) {
                Some(a) => if href_of(a).len() > 0 {
                    Multiset::singleton(trim_end(href_of(a)))
                } else {
                    Multiset::empty()
                },
                None => Multiset::empty(),
            },
        }
    }
}

/// The non-empty links of a bookmark list given its children, at any depth of folders (see
/// [`item_links`]), as a multiset.
pub open spec fn link_bag(s: Seq<DomNode>) -> Multiset<Seq<char>>
    decreases forest_size(s),
{
    if s.len() == 0 {
        Multiset::empty()
    } else {
        let last = s.last();
        proof {
            lemma_first_in_size(last.children@, "dl"@);
            lemma_forest_size_member(s, s.len() - 1);
        }
        link_bag(s.drop_last()).add(item_links(last, link_bag(nested_items(last))))
    }
}

pub proof fn lemma_plan_bag_concat(p: Seq<PlanSpec>, q: Seq<PlanSpec>)
    ensures
        plan_url_bag(p + q) == plan_url_bag(p).add(plan_url_bag(q)),
    decreases q.len(),
{
    if q.len() == 0 {
        assert(p + q == p);
        assert(plan_url_bag(p).add(Multiset::empty()) =~= plan_url_bag(p));
    } else {
        assert((p + q).drop_last() == p + q.drop_last());
        assert((p + q).last() == q.last());
        lemma_plan_bag_concat(p, q.drop_last());
        let x = plan_url_bag(p);
        let y = plan_url_bag(q.drop_last());
        let z = match q.last() {
            PlanSpec::Bookmark { url, .. } => Multiset::singleton(trim_end(url)),
            PlanSpec::Folder { entries, .. } => plan_url_bag(entries),
        };
        assert(x.add(y).add(z) =~= x.add(y.add(z)));
    }
}

pub proof fn lemma_plan_bag_single(e: PlanSpec)
    ensures
        plan_url_bag(seq![e]) == match e {
            PlanSpec::Bookmark { url, .. } => Multiset::singleton(trim_end(url)),
            PlanSpec::Folder { entries, .. } => plan_url_bag(entries),
        },
{
    let s = seq![e];
    assert(s.drop_last() == Seq::<PlanSpec>::empty());
    assert(s.last() == e);
    assert(plan_url_bag(Seq::<PlanSpec>::empty()) == Multiset::<Seq<char>>::empty());
    match e {
        PlanSpec::Bookmark { url, .. } => {
            assert(Multiset::<Seq<char>>::empty().add(Multiset::singleton(trim_end(url)))
                =~= Multiset::singleton(trim_end(url)));
        },
        PlanSpec::Folder { entries, .. } => {
            assert(Multiset::<Seq<char>>::empty().add(plan_url_bag(entries)) =~= plan_url_bag(
                entries,
            ));
        },
    }
}

/// The import plan holds exactly the document's links: the URLs of a list's plan, at any
/// depth, are as a multiset the non-empty links of the list (see [`link_bag`]), each less
/// any whitespace at its end. No link is lost and none is added.
pub proof fn law_import_plan_links(s: Seq<DomNode>)
    ensures
        plan_url_bag(plan_items(s)) == link_bag(s),
    decreases forest_size(s),
{
    if s.len() == 0 {
        assert(plan_url_bag(Seq::<PlanSpec>::empty()) == Multiset::<Seq<char>>::empty());
    } else {
        let last = s.last();
        lemma_first_in_size(last.children@, "dl"@);
        lemma_forest_size_member(s, s.len() - 1);
        law_import_plan_links(s.drop_last());
        law_import_plan_links(nested_items(last));
        let nested = plan_items(nested_items(last));
        let step = item_step(last, nested);
        lemma_plan_bag_concat(plan_items(s.drop_last()), step);
        if step.len() == 1 {
            lemma_plan_bag_single(step[0]);
            assert(step == seq![step[0]]);
        } else if step.len() == 0 {
            assert(plan_url_bag(step) == Multiset::<Seq<char>>::empty());
        }
        assert(plan_url_bag(step) == item_links(last, link_bag(nested_items(last))));
    }
}

/// Import then export keeps exactly the document's links: for a directory that holds exactly
/// the entries of the plan of a bookmark list, the bookmark lines of the export carry, as a
/// multiset, exactly the list's non-empty links (each less any whitespace at its end).
pub proof fn law_round_trip_links(s: Seq<DomNode>, d: Seq<FsEntry>)
    requires
        realizes_exactly(d, plan_items(s)),
    ensures
        export_spec(d) matches Some(r) && r.urls == link_bag(s),
{
    law_import_export_same_urls(d, plan_items(s));
    law_import_plan_links(s);
}

} // verus!
