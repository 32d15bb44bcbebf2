//! Export: from a bookmark directory to a Netscape bookmark file.
use crate::fs::{
    entries_size, entry_size, lemma_entries_size_member, lemma_sort_size, sort_entries,
    sort_entry_vec, FsEntry, Unreadable,
};
use crate::importer::sat;
use crate::shortcut::{shortcut_url, url_line};
use crate::text::{
    char_vec, int_decimal, lemma_prefix_append, lemma_prefix_trans, push_char, push_int, push_str,
    string_of,
};
use vstd::multiset::Multiset;
use vstd::prelude::*;

verus! {

/// The text that stands for a character in HTML text and attribute values.
pub open spec fn escape_char(c: char) -> Seq<char> {
    if c == '&' {
        "&amp;"@
    } else if c == '<' {
        "&lt;"@
    } else if c == '>' {
        "&gt;"@
    } else if c == '"' {
        "&quot;"@
    } else {
        seq![c]
    }
}

/// `s` with `&`, `<`, `>` and `"` replaced by their character references.
pub open spec fn escape(s: Seq<char>) -> Seq<char>
    decreases s.len(),
{
    if s.len() == 0 {
        seq![]
    } else {
        escape(s.drop_last()) + escape_char(s.last())
    }
}

/// Escapes `&`, `<`, `>` and `"` for HTML (see [`escape`]).
pub fn html_escape(s: &str) -> (r: String)
    ensures
        r@ == escape(s@),
{
    let v = char_vec(s);
    let mut r = String::new();
    let mut i: usize = 0;
    while i < v.len()
        invariant
            i <= v.len(),
            v@ == s@,
            r@ == escape(v@.take(i as int)),
        decreases v.len() - i,
    {
        let c = v[i];
        if c == '&' {
            push_str(&mut r, "&amp;");
        } else if c == '<' {
            push_str(&mut r, "&lt;");
        } else if c == '>' {
            push_str(&mut r, "&gt;");
        } else if c == '"' {
            push_str(&mut r, "&quot;");
        } else {
            push_char(&mut r, c);
        }
        assert(v@.take(i + 1).drop_last() == v@.take(i as int));
        i = i + 1;
    }
    assert(v@.take(v.len() as int) == v@);
    r
}

/// `r` occurs in `t` at position `i`.
pub open spec fn occurs_at(t: Seq<char>, i: int, r: Seq<char>) -> bool {
    0 <= i && i + r.len() <= t.len() && t.subrange(i, i + r.len()) == r
}

/// One of the four character references that escaping writes starts at position `i`.
pub open spec fn reference_at(t: Seq<char>, i: int) -> bool {
    ||| occurs_at(t, i, "&amp;"@)
    ||| occurs_at(t, i, "&lt;"@)
    ||| occurs_at(t, i, "&gt;"@)
    ||| occurs_at(t, i, "&quot;"@)
}

/// Text that HTML escaping has made safe holds no `<`, `>` or `"`, and every `&` in it
/// starts one of the character references `&amp;`, `&lt;`, `&gt;`, `&quot;`.
pub proof fn law_escaped_text_is_inert(s: Seq<char>)
    ensures
        forall|i: int|
            0 <= i < escape(s).len() ==> #[trigger] escape(s)[i] != '<' && escape(s)[i] != '>'
                && escape(s)[i] != '"',
        forall|i: int| 0 <= i < escape(s).len() && #[trigger] escape(s)[i] == '&' ==> reference_at(
            escape(s),
            i,
        ),
    decreases s.len(),
{
    reveal_strlit("&amp;");
    reveal_strlit("&lt;");
    reveal_strlit("&gt;");
    reveal_strlit("&quot;");
    if s.len() > 0 {
        law_escaped_text_is_inert(s.drop_last());
        let a = escape(s.drop_last());
        let b = escape_char(s.last());
        let t = escape(s);
        assert(t == a + b);
        assert forall|i: int| 0 <= i < t.len() implies #[trigger] t[i] != '<' && t[i] != '>'
            && t[i] != '"' by {
            if i < a.len() {
                assert(t[i] == a[i]);
            } else {
                assert(t[i] == b[i - a.len()]);
            }
        }
        assert forall|i: int| 0 <= i < t.len() && #[trigger] t[i] == '&' implies reference_at(t, i) by {
            if i < a.len() {
                assert(t[i] == a[i]);
                assert(reference_at(a, i));
                let r = if occurs_at(a, i, "&amp;"@) {
                    "&amp;"@
                } else if occurs_at(a, i, "&lt;"@) {
                    "&lt;"@
                } else if occurs_at(a, i, "&gt;"@) {
                    "&gt;"@
                } else {
                    "&quot;"@
                };
                assert(occurs_at(a, i, r));
                assert(t.subrange(i, i + r.len()) =~= a.subrange(i, i + r.len()));
                assert(occurs_at(t, i, r));
            } else {
                assert(t[i] == b[i - a.len()]);
                assert(i == a.len());
                assert(t.subrange(i, i + b.len()) =~= b);
                assert(occurs_at(t, i, b));
            }
        }
    }
}

/// The character reference for `&`.
pub open spec fn amp_ref() -> Seq<char> {
    seq!['&', 'a', 'm', 'p', ';']
}

/// The character reference for `<`.
pub open spec fn lt_ref() -> Seq<char> {
    seq!['&', 'l', 't', ';']
}

/// The character reference for `>`.
pub open spec fn gt_ref() -> Seq<char> {
    seq!['&', 'g', 't', ';']
}

/// The character reference for `"`.
pub open spec fn quot_ref() -> Seq<char> {
    seq!['&', 'q', 'u', 'o', 't', ';']
}

/// `t` with the references `&amp;`, `&lt;`, `&gt;` and `&quot;` decoded in one pass from left
/// to right, as an HTML parser reads them; other text is kept.
pub open spec fn unescape(t: Seq<char>) -> Seq<char>
    decreases t.len(),
{
    if t.len() == 0 {
        seq![]
    } else if occurs_at(t, 0, amp_ref()) {
        seq!['&'] + unescape(t.skip(5))
    } else if occurs_at(t, 0, lt_ref()) {
        seq!['<'] + unescape(t.skip(4))
    } else if occurs_at(t, 0, gt_ref()) {
        seq!['>'] + unescape(t.skip(4))
    } else if occurs_at(t, 0, quot_ref()) {
        seq!['"'] + unescape(t.skip(6))
    } else {
        seq![t[0]] + unescape(t.skip(1))
    }
}

pub proof fn lemma_unescape_char(c: char, x: Seq<char>)
    ensures
        unescape(escape_char(c) + x) == seq![c] + unescape(x),
{
    reveal_strlit("&amp;");
    reveal_strlit("&lt;");
    reveal_strlit("&gt;");
    reveal_strlit("&quot;");
    let e = escape_char(c);
    let t = e + x;
    if c == '&' {
        assert(e =~= amp_ref());
        assert(t.subrange(0, 5) =~= amp_ref());
        assert(t.skip(5) =~= x);
    } else if c == '<' {
        assert(e =~= lt_ref());
        assert(t[1] == 'l');
        assert(!occurs_at(t, 0, amp_ref()));
        assert(t.subrange(0, 4) =~= lt_ref());
        assert(t.skip(4) =~= x);
    } else if c == '>' {
        assert(e =~= gt_ref());
        assert(t[1] == 'g');
        assert(!occurs_at(t, 0, amp_ref()));
        assert(!occurs_at(t, 0, lt_ref()));
        assert(t.subrange(0, 4) =~= gt_ref());
        assert(t.skip(4) =~= x);
    } else if c == '"' {
        assert(e =~= quot_ref());
        assert(t[1] == 'q');
        assert(!occurs_at(t, 0, amp_ref()));
        assert(!occurs_at(t, 0, lt_ref()));
        assert(!occurs_at(t, 0, gt_ref()));
        assert(t.subrange(0, 6) =~= quot_ref());
        assert(t.skip(6) =~= x);
    } else {
        assert(e == seq![c]);
        assert(t[0] == c);
        assert(!occurs_at(t, 0, amp_ref()) && !occurs_at(t, 0, lt_ref()) && !occurs_at(
            t,
            0,
            gt_ref(),
        ) && !occurs_at(t, 0, quot_ref())) by {
            if occurs_at(t, 0, amp_ref()) {
                assert(t.subrange(0, 5)[0] == t[0]);
            }
            if occurs_at(t, 0, lt_ref()) {
                assert(t.subrange(0, 4)[0] == t[0]);
            }
            if occurs_at(t, 0, gt_ref()) {
                assert(t.subrange(0, 4)[0] == t[0]);
            }
            if occurs_at(t, 0, quot_ref()) {
                assert(t.subrange(0, 6)[0] == t[0]);
            }
        }
        assert(t.skip(1) =~= x);
    }
}

pub proof fn lemma_unescape_escape_then(s: Seq<char>, x: Seq<char>)
    ensures
        unescape(escape(s) + x) == s + unescape(x),
    decreases s.len(),
{
    if s.len() == 0 {
        assert(escape(s) + x =~= x);
        assert(s + unescape(x) =~= unescape(x));
    } else {
        let l = s.last();
        let p = s.drop_last();
        assert(escape(s) + x =~= escape(p) + (escape_char(l) + x));
        lemma_unescape_escape_then(p, escape_char(l) + x);
        lemma_unescape_char(l, x);
        assert(p + (seq![l] + unescape(x)) =~= s + unescape(x));
    }
}

/// Reading escaped text back gives the text: decoding the references of `escape(s)` gives
/// `s`, so a title or URL written into the exported file reads back unchanged.
pub proof fn law_unescape_escape(s: Seq<char>)
    ensures
        unescape(escape(s)) == s,
{
    lemma_unescape_escape_then(s, seq![]);
    assert(escape(s) + Seq::<char>::empty() =~= escape(s));
    assert(s + Seq::<char>::empty() =~= s);
}

/// The first lines of every exported file, up to the opening of the top list.
pub open spec fn export_header() -> Seq<char> {
    "<!DOCTYPE NETSCAPE-Bookmark-file-1>\n\
     <!-- This is an automatically generated file.\n\
          It will be read and overwritten.\n\
          DO NOT EDIT! -->\n\
     <META HTTP-EQUIV=\"Content-Type\" CONTENT=\"text/html; charset=UTF-8\">\n\
     <meta http-equiv=\"Content-Security-Policy\"\n\
           content=\"default-src 'self'; script-src 'none'; img-src * data:\">\n\
     <TITLE>Bookmarks</TITLE>\n\
     <H1>Bookmarks</H1>\n\
     <DL><p>\n"@
}

/// Four spaces per level.
pub open spec fn indent(depth: nat) -> Seq<char>
    decreases depth,
{
    if depth == 0 {
        seq![]
    } else {
        indent((depth - 1) as nat) + seq![' ', ' ', ' ', ' ']
    }
}

/// The extension of shortcut files.
pub open spec fn url_ext() -> Seq<char> {
    seq!['.', 'u', 'r', 'l']
}

/// The name ends with `.url`.
pub open spec fn ends_with_url(s: Seq<char>) -> bool {
    s.len() >= 4 && s.subrange(s.len() - 4, s.len() as int) == url_ext()
}

/// The name without all the `.url` at its end (`trim_end_matches(".url")`).
pub open spec fn strip_url_ext(s: Seq<char>) -> Seq<char>
    decreases s.len(),
{
    if ends_with_url(s) {
        strip_url_ext(s.take(s.len() - 4))
    } else {
        s
    }
}

/// The URL of a shortcut file's text, empty when it has none.
pub open spec fn url_or_empty(c: Seq<char>) -> Seq<char> {
    match url_line(c) {
        Some(u) => u,
        None => seq![],
    }
}

/// The lines that open a folder.
pub open spec fn folder_open(name: Seq<char>, date: int, depth: nat) -> Seq<char> {
    indent(depth) + "<DT><H3 ADD_DATE=\""@ + int_decimal(date) + "\">"@ + escape(name)
        + "</H3>\n"@ + indent(depth) + "<DL><p>\n"@
}

/// The line that closes a folder.
pub open spec fn folder_close(depth: nat) -> Seq<char> {
    indent(depth) + "</DL><p>\n"@
}

/// The line of a bookmark.
pub open spec fn bookmark_line(url: Seq<char>, date: int, title: Seq<char>, depth: nat) -> Seq<
    char,
> {
    indent(depth) + "<DT><A HREF=\""@ + escape(url) + "\" ADD_DATE=\""@ + int_decimal(date)
        + "\">"@ + escape(title) + "</A>\n"@
}

/// What part of a directory exports to: the HTML, the numbers of folders and bookmarks, and
/// the URLs of the bookmark lines in it.
pub struct Rendered {
    pub html: Seq<char>,
    pub folders: nat,
    pub bookmarks: nat,
    pub urls: Multiset<Seq<char>>,
}

pub open spec fn nothing() -> Rendered {
    Rendered { html: seq![], folders: 0, bookmarks: 0, urls: Multiset::empty() }
}

pub open spec fn join(a: Rendered, b: Rendered) -> Rendered {
    Rendered {
        html: a.html + b.html,
        folders: a.folders + b.folders,
        bookmarks: a.bookmarks + b.bookmarks,
        urls: a.urls.add(b.urls),
    }
}

/// The next level, saturated at `usize::MAX`.
pub open spec fn next_depth(depth: nat) -> nat {
    if depth < usize::MAX {
        depth + 1
    } else {
        depth
    }
}

/// The export of a sequence of entries in the given order; `None` when a shortcut file's
/// text could not be read.
pub open spec fn render_entries(s: Seq<FsEntry>, depth: nat) -> Option<Rendered>
    decreases entries_size(s), 1int,
{
    if s.len() == 0 {
        Some(nothing())
    } else {
        proof {
            lemma_entries_size_member(s, s.len() - 1);
        }
        match (render_entries(s.drop_last(), depth), render_entry(s.last(), depth)) {
            (Some(a), Some(b)) => Some(join(a, b)),
            _ => None,
        }
    }
}

/// The export of one entry: a directory becomes a folder holding the export of its entries
/// sorted by name; a file whose name ends with `.url` becomes a bookmark titled by its name
/// less the extension, unless its URL is empty; anything else is left out. `None` when a
/// directory's entries or a shortcut file's text could not be read.
pub open spec fn render_entry(e: FsEntry, depth: nat) -> Option<Rendered>
    decreases entry_size(e), 0int,
{
    if e.is_dir && !e.listed {
        None
    } else if e.is_dir {
        proof {
            lemma_sort_size(e.children@, false);
        }
        match render_entries(sort_entries(e.children@, false), next_depth(depth)) {
            Some(inner) => Some(
                Rendered {
                    html: folder_open(e.name@, e.modified as int, depth) + inner.html
                        + folder_close(depth),
                    folders: inner.folders + 1,
                    bookmarks: inner.bookmarks,
                    urls: inner.urls,
                },
            ),
            None => None,
        }
    } else if ends_with_url(e.name@) {
        match e.content {
            None => None,
            Some(c) => {
                let url = url_or_empty(c@);
                if url.len() == 0 {
                    Some(nothing())
                } else {
                    Some(
                        Rendered {
                            html: bookmark_line(
                                url,
                                e.modified as int,
                                strip_url_ext(e.name@),
                                depth,
                            ),
                            folders: 0,
                            bookmarks: 1,
                            urls: Multiset::singleton(url),
                        },
                    )
                }
            },
        }
    } else {
        Some(nothing())
    }
}

/// The export of a directory's entries (sorted by name).
pub open spec fn render_dir(s: Seq<FsEntry>, depth: nat) -> Option<Rendered> {
    render_entries(sort_entries(s, false), depth)
}

/// The whole exported file for a directory's entries.
pub open spec fn export_spec(s: Seq<FsEntry>) -> Option<Rendered> {
    match render_dir(s, 1) {
        Some(r) => Some(
            Rendered {
                html: export_header() + r.html + "</DL><p>\n"@,
                folders: r.folders,
                bookmarks: r.bookmarks,
                urls: r.urls,
            },
        ),
        None => None,
    }
}


/// How many folders and bookmarks an export wrote.
#[derive(Debug, Clone, Copy)]
pub struct ExportStats {
    pub folders: usize,
    pub bookmarks: usize,
}

/// Appends four spaces per level.
pub fn push_indent(html: &mut String, depth: usize)
    ensures
        final(html)@ == old(html)@ + indent(depth as nat),
{
    let ghost o = html@;
    let mut i: usize = 0;
    while i < depth
        invariant
            i <= depth,
            html@ == o + indent(i as nat),
        decreases depth - i,
    {
        push_str(html, "    ");
        proof {
            reveal_strlit("    ");
        }
        i = i + 1;
    }
}

/// Whether the name ends with `.url`.
pub fn ends_with_url_exec(v: &Vec<char>, end: usize) -> (r: bool)
    requires
        end <= v.len(),
    ensures
        r == ends_with_url(v@.take(end as int)),
{
    let ghost t = v@.take(end as int);
    if end < 4 {
        return false;
    }
    let r = v[end - 4] == '.' && v[end - 3] == 'u' && v[end - 2] == 'r' && v[end - 1] == 'l';
    assert(t.subrange(t.len() - 4, t.len() as int) =~= seq![
        v@[end - 4],
        v@[end - 3],
        v@[end - 2],
        v@[end - 1],
    ]);
    r
}

/// The name without all the `.url` at its end (see [`strip_url_ext`]).
pub fn strip_url_ext_string(name: &str) -> (r: String)
    ensures
        r@ == strip_url_ext(name@),
{
    let v = char_vec(name);
    let mut end = v.len();
    assert(v@.take(end as int) == v@);
    while ends_with_url_exec(&v, end)
        invariant
            end <= v.len(),
            v@ == name@,
            strip_url_ext(name@) == strip_url_ext(v@.take(end as int)),
        decreases end,
    {
        assert(v@.take(end as int).take(end - 4) == v@.take(end - 4));
        end = end - 4;
    }
    string_of(&v, 0, end)
}

pub proof fn lemma_render_fails_from_prefix(s: Seq<FsEntry>, depth: nat, k: int)
    requires
        0 <= k <= s.len(),
        render_entries(s.take(k), depth) is None,
    ensures
        render_entries(s, depth) is None,
    decreases s.len() - k,
{
    if k < s.len() {
        assert(s.take(k + 1).drop_last() == s.take(k));
        lemma_render_fails_from_prefix(s, depth, k + 1);
    } else {
        assert(s.take(k) == s);
    }
}

/// Appends the lines that open a folder.
fn push_folder_open(html: &mut String, name: &String, modified: i64, depth: usize)
    ensures
        final(html)@ == old(html)@ + folder_open(name@, modified as int, depth as nat),
{
    push_indent(html, depth);
    push_str(html, "<DT><H3 ADD_DATE=\"");
    push_int(html, modified);
    push_str(html, "\">");
    let escaped = html_escape(name.as_str());
    push_str(html, escaped.as_str());
    push_str(html, "</H3>\n");
    push_indent(html, depth);
    push_str(html, "<DL><p>\n");
}

/// Appends the line of a bookmark to `url` from the shortcut file `name`.
fn push_bookmark_line(html: &mut String, url: &String, modified: i64, name: &String, depth: usize)
    ensures
        final(html)@ == old(html)@ + bookmark_line(
            url@,
            modified as int,
            strip_url_ext(name@),
            depth as nat,
        ),
{
    let title = strip_url_ext_string(name.as_str());
    push_indent(html, depth);
    push_str(html, "<DT><A HREF=\"");
    let u = html_escape(url.as_str());
    push_str(html, u.as_str());
    push_str(html, "\" ADD_DATE=\"");
    push_int(html, modified);
    push_str(html, "\">");
    let t = html_escape(title.as_str());
    push_str(html, t.as_str());
    push_str(html, "</A>\n");
}

/// Writes the export of one entry (see [`render_entry`]).
pub fn export_entry(e: FsEntry, depth: usize, html: &mut String, stats: &mut ExportStats) -> (r:
    Result<(), Unreadable>)
    ensures
        old(html)@.is_prefix_of(final(html)@),
        match render_entry(e, depth as nat) {
            None => r is Err,
            Some(x) => r is Ok && final(html)@ == old(html)@ + x.html && final(stats).folders
                == sat(old(stats).folders as int, x.folders as int) && final(stats).bookmarks
                == sat(old(stats).bookmarks as int, x.bookmarks as int),
        },
    decreases entry_size(e), 0int,
{
    let ghost ge = e;
    let ghost h0 = html@;
    proof {
        lemma_prefix_append(h0, Seq::empty());
        assert(h0 + Seq::<char>::empty() == h0);
    }
    let FsEntry { name, is_dir, is_file: _, listed, modified, content, children } = e;
    if is_dir && !listed {
        return Err(Unreadable);
    }
    if is_dir {
        push_folder_open(html, &name, modified, depth);
        let ghost mid = html@;
        proof {
            lemma_prefix_append(h0, folder_open(name@, modified as int, depth as nat));
        }
        let ghost s0 = *stats;
        let next = depth.saturating_add(1);
        match walk_dir(children, html, next, stats) {
            Err(x) => {
                proof {
                    lemma_prefix_trans(h0, mid, html@);
                }
                return Err(x);
            },
            Ok(()) => {},
        }
        let ghost inner_html = html@.skip(mid.len() as int);
        push_indent(html, depth);
        push_str(html, "</DL><p>\n");
        stats.folders = stats.folders.saturating_add(1);
        proof {
            assert(html@ == mid + inner_html + folder_close(depth as nat));
            lemma_prefix_append(h0, html@.skip(h0.len() as int));
            assert(h0 + html@.skip(h0.len() as int) == html@);
        }
        Ok(())
    } else {
        let v = char_vec(name.as_str());
        assert(v@.take(v.len() as int) == v@);
        if ends_with_url_exec(&v, v.len()) {
            match content {
                None => Err(Unreadable),
                Some(c) => {
                    let url = match shortcut_url(c.as_str()) {
                        Some(u) => u,
                        None => String::new(),
                    };
                    if url.as_str().is_empty() {
                        return Ok(());
                    }
                    push_bookmark_line(html, &url, modified, &name, depth);
                    stats.bookmarks = stats.bookmarks.saturating_add(1);
                    proof {
                        lemma_prefix_append(
                            h0,
                            bookmark_line(url@, modified as int, strip_url_ext(name@), depth as nat),
                        );
                    }
                    Ok(())
                },
            }
        } else {
            Ok(())
        }
    }
}

/// Writes the export of a directory's entries, sorted by name (see [`render_dir`]).
pub fn walk_dir(entries: Vec<FsEntry>, html: &mut String, depth: usize, stats: &mut ExportStats) -> (r:
    Result<(), Unreadable>)
    ensures
        old(html)@.is_prefix_of(final(html)@),
        match render_dir(entries@, depth as nat) {
            None => r is Err,
            Some(x) => r is Ok && final(html)@ == old(html)@ + x.html && final(stats).folders
                == sat(old(stats).folders as int, x.folders as int) && final(stats).bookmarks
                == sat(old(stats).bookmarks as int, x.bookmarks as int),
        },
    decreases entries_size(entries@), 1int,
{
    let ghost orig = entries@;
    let ghost h0 = html@;
    let ghost st0 = *stats;
    proof {
        lemma_sort_size(orig, false);
    }
    let sorted = sort_entry_vec(entries, false);
    let ghost ss = sorted@;
    for e in it: sorted
        invariant
            it.seq() == ss,
            orig == entries@,
            h0 == old(html)@,
            ss == sort_entries(orig, false),
            entries_size(ss) == entries_size(orig),
            render_entries(ss.take(it.index() as int), depth as nat) matches Some(x) && html@ == h0
                + x.html && stats.folders == sat(st0.folders as int, x.folders as int)
                && stats.bookmarks == sat(st0.bookmarks as int, x.bookmarks as int),
    {
        let ghost k = it.index() as int;
        proof {
            lemma_entries_size_member(ss, k);
            assert(ss.take(k + 1).drop_last() == ss.take(k));
            assert(ss.take(k + 1).last() == ss[k]);
            assert(e == ss[k]);
            lemma_prefix_append(h0, render_entries(ss.take(k), depth as nat)->0.html);
        }
        let ghost before = html@;
        match export_entry(e, depth, html, stats) {
            Err(x) => {
                proof {
                    lemma_render_fails_from_prefix(ss, depth as nat, k + 1);
                    lemma_prefix_trans(h0, before, html@);
                }
                return Err(x);
            },
            Ok(()) => {},
        }
    }
    assert(ss.take(ss.len() as int) == ss);
    assert(render_dir(orig, depth as nat) == render_entries(ss, depth as nat));
    proof {
        lemma_prefix_append(h0, render_entries(ss, depth as nat)->0.html);
    }
    Ok(())
}

/// The exported file for a directory's entries, with the numbers of folders and bookmarks
/// written (see [`export_spec`]); `Err` when a shortcut file's text could not be read.
pub fn export_document(entries: Vec<FsEntry>) -> (r: Result<(String, ExportStats), Unreadable>)
    ensures
        match export_spec(entries@) {
            None => r is Err,
            Some(x) => (r matches Ok((h, st)) && h@ == x.html && st.folders == sat(
                x.folders as int,
                0,
            ) && st.bookmarks == sat(x.bookmarks as int, 0)),
        },
{
    let mut html = String::new();
    push_str(
        &mut html,
        "<!DOCTYPE NETSCAPE-Bookmark-file-1>\n\
         <!-- This is an automatically generated file.\n\
              It will be read and overwritten.\n\
              DO NOT EDIT! -->\n\
         <META HTTP-EQUIV=\"Content-Type\" CONTENT=\"text/html; charset=UTF-8\">\n\
         <meta http-equiv=\"Content-Security-Policy\"\n\
               content=\"default-src 'self'; script-src 'none'; img-src * data:\">\n\
         <TITLE>Bookmarks</TITLE>\n\
         <H1>Bookmarks</H1>\n\
         <DL><p>\n",
    );
    let mut stats = ExportStats { folders: 0, bookmarks: 0 };
    match walk_dir(entries, &mut html, 1, &mut stats) {
        Err(x) => {
            return Err(x);
        },
        Ok(()) => {},
    }
    push_str(&mut html, "</DL><p>\n");
    Ok((html, stats))
}

} // verus!
