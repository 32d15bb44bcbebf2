//! Import: from a Netscape bookmark file to a plan of folders and `.url` files.
use crate::dom::{
    head_of, lemma_same_forest_first, lemma_same_text, lemma_unique_at, same_forest,
    same_node, fits_node, lemma_flatten_at,
    find_in_forest, first_in_forest, forest_size, lemma_first_in_size,
    lemma_forest_size_member, node_size, node_text, text_of, build_tree, flatten, is_tree, DomNode,
    FlatNode, NodeKind,
};
use crate::text::{
    char_vec, decimal, push_char, push_decimal, push_str, str_eq, string_of, trim, trim_bounds,
    trim_string, utf8_len,
};
use scraper::{Html, Node, Selector};
use vstd::prelude::*;

verus! {

/// Longest file name, in characters, that the importer writes.
pub const MAX_NAME_CHARS: usize = 200;

/// Characters that file systems refuse in names.
pub open spec fn is_forbidden(c: char) -> bool {
    c == '/' || c == '\\' || c == ':' || c == '*' || c == '?' || c == '"' || c == '<' || c == '>'
        || c == '|'
}

/// Every forbidden character replaced by `_`.
pub open spec fn replace_forbidden(s: Seq<char>) -> Seq<char> {
    s.map_values(|c: char| if is_forbidden(c) { '_' } else { c })
}

/// The name before it is cut to length.
pub open spec fn clean_name(s: Seq<char>) -> Seq<char> {
    trim(replace_forbidden(s))
}

/// A bookmark or folder title turned into a file name: forbidden characters replaced by `_`,
/// whitespace trimmed, then cut to its first [`MAX_NAME_CHARS`] characters.
pub open spec fn sanitize(s: Seq<char>) -> Seq<char> {
    let t = clean_name(s);
    if t.len() <= MAX_NAME_CHARS {
        t
    } else {
        t.take(MAX_NAME_CHARS as int)
    }
}

/// Executable form of [`is_forbidden`].
pub fn forbidden_char(c: char) -> (b: bool)
    ensures
        b == is_forbidden(c),
{
    c == '/' || c == '\\' || c == ':' || c == '*' || c == '?' || c == '"' || c == '<' || c == '>'
        || c == '|'
}

/// Turns a title into a file name (see [`sanitize`]).
pub fn sanitize_name(name: &str) -> (r: String)
    ensures
        r@ == sanitize(name@),
{
    let v = char_vec(name);
    let mut w: Vec<char> = Vec::new();
    let mut i: usize = 0;
    while i < v.len()
        invariant
            i <= v.len(),
            v@ == name@,
            w@ == replace_forbidden(v@.take(i as int)),
        decreases v.len() - i,
    {
        let c = v[i];
        w.push(if forbidden_char(c) { '_' } else { c });
        i = i + 1;
        assert(replace_forbidden(v@.take(i as int)) == replace_forbidden(v@.take(i - 1)).push(
            w@.last(),
        ));
    }
    assert(v@.take(v.len() as int) == v@);
    let (a, b) = trim_bounds(&w);
    let end = if b - a <= MAX_NAME_CHARS {
        b
    } else {
        a + MAX_NAME_CHARS
    };
    assert(w@.subrange(a as int, end as int) == sanitize(name@));
    string_of(&w, a, end)
}

/// What the importer makes of a bookmark list, as values.
pub enum PlanSpec {
    /// A folder with the name it gets and what goes into it.
    Folder { name: Seq<char>, entries: Seq<PlanSpec> },
    /// A `.url` file: its name without extension, and the URL.
    Bookmark { name: Seq<char>, url: Seq<char> },
}

/// One entry of the import plan: a folder to create, or a bookmark to write.
pub enum PlanEntry {
    Folder { name: String, entries: Vec<PlanEntry> },
    Bookmark { name: String, url: String },
}

pub open spec fn entry_view(e: PlanEntry) -> PlanSpec
    decreases e,
{
    match e {
        PlanEntry::Folder { name, entries } => PlanSpec::Folder {
            name: name@,
            entries: entries_view(entries@),
        },
        PlanEntry::Bookmark { name, url } => PlanSpec::Bookmark { name: name@, url: url@ },
    }
}

pub open spec fn entries_view(s: Seq<PlanEntry>) -> Seq<PlanSpec>
    decreases s,
{
    if s.len() == 0 {
        seq![]
    } else {
        entries_view(s.drop_last()).push(entry_view(s.last()))
    }
}

pub proof fn lemma_entries_view_concat(a: Seq<PlanEntry>, b: Seq<PlanEntry>)
    ensures
        entries_view(a + b) == entries_view(a) + entries_view(b),
    decreases b.len(),
{
    if b.len() == 0 {
        assert(a + b == a);
    } else {
        assert((a + b).drop_last() == a + b.drop_last());
        lemma_entries_view_concat(a, b.drop_last());
    }
}

/// An element named `dt`: one item of a bookmark list.
pub open spec fn is_item(n: DomNode) -> bool {
    n.kind == NodeKind::Element && n.name@ == "dt"@
}

/// The items of the list nested in an item: the children of its first `dl` descendant.
pub open spec fn nested_items(dt: DomNode) -> Seq<DomNode> {
    match first_in_forest(dt.children@, "dl"@) {
        Some(l) => l.children@,
        None => seq![],
    }
}

/// The `href` of a link, empty when it has none.
pub open spec fn href_of(a: DomNode) -> Seq<char> {
    match a.href {
        Some(h) => h@,
        None => seq![],
    }
}

/// The entries that a list item contributes to the plan, given the plan of its nested list.
///
/// An item with an `h3` descendant is a folder named after the text of its first `h3`
/// holding the nested plan; when that name is blank the nested plan goes into the list
/// itself, so that no bookmark in it is lost. Otherwise an item with an `a` descendant is a
/// bookmark to its first link's `href` (none when the `href` is empty), named after the
/// link's text, or after the URL when the text gives an empty name.
pub open spec fn item_step(dt: DomNode, nested: Seq<PlanSpec>) -> Seq<PlanSpec> {
    if !is_item(dt) {
        seq![]
    } else {
        match first_in_forest(dt.children@, "h3"@) {
            Some(h3) => {
                let name = sanitize(node_text(h3));
                if name.len() == 0 {
                    nested
                } else {
                    seq![PlanSpec::Folder { name, entries: nested }]
                }
            },
            None => match first_in_forest(dt.children@, "a"@) {
                Some(a) => {
                    let title = sanitize(trim(node_text(a)));
                    let url = href_of(a);
                    if url.len() == 0 {
                        seq![]
                    } else if title.len() > 0 {
                        seq![PlanSpec::Bookmark { name: title, url }]
                    } else {
                        seq![PlanSpec::Bookmark { name: sanitize(url), url }]
                    }
                },
                None => seq![],
            },
        }
    }
}

/// The plan of a bookmark list given its children: the contributions of its items in order.
pub open spec fn plan_items(s: Seq<DomNode>) -> Seq<PlanSpec>
    decreases forest_size(s),
{
    if s.len() == 0 {
        seq![]
    } else {
        let last = s.last();
        proof {
            lemma_first_in_size(last.children@, "dl"@);
            lemma_forest_size_member(s, s.len() - 1);
        }
        plan_items(s.drop_last()) + item_step(last, plan_items(nested_items(last)))
    }
}

/// Lists whose items have the same records, node by node, have the same plan.
pub proof fn lemma_same_plan(s1: Seq<DomNode>, s2: Seq<DomNode>)
    requires
        same_forest(s1, s2),
    ensures
        plan_items(s1) == plan_items(s2),
    decreases forest_size(s1),
{
    if s1.len() > 0 {
        let a = s1.last();
        let b = s2.last();
        lemma_forest_size_member(s1, s1.len() - 1);
        assert(same_forest(s1.drop_last(), s2.drop_last()) && same_node(a, b));
        lemma_same_plan(s1.drop_last(), s2.drop_last());
        assert(head_of(a) == head_of(b) && same_forest(a.children@, b.children@));
        lemma_same_forest_first(a.children@, b.children@, "dl"@);
        lemma_same_forest_first(a.children@, b.children@, "h3"@);
        lemma_same_forest_first(a.children@, b.children@, "a"@);
        match first_in_forest(a.children@, "dl"@) {
            Some(l1) => {
                let l2 = first_in_forest(b.children@, "dl"@)->0;
                lemma_first_in_size(a.children@, "dl"@);
                lemma_same_plan(l1.children@, l2.children@);
            },
            None => {},
        }
        match first_in_forest(a.children@, "h3"@) {
            Some(h1) => {
                lemma_same_text(h1, first_in_forest(b.children@, "h3"@)->0);
            },
            None => {},
        }
        match first_in_forest(a.children@, "a"@) {
            Some(x1) => {
                let x2 = first_in_forest(b.children@, "a"@)->0;
                lemma_same_text(x1, x2);
                assert(head_of(x1) == head_of(x2));
            },
            None => {},
        }
        assert(item_step(a, plan_items(nested_items(a))) == item_step(b, plan_items(nested_items(b))));
    }
}

/// The parser's records of a bookmark list do not describe one tree.
#[derive(PartialEq, Eq, Structural, Clone, Copy, Debug)]
pub enum ImportError {
    Malformed,
}

/// Appends the contribution of one list item (see [`item_step`]).
pub fn item_entry(dt: &DomNode, out: &mut Vec<PlanEntry>)
    ensures
        entries_view(final(out)@) == entries_view(old(out)@) + item_step(
            *dt,
            plan_items(nested_items(*dt)),
        ),
    decreases node_size(*dt), 0int,
{
    let ghost o = out@;
    if !(dt.kind == NodeKind::Element && str_eq(dt.name.as_str(), "dt")) {
        assert(entries_view(o) + Seq::<PlanSpec>::empty() == entries_view(o));
        return;
    }
    match find_in_forest(&dt.children, "h3") {
        Some(h3) => {
            let raw = text_of(h3);
            let name = sanitize_name(raw.as_str());
            let mut entries: Vec<PlanEntry> = match find_in_forest(&dt.children, "dl") {
                Some(l) => {
                    proof {
                        lemma_first_in_size(dt.children@, "dl"@);
                    }
                    plan_list(&l.children)
                },
                None => {
                    assert(entries_view(Seq::<PlanEntry>::empty()) == Seq::<PlanSpec>::empty());
                    Vec::new()
                },
            };
            if name.as_str().is_empty() {
                let ghost e = entries@;
                out.append(&mut entries);
                proof {
                    lemma_entries_view_concat(o, e);
                }
            } else {
                let ghost e = PlanEntry::Folder { name, entries };
                out.push(PlanEntry::Folder { name, entries });
                assert(out@.drop_last() == o);
                assert(out@.last() == e);
                assert(entries_view(out@) == entries_view(o).push(entry_view(e)));
            }
        },
        None => match find_in_forest(&dt.children, "a") {
            Some(a) => {
                let text = text_of(a);
                let raw = trim_string(text.as_str());
                let title = sanitize_name(raw.as_str());
                let url = match &a.href {
                    Some(h) => h.clone(),
                    None => String::new(),
                };
                if url.as_str().is_empty() {
                    assert(entries_view(o) + Seq::<PlanSpec>::empty() == entries_view(o));
                    return;
                }
                let n = if !title.as_str().is_empty() {
                    title
                } else {
                    sanitize_name(url.as_str())
                };
                let ghost e = PlanEntry::Bookmark { name: n, url };
                out.push(PlanEntry::Bookmark { name: n, url });
                assert(out@.drop_last() == o);
                assert(out@.last() == e);
                assert(entries_view(out@) == entries_view(o).push(entry_view(e)));
            },
            None => {
                assert(entries_view(o) + Seq::<PlanSpec>::empty() == entries_view(o));
            },
        },
    }
}

/// The plan of a bookmark list given its children (see [`plan_items`]).
pub fn plan_list(items: &Vec<DomNode>) -> (r: Vec<PlanEntry>)
    ensures
        entries_view(r@) == plan_items(items@),
    decreases forest_size(items@), 1int,
{
    let mut out: Vec<PlanEntry> = Vec::new();
    let mut i: usize = 0;
    while i < items.len()
        invariant
            i <= items.len(),
            plan_items(items@.take(i as int)) == entries_view(out@),
        decreases items.len() - i,
    {
        proof {
            lemma_forest_size_member(items@, i as int);
            assert(items@.take(i + 1).drop_last() == items@.take(i as int));
            assert(items@.take(i + 1).last() == items@[i as int]);
        }
        item_entry(&items[i], &mut out);
        i = i + 1;
    }
    assert(items@.take(items.len() as int) == items@);
    out
}

/// What the importer makes of the parser's records of a document's first list: `r` is the
/// plan of the tree that the records describe (an empty plan where there is no list).
pub open spec fn plan_of_records(f: Seq<FlatNode>, r: Result<Seq<PlanSpec>, ImportError>) -> bool {
    &&& f.len() == 0 ==> r == Ok::<Seq<PlanSpec>, ImportError>(seq![])
    &&& (r is Err <==> f.len() > 0 && !is_tree(f))
    &&& f.len() > 0 && is_tree(f) ==> exists|t: DomNode| fits_node(t) && flatten(t) == f
    &&& forall|t: DomNode|
        fits_node(t) && #[trigger] flatten(t) == f ==> r == Ok::<Seq<PlanSpec>, ImportError>(
            plan_items(t.children@),
        )
}

/// The plan as values, or the error.
pub open spec fn plan_result_view(r: Result<Vec<PlanEntry>, ImportError>) -> Result<
    Seq<PlanSpec>,
    ImportError,
> {
    match r {
        Ok(v) => Ok(entries_view(v@)),
        Err(e) => Err(e),
    }
}

/// The plan of the first bookmark list, given the parser's records of it (empty when the
/// document has no list).
pub fn plan_from_records(records: &Vec<FlatNode>) -> (r: Result<Vec<PlanEntry>, ImportError>)
    ensures
        plan_of_records(records@, plan_result_view(r)),
{
    if records.len() == 0 {
        let v: Vec<PlanEntry> = Vec::new();
        assert(entries_view(v@) == Seq::<PlanSpec>::empty());
        proof {
            assert forall|t: DomNode| #[trigger] flatten(t) != records@ by {
                assert(flatten(t).len() >= 1);
            }
        }
        return Ok(v);
    }
    match build_tree(records) {
        None => {
            proof {
                assert forall|t: DomNode| fits_node(t) implies #[trigger] flatten(t) != records@ by {
                    if flatten(t) == records@ {
                        assert(records@.subrange(0, records@.len() as int) == records@);
                        lemma_flatten_at(t, records@, 0);
                    }
                }
            }
            Err(ImportError::Malformed)
        },
        Some(dl) => {
            let p = plan_list(&dl.children);
            proof {
                assert(records@.subrange(0, records@.len() as int) == records@);
                assert forall|t: DomNode|
                    fits_node(t) && #[trigger] flatten(t) == records@ implies plan_items(t.children@)
                    == entries_view(p@) by {
                    lemma_unique_at(dl, t, records@, 0);
                    lemma_same_plan(dl.children@, t.children@);
                }
            }
            Ok(p)
        },
    }
}

/// The records that `scraper` gives of the first `dl` element of an HTML document, in
/// document order; empty when the document has none.
pub uninterp spec fn first_list_records(html: Seq<char>) -> Seq<FlatNode>;

/// Longest document, in bytes, that the importer parses: a third of `u32::MAX`. The parser
/// keeps text in tendrils, which panic above `u32::MAX` bytes, and decoding can make text
/// grow: a NUL character (one byte) becomes U+FFFD (three bytes), and no character reference
/// grows by more than that.
pub const MAX_DOCUMENT_BYTES: usize = 1431655765;

/// Parses `html` with `scraper::Html::parse_document`, takes the first element that
/// `Html::select` finds for the selector `dl`, and lists it and its descendants in document
/// order (`descendants`), each node with its kind, local name, `href` attribute, text and
/// number of children. The contract gives the result a name, and states what follows from
/// the listing being a preorder walk with every node's number of children: the records
/// describe one tree, or there are none.
#[verifier::external_body]
fn first_list_nodes(html: &str) -> (r: Vec<FlatNode>)
    requires
        utf8_len(html@) <= MAX_DOCUMENT_BYTES,
    ensures
        r@ == first_list_records(html@),
        r@.len() == 0 || is_tree(r@),
{
    let doc = Html::parse_document(html);
    let mut out = Vec::new();
    if let Some(dl) = doc.select(&Selector::parse("dl").unwrap()).next() {
        for n in dl.descendants() {
            let (kind, name, href, text) = match n.value() {
                Node::Element(e) => (NodeKind::Element, e.name().into(), e.attr("href").map(String::from), String::new()),
                Node::Text(t) => (NodeKind::Text, String::new(), None, t.to_string()),
                _ => (NodeKind::Other, String::new(), None, String::new()),
            };
            out.push(FlatNode { kind, name, href, text, kids: n.children().count() });
        }
    }
    out
}

/// The import plan of a Netscape bookmark document: its first bookmark list turned into
/// folders and bookmarks (see [`plan_items`] and [`plan_of_records`]). It always succeeds.
pub fn import_plan(html: &str) -> (r: Result<Vec<PlanEntry>, ImportError>)
    requires
        utf8_len(html@) <= MAX_DOCUMENT_BYTES,
    ensures
        r is Ok,
        plan_of_records(first_list_records(html@), plan_result_view(r)),
{
    let records = first_list_nodes(html);
    plan_from_records(&records)
}


/// The platform's separator of path components (`std::path::MAIN_SEPARATOR`): std documents
/// `/` on Unix and `\` on Windows, and every platform that std supports uses one of the two.
#[verifier::external_body]
pub(crate) fn main_separator() -> (c: char)
    ensures
        c == '/' || c == '\\',
{
    std::path::MAIN_SEPARATOR
}

/// A separator of path components where `sep` is the platform's own: `/` is one on every
/// platform.
pub open spec fn is_sep(c: char, sep: char) -> bool {
    c == '/' || c == sep
}

/// `dir` joined with `name` as `Path::join` does where `sep` is the platform's separator:
/// `sep` goes between them unless `dir` is empty or already ends with a separator. A `name`
/// that starts with a separator replaces `dir` (on Windows `Path::join` would keep the drive
/// of `dir`; the names joined here never start with one).
pub open spec fn join_path(dir: Seq<char>, name: Seq<char>, sep: char) -> Seq<char> {
    if name.len() > 0 && is_sep(name[0], sep) {
        name
    } else if dir.len() == 0 || is_sep(dir.last(), sep) {
        dir + name
    } else {
        dir + seq![sep] + name
    }
}

/// Executable form of [`join_path`].
pub fn join_path_string(dir: &str, name: &str, sep: char) -> (r: String)
    ensures
        r@ == join_path(dir@, name@, sep),
{
    let d = crate::text::char_vec(dir);
    let n = crate::text::char_vec(name);
    if n.len() > 0 && (n[0] == '/' || n[0] == sep) {
        return crate::text::string_of(&n, 0, n.len());
    }
    let mut r = crate::text::string_of(&d, 0, d.len());
    if !(d.len() == 0 || d[d.len() - 1] == '/' || d[d.len() - 1] == sep) {
        push_char(&mut r, sep);
    }
    push_str(&mut r, name);
    assert(d@.subrange(0, d@.len() as int) == d@);
    r
}

/// The file name for a bookmark or folder: `.url` appended for a bookmark.
pub open spec fn with_ext(name: Seq<char>, is_dir: bool) -> Seq<char> {
    if is_dir {
        name
    } else {
        name + ".url"@
    }
}

/// The `k`-th name tried for an entry: the name itself first, then `name (2)`, `name (3)`, ….
pub open spec fn candidate_name(name: Seq<char>, k: nat, is_dir: bool) -> Seq<char> {
    if k <= 1 {
        with_ext(name, is_dir)
    } else {
        with_ext(name + " ("@ + decimal(k) + ")"@, is_dir)
    }
}

/// The `k`-th path tried for an entry named `name` in `dir` (see [`candidate_name`]).
pub fn candidate_path(dir: &str, name: &str, k: u64, is_dir: bool, sep: char) -> (r: String)
    ensures
        r@ == join_path(dir@, candidate_name(name@, k as nat, is_dir), sep),
{
    let mut file = String::new();
    push_str(&mut file, name);
    if k > 1 {
        push_str(&mut file, " (");
        push_decimal(&mut file, k);
        push_str(&mut file, ")");
    }
    if !is_dir {
        push_str(&mut file, ".url");
    }
    join_path_string(dir, file.as_str(), sep)
}

/// Whether something exists at `path` (`std::path::Path::exists`). The answer depends on
/// the file system at the moment of the call: nothing is stated of it.
#[verifier::external_body]
fn path_exists(path: &str) -> bool {
    std::path::Path::new(path).exists()
}

/// The highest number tried in a name (`i32::MAX`).
pub const MAX_SUFFIX: u64 = 2147483647;

/// What to do after asking whether the `k`-th candidate name is taken.
#[derive(PartialEq, Eq, Structural, Clone, Copy, Debug)]
pub enum NameStep {
    /// Use this candidate.
    Use(u64),
    /// Ask about this candidate next.
    Next(u64),
    /// Every candidate up to [`MAX_SUFFIX`] is taken.
    Exhausted,
}

/// The step after learning whether the `k`-th candidate is `taken`: a free candidate is
/// used, a taken one is followed by the next, and after the last one there is none.
pub fn settle(k: u64, taken: bool) -> (r: NameStep)
    requires
        1 <= k <= MAX_SUFFIX,
    ensures
        !taken ==> r == NameStep::Use(k),
        taken && k < MAX_SUFFIX ==> r == NameStep::Next((k + 1) as u64),
        taken && k == MAX_SUFFIX ==> r == NameStep::Exhausted,
{
    if !taken {
        NameStep::Use(k)
    } else if k < MAX_SUFFIX {
        NameStep::Next(k + 1)
    } else {
        NameStep::Exhausted
    }
}

/// A path in `dir` for an entry named `name` at which nothing exists yet: the candidates
/// (see [`candidate_path`], joined with the platform's separator) are asked about in order,
/// and each answer goes to [`settle`].
/// `None` when every candidate up to [`MAX_SUFFIX`] is taken. Which candidate comes back,
/// and whether one does, rests on what the file system reports at each call: the contract
/// states only that a result is one of the candidates.
pub fn unique_path(dir: &str, name: &str, is_dir: bool) -> (r: Option<String>)
    ensures
        r matches Some(p) ==> exists|k: nat, sep: char|
            (sep == '/' || sep == '\\') && 1 <= k <= MAX_SUFFIX && p@ == #[trigger] join_path(
                dir@,
                candidate_name(name@, k, is_dir),
                sep,
            ),
{
    let sep = main_separator();
    let mut k: u64 = 1;
    loop
        invariant
            1 <= k <= MAX_SUFFIX,
            sep == '/' || sep == '\\',
        decreases MAX_SUFFIX - k,
    {
        let candidate = candidate_path(dir, name, k, is_dir, sep);
        let taken = path_exists(candidate.as_str());
        match settle(k, taken) {
            NameStep::Use(_) => {
                return Some(candidate);
            },
            NameStep::Next(n) => {
                k = n;
            },
            NameStep::Exhausted => {
                return None;
            },
        }
    }
}

/// How many folders and bookmarks an import created.
#[derive(Debug, Clone, Copy)]
pub struct ImportStats {
    pub folders: usize,
    pub bookmarks: usize,
}

/// Number of folders in a plan, nested ones included.
pub open spec fn plan_folders(s: Seq<PlanSpec>) -> nat
    decreases s,
{
    if s.len() == 0 {
        0
    } else {
        plan_folders(s.drop_last()) + match s.last() {
            PlanSpec::Folder { entries, .. } => 1 + plan_folders(entries),
            PlanSpec::Bookmark { .. } => 0,
        }
    }
}

/// Number of bookmarks in a plan, nested ones included.
pub open spec fn plan_bookmarks(s: Seq<PlanSpec>) -> nat
    decreases s,
{
    if s.len() == 0 {
        0
    } else {
        plan_bookmarks(s.drop_last()) + match s.last() {
            PlanSpec::Folder { entries, .. } => plan_bookmarks(entries),
            PlanSpec::Bookmark { .. } => 1,
        }
    }
}


/// `a + b`, or `usize::MAX` where the sum passes it.
pub open spec fn sat(a: int, b: int) -> int {
    if a + b > usize::MAX {
        usize::MAX as int
    } else {
        a + b
    }
}

/// Number of folders and of bookmarks in a plan (each saturated at `usize::MAX`).
pub fn count_plan(entries: &Vec<PlanEntry>) -> (r: ImportStats)
    ensures
        r.folders == sat(plan_folders(entries_view(entries@)) as int, 0),
        r.bookmarks == sat(plan_bookmarks(entries_view(entries@)) as int, 0),
    decreases entries@,
{
    let mut folders: usize = 0;
    let mut bookmarks: usize = 0;
    let mut i: usize = 0;
    while i < entries.len()
        invariant
            i <= entries.len(),
            folders == sat(plan_folders(entries_view(entries@.take(i as int))) as int, 0),
            bookmarks == sat(plan_bookmarks(entries_view(entries@.take(i as int))) as int, 0),
        decreases entries.len() - i,
    {
        proof {
            assert(entries@.take(i + 1).drop_last() == entries@.take(i as int));
            assert(entries_view(entries@.take(i + 1)).drop_last() == entries_view(
                entries@.take(i as int),
            ));
            assert(entries_view(entries@.take(i + 1)).last() == entry_view(entries@[i as int]));
        }
        match &entries[i] {
            PlanEntry::Folder { entries: inner, .. } => {
                let sub = count_plan(inner);
                folders = folders.saturating_add(1).saturating_add(sub.folders);
                bookmarks = bookmarks.saturating_add(sub.bookmarks);
            },
            PlanEntry::Bookmark { .. } => {
                bookmarks = bookmarks.saturating_add(1);
            },
        }
        i = i + 1;
    }
    assert(entries@.take(entries.len() as int) == entries@);
    ImportStats { folders, bookmarks }
}


/// A sanitized name holds none of the characters that file systems refuse and has at most
/// [`MAX_NAME_CHARS`] characters; a name that is short enough once cleaned is kept whole.
pub proof fn law_sanitized_name_is_safe(s: Seq<char>)
    ensures
        forall|i: int| 0 <= i < sanitize(s).len() ==> !is_forbidden(#[trigger] sanitize(s)[i]),
        sanitize(s).len() <= MAX_NAME_CHARS,
        clean_name(s).len() <= MAX_NAME_CHARS ==> sanitize(s) == clean_name(s),
{
    let r = replace_forbidden(s);
    let t = clean_name(s);
    crate::text::lemma_trim_is_subrange(r);
    let (a, b) = choose|a: int, b: int| 0 <= a <= b <= r.len() && trim(r) == r.subrange(a, b);
    assert forall|i: int| 0 <= i < sanitize(s).len() implies !is_forbidden(#[trigger] sanitize(s)[i]) by {
        assert(sanitize(s)[i] == t[i]);
        assert(t[i] == r[a + i]);
    }
}

/// The plan of the first `k` items of a list is a prefix of the list's plan.
pub proof fn lemma_plan_prefix(s: Seq<DomNode>, k: int)
    requires
        0 <= k <= s.len(),
    ensures
        plan_items(s.take(k)).is_prefix_of(plan_items(s)),
    decreases s.len() - k,
{
    if k < s.len() {
        let t = s.take(k + 1);
        assert(t.drop_last() == s.take(k));
        assert(t.last() == s[k]);
        lemma_plan_prefix(s, k + 1);
        let a = plan_items(s.take(k));
        let b = plan_items(t);
        let c = plan_items(s);
        assert(b == a + item_step(s[k], plan_items(nested_items(s[k]))));
        crate::text::lemma_prefix_append(a, item_step(s[k], plan_items(nested_items(s[k]))));
        crate::text::lemma_prefix_trans(a, b, c);
    } else {
        assert(s.take(k) == s);
        assert(plan_items(s) =~= plan_items(s).subrange(0, plan_items(s).len() as int));
    }
}

/// Every list item with a heading whose name is not blank becomes a folder of that name
/// holding the plan of its nested list, also where that list is empty or missing: the plan
/// of the list holds it, after the entries of the items before it.
pub proof fn law_named_folder_is_kept(s: Seq<DomNode>, i: int)
    requires
        0 <= i < s.len(),
        is_item(s[i]),
        (first_in_forest(s[i].children@, "h3"@) matches Some(h) && sanitize(node_text(h)).len()
            > 0),
    ensures
        plan_items(s).len() > plan_items(s.take(i)).len(),
        plan_items(s)[plan_items(s.take(i)).len() as int] == (PlanSpec::Folder {
            name: sanitize(node_text(first_in_forest(s[i].children@, "h3"@)->0)),
            entries: plan_items(nested_items(s[i])),
        }),
{
    let t = s.take(i + 1);
    assert(t.drop_last() == s.take(i));
    assert(t.last() == s[i]);
    lemma_plan_prefix(s, i + 1);
    let a = plan_items(s.take(i));
    assert(plan_items(t) == a + item_step(s[i], plan_items(nested_items(s[i]))));
    assert(plan_items(t)[a.len() as int] == plan_items(s).subrange(0, plan_items(t).len() as int)[a.len() as int]);
}

} // verus!
