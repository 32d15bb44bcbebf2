//! A plain model of a bookmark directory as the exporter, the checker and the tree view
//! read it, and the order in which they visit it.
use crate::text::char_vec;
use vstd::prelude::*;

verus! {

/// One entry of a bookmark directory.
///
/// `modified` is the modification time in seconds since the Unix epoch (the time of
/// reading where the file system gives none); `content` is the text of a file whose name
/// ends with `.url` (`None` for other entries, and where the text could not be read);
/// `listed` says whether a directory's entries could be read, and `children` lists them in
/// the order the file system gives them.
pub struct FsEntry {
    pub name: String,
    pub is_dir: bool,
    pub is_file: bool,
    pub listed: bool,
    pub modified: i64,
    pub content: Option<String>,
    pub children: Vec<FsEntry>,
}

/// The entries of a directory, or the text of a file whose name ends with `.url`, could not
/// be read.
#[derive(PartialEq, Eq, Structural, Clone, Copy, Debug)]
pub struct Unreadable;

/// Number of entries in an entry's subtree.
pub open spec fn entry_size(e: FsEntry) -> nat
    decreases e,
{
    1 + entries_size(e.children@)
}

/// Number of entries in a sequence of subtrees.
pub open spec fn entries_size(s: Seq<FsEntry>) -> nat
    decreases s,
{
    if s.len() == 0 {
        0
    } else {
        entries_size(s.drop_last()) + entry_size(s.last())
    }
}

/// Code point order of names, which is the byte order of their UTF-8 encoding.
pub open spec fn name_le(a: Seq<char>, b: Seq<char>) -> bool
    decreases a.len(),
{
    if a.len() == 0 {
        true
    } else if b.len() == 0 {
        false
    } else if a[0] < b[0] {
        true
    } else if a[0] > b[0] {
        false
    } else {
        name_le(a.drop_first(), b.drop_first())
    }
}

/// The order of entries: by name, or with `files_last` by (is a file, name).
pub open spec fn entry_le(a: FsEntry, b: FsEntry, files_last: bool) -> bool {
    if files_last && a.is_file != b.is_file {
        !a.is_file
    } else {
        name_le(a.name@, b.name@)
    }
}

/// `x` placed in front of the first element of `s` that it does not follow.
pub open spec fn insert_entry(s: Seq<FsEntry>, x: FsEntry, files_last: bool) -> Seq<FsEntry>
    decreases s.len(),
{
    if s.len() == 0 {
        seq![x]
    } else if entry_le(x, s[0], files_last) {
        seq![x] + s
    } else {
        seq![s[0]] + insert_entry(s.drop_first(), x, files_last)
    }
}

/// The entries in ascending order, entries that compare equal kept in their order (a stable
/// sort, as `sort_by_key` does).
pub open spec fn sort_entries(s: Seq<FsEntry>, files_last: bool) -> Seq<FsEntry>
    decreases s.len(),
{
    if s.len() == 0 {
        seq![]
    } else {
        insert_entry(sort_entries(s.drop_first(), files_last), s[0], files_last)
    }
}

pub proof fn lemma_entries_size_concat(a: Seq<FsEntry>, b: Seq<FsEntry>)
    ensures
        entries_size(a + b) == entries_size(a) + entries_size(b),
    decreases b.len(),
{
    if b.len() == 0 {
        assert(a + b == a);
    } else {
        assert((a + b).drop_last() == a + b.drop_last());
        lemma_entries_size_concat(a, b.drop_last());
    }
}

pub proof fn lemma_entries_size_single(x: FsEntry)
    ensures
        entries_size(seq![x]) == entry_size(x),
{
    let s = seq![x];
    assert(s.drop_last() == Seq::<FsEntry>::empty());
    assert(entries_size(Seq::<FsEntry>::empty()) == 0);
    assert(s.last() == x);
}

pub proof fn lemma_insert_size(s: Seq<FsEntry>, x: FsEntry, files_last: bool)
    ensures
        entries_size(insert_entry(s, x, files_last)) == entries_size(s) + entry_size(x),
        insert_entry(s, x, files_last).len() == s.len() + 1,
    decreases s.len(),
{
    lemma_entries_size_concat(seq![x], s);
    if s.len() > 0 && !entry_le(x, s[0], files_last) {
        lemma_insert_size(s.drop_first(), x, files_last);
        lemma_entries_size_concat(seq![s[0]], s.drop_first());
        lemma_entries_size_concat(seq![s[0]], insert_entry(s.drop_first(), x, files_last));
        assert(seq![s[0]] + s.drop_first() == s);
    }
    lemma_entries_size_single(x);
}

/// Sorting keeps the entries: the same number, the same total size.
pub proof fn lemma_sort_size(s: Seq<FsEntry>, files_last: bool)
    ensures
        entries_size(sort_entries(s, files_last)) == entries_size(s),
        sort_entries(s, files_last).len() == s.len(),
    decreases s.len(),
{
    if s.len() > 0 {
        lemma_sort_size(s.drop_first(), files_last);
        lemma_insert_size(sort_entries(s.drop_first(), files_last), s[0], files_last);
        lemma_entries_size_concat(seq![s[0]], s.drop_first());
        assert(seq![s[0]] + s.drop_first() == s);
        lemma_entries_size_single(s[0]);
    }
}

pub proof fn lemma_entries_size_member(s: Seq<FsEntry>, i: int)
    requires
        0 <= i < s.len(),
    ensures
        entry_size(s[i]) <= entries_size(s),
    decreases s.len(),
{
    if i < s.len() - 1 {
        lemma_entries_size_member(s.drop_last(), i);
        assert(s.drop_last()[i] == s[i]);
    }
}

/// Executable form of [`name_le`].
pub fn name_le_exec(a: &str, b: &str) -> (r: bool)
    ensures
        r == name_le(a@, b@),
{
    let x = char_vec(a);
    let y = char_vec(b);
    let mut i: usize = 0;
    assert(x@.skip(0) == x@ && y@.skip(0) == y@);
    while i < x.len() && i < y.len() && x[i] == y[i]
        invariant
            i <= x.len(),
            i <= y.len(),
            x@ == a@,
            y@ == b@,
            name_le(x@, y@) == name_le(x@.skip(i as int), y@.skip(i as int)),
        decreases x.len() - i,
    {
        assert(x@.skip(i as int).drop_first() == x@.skip(i + 1));
        assert(y@.skip(i as int).drop_first() == y@.skip(i + 1));
        i = i + 1;
    }
    let ghost xs = x@.skip(i as int);
    let ghost ys = y@.skip(i as int);
    if i == x.len() {
        assert(xs.len() == 0);
        true
    } else if i == y.len() {
        assert(ys.len() == 0);
        false
    } else {
        assert(xs[0] == x@[i as int] && ys[0] == y@[i as int]);
        assert(x@[i as int] != y@[i as int]);
        x[i] < y[i]
    }
}

/// Executable form of [`entry_le`].
pub fn entry_le_exec(a: &FsEntry, b: &FsEntry, files_last: bool) -> (r: bool)
    ensures
        r == entry_le(*a, *b, files_last),
{
    if files_last && a.is_file != b.is_file {
        !a.is_file
    } else {
        name_le_exec(a.name.as_str(), b.name.as_str())
    }
}

pub proof fn lemma_insert_at(s: Seq<FsEntry>, x: FsEntry, files_last: bool, p: int)
    requires
        0 <= p <= s.len(),
        forall|j: int| 0 <= j < p ==> !entry_le(x, #[trigger] s[j], files_last),
        p == s.len() || entry_le(x, s[p], files_last),
    ensures
        insert_entry(s, x, files_last) == s.take(p) + seq![x] + s.skip(p),
    decreases p,
{
    if p == 0 {
        assert(s.skip(0) == s);
        if s.len() == 0 {
            assert(seq![x] + s == seq![x]);
        }
    } else {
        let t = s.drop_first();
        assert forall|j: int| 0 <= j < p - 1 implies !entry_le(x, #[trigger] t[j], files_last) by {
            assert(t[j] == s[j + 1]);
            assert(!entry_le(x, s[j + 1], files_last));
        }
        assert(!entry_le(x, s[0], files_last));
        lemma_insert_at(t, x, files_last, p - 1);
        assert(seq![s[0]] + (t.take(p - 1) + seq![x] + t.skip(p - 1)) == s.take(p) + seq![x]
            + s.skip(p));
    }
}

/// The entries in the order of [`sort_entries`].
pub fn sort_entry_vec(v: Vec<FsEntry>, files_last: bool) -> (r: Vec<FsEntry>)
    ensures
        r@ == sort_entries(v@, files_last),
{
    let ghost s = v@;
    let mut rest = v;
    let mut out: Vec<FsEntry> = Vec::new();
    assert(s.skip(s.len() as int) == Seq::<FsEntry>::empty());
    while rest.len() > 0
        invariant
            rest@ == s.take(rest@.len() as int),
            rest@.len() <= s.len(),
            out@ == sort_entries(s.skip(rest@.len() as int), files_last),
        decreases rest.len(),
    {
        let ghost k = rest@.len() as int;
        let x = rest.pop().unwrap();
        let mut p: usize = 0;
        while p < out.len() && !entry_le_exec(&x, &out[p], files_last)
            invariant
                p <= out.len(),
                forall|j: int| 0 <= j < p ==> !entry_le(x, #[trigger] out@[j], files_last),
            decreases out.len() - p,
        {
            p = p + 1;
        }
        proof {
            lemma_insert_at(out@, x, files_last, p as int);
            assert(s.skip(k - 1).drop_first() == s.skip(k));
            assert(s.skip(k - 1)[0] == s[k - 1]);
            assert(x == s[k - 1]);
        }
        out.insert(p, x);
        assert(out@ == sort_entries(s.skip(k - 1), files_last));
        assert(rest@ == s.take(k - 1));
    }
    assert(s.skip(0) == s);
    out
}


pub proof fn lemma_name_le_total(a: Seq<char>, b: Seq<char>)
    ensures
        name_le(a, b) || name_le(b, a),
    decreases a.len(),
{
    if a.len() > 0 && b.len() > 0 && a[0] == b[0] {
        lemma_name_le_total(a.drop_first(), b.drop_first());
    }
}

pub proof fn lemma_name_le_trans(a: Seq<char>, b: Seq<char>, c: Seq<char>)
    requires
        name_le(a, b),
        name_le(b, c),
    ensures
        name_le(a, c),
    decreases a.len(),
{
    if a.len() > 0 && b.len() > 0 && c.len() > 0 && a[0] == b[0] && b[0] == c[0] {
        lemma_name_le_trans(a.drop_first(), b.drop_first(), c.drop_first());
    }
}

pub proof fn lemma_entry_le_total(a: FsEntry, b: FsEntry, files_last: bool)
    ensures
        entry_le(a, b, files_last) || entry_le(b, a, files_last),
{
    lemma_name_le_total(a.name@, b.name@);
}

pub proof fn lemma_entry_le_trans(a: FsEntry, b: FsEntry, c: FsEntry, files_last: bool)
    requires
        entry_le(a, b, files_last),
        entry_le(b, c, files_last),
    ensures
        entry_le(a, c, files_last),
{
    if !(files_last && (a.is_file != b.is_file || b.is_file != c.is_file)) {
        lemma_name_le_trans(a.name@, b.name@, c.name@);
    }
}

/// The entries are in ascending order.
pub open spec fn entries_sorted(s: Seq<FsEntry>, files_last: bool) -> bool {
    forall|i: int, j: int| 0 <= i < j < s.len() ==> entry_le(#[trigger] s[i], #[trigger] s[j], files_last)
}

pub proof fn lemma_insert_members(s: Seq<FsEntry>, x: FsEntry, files_last: bool)
    ensures
        forall|k: int|
            0 <= k < insert_entry(s, x, files_last).len() ==> #[trigger] insert_entry(s, x, files_last)[k]
                == x || s.contains(insert_entry(s, x, files_last)[k]),
    decreases s.len(),
{
    lemma_insert_size(s, x, files_last);
    let r = insert_entry(s, x, files_last);
    if s.len() > 0 {
        if entry_le(x, s[0], files_last) {
            assert forall|k: int| 0 <= k < r.len() implies #[trigger] r[k] == x || s.contains(r[k]) by {
                if k > 0 {
                    assert(r[k] == s[k - 1]);
                }
            }
        } else {
            let t = s.drop_first();
            lemma_insert_members(t, x, files_last);
            assert forall|k: int| 0 <= k < r.len() implies #[trigger] r[k] == x || s.contains(r[k]) by {
                if k == 0 {
                    assert(r[0] == s[0]);
                } else {
                    let y = insert_entry(t, x, files_last)[k - 1];
                    assert(r[k] == y);
                    if y != x {
                        let m = choose|m: int| 0 <= m < t.len() && t[m] == y;
                        assert(s[m + 1] == y);
                    }
                }
            }
        }
    }
}

pub proof fn lemma_insert_sorted(s: Seq<FsEntry>, x: FsEntry, files_last: bool)
    requires
        entries_sorted(s, files_last),
    ensures
        entries_sorted(insert_entry(s, x, files_last), files_last),
    decreases s.len(),
{
    let r = insert_entry(s, x, files_last);
    if s.len() == 0 {
    } else if entry_le(x, s[0], files_last) {
        assert forall|i: int, j: int| 0 <= i < j < r.len() implies entry_le(#[trigger] r[i], #[trigger] r[j], files_last) by {
            if i == 0 {
                if j > 1 {
                    lemma_entry_le_trans(x, s[0], s[j - 1], files_last);
                }
            } else {
                assert(r[i] == s[i - 1] && r[j] == s[j - 1]);
            }
        }
    } else {
        let t = s.drop_first();
        lemma_insert_sorted(t, x, files_last);
        lemma_insert_members(t, x, files_last);
        lemma_insert_size(t, x, files_last);
        lemma_entry_le_total(x, s[0], files_last);
        let q = insert_entry(t, x, files_last);
        assert forall|i: int, j: int| 0 <= i < j < r.len() implies entry_le(#[trigger] r[i], #[trigger] r[j], files_last) by {
            assert(r[j] == q[j - 1]);
            if i == 0 {
                assert(r[0] == s[0]);
                if q[j - 1] != x {
                    let m = choose|m: int| 0 <= m < t.len() && t[m] == q[j - 1];
                    assert(s[m + 1] == q[j - 1]);
                }
            } else {
                assert(r[i] == q[i - 1]);
            }
        }
    }
}

/// Sorting puts the entries in ascending order: by name, or with `files_last` directories
/// and other entries before files, each group by name.
pub proof fn law_sorted_entries_are_ordered(s: Seq<FsEntry>, files_last: bool)
    ensures
        entries_sorted(sort_entries(s, files_last), files_last),
    decreases s.len(),
{
    if s.len() > 0 {
        law_sorted_entries_are_ordered(s.drop_first(), files_last);
        lemma_insert_sorted(sort_entries(s.drop_first(), files_last), s[0], files_last);
    }
}

} // verus!
