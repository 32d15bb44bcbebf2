//! Link checking: which bookmarks to check, and how an answer is classified.
use crate::exporter::ends_with_url;
use crate::fs::{entries_size, entry_size, lemma_entries_size_member, FsEntry, Unreadable};
use crate::shortcut::{shortcut_url, url_line};
use crate::text::{
    char_vec, decimal, lemma_prefix_append, lemma_prefix_trans, push_decimal, push_str, str_eq,
    string_of,
};
use vstd::prelude::*;

verus! {

/// How a bookmark's link fared.
#[derive(PartialEq, Eq, Structural, Clone, Copy, Debug)]
pub enum CheckStatus {
    /// A success or redirection status, at the same URL.
    Okay,
    /// A success or redirection status, at another URL.
    Redirect,
    /// Any other status.
    Broken,
    /// The request timed out.
    Timeout,
    /// The request failed otherwise.
    Error,
}

/// The outcome of checking one bookmark.
#[derive(Debug)]
pub struct CheckResult {
    pub title: String,
    pub url: String,
    pub status: CheckStatus,
    pub final_url: Option<String>,
    pub error: Option<String>,
}

/// `s` without the `/` characters at its end.
pub open spec fn trim_slashes(s: Seq<char>) -> Seq<char>
    decreases s.len(),
{
    if s.len() > 0 && s.last() == '/' {
        trim_slashes(s.drop_last())
    } else {
        s
    }
}

/// A URL without the `/` characters at its end, so that a trailing slash does not count as a
/// redirect.
pub fn canonical(url: &str) -> (r: &str)
    ensures
        r@ == trim_slashes(url@),
{
    let v = char_vec(url);
    let mut end = v.len();
    assert(v@.take(end as int) == v@);
    while end > 0 && v[end - 1] == '/'
        invariant
            end <= v.len(),
            v@ == url@,
            trim_slashes(url@) == trim_slashes(v@.take(end as int)),
        decreases end,
    {
        assert(v@.take(end as int).drop_last() == v@.take(end - 1));
        end = end - 1;
    }
    url.substring_char(0, end)
}

/// Removing the slashes at the end twice removes nothing more.
pub proof fn law_canonical_idempotent(s: Seq<char>)
    ensures
        trim_slashes(trim_slashes(s)) == trim_slashes(s),
    decreases s.len(),
{
    if s.len() > 0 && s.last() == '/' {
        law_canonical_idempotent(s.drop_last());
    }
}

/// An answer from the bookmark's own URL with a `/` added at its end is no redirect.
pub proof fn law_trailing_slash_is_not_redirect(url: Seq<char>)
    ensures
        !redirected(url, url.push('/')),
{
    assert(url.push('/').drop_last() == url);
}

/// A status of the class 2xx (`StatusCode::is_success`).
pub open spec fn is_success(code: u16) -> bool {
    200 <= code <= 299
}

/// A status of the class 3xx (`StatusCode::is_redirection`).
pub open spec fn is_redirection(code: u16) -> bool {
    300 <= code <= 399
}

/// The request ended at another URL than the bookmark's, slashes at the end aside.
pub open spec fn redirected(url: Seq<char>, final_url: Seq<char>) -> bool {
    trim_slashes(final_url) != trim_slashes(url)
}

/// The message of a broken link: `HTTP` and the status code.
pub open spec fn http_message(code: u16) -> Seq<char> {
    "HTTP "@ + decimal(code as nat)
}

/// The outcome for a bookmark whose request was answered with `status_code`, the response
/// coming from `final_url`.
pub fn response_result(title: String, url: String, status_code: u16, final_url: String) -> (r:
    CheckResult)
    ensures
        r.title == title,
        r.url == url,
        is_success(status_code) || is_redirection(status_code) ==> {
            &&& r.status == (if redirected(url@, final_url@) {
                CheckStatus::Redirect
            } else {
                CheckStatus::Okay
            })
            &&& r.final_url == (if redirected(url@, final_url@) {
                Some(final_url)
            } else {
                None
            })
            &&& r.error is None
        },
        !(is_success(status_code) || is_redirection(status_code)) ==> {
            &&& r.status == CheckStatus::Broken
            &&& r.final_url is None
            &&& r.error matches Some(e) && e@ == http_message(status_code)
        },
{
    let moved = !str_eq(canonical(final_url.as_str()), canonical(url.as_str()));
    if (200 <= status_code && status_code <= 299) || (300 <= status_code && status_code <= 399) {
        CheckResult {
            title,
            url,
            status: if moved {
                CheckStatus::Redirect
            } else {
                CheckStatus::Okay
            },
            final_url: if moved {
                Some(final_url)
            } else {
                None
            },
            error: None,
        }
    } else {
        let mut message = String::new();
        push_str(&mut message, "HTTP ");
        push_decimal(&mut message, status_code as u64);
        CheckResult {
            title,
            url,
            status: CheckStatus::Broken,
            final_url: None,
            error: Some(message),
        }
    }
}

/// The outcome for a bookmark whose request failed: `timed_out` when it ran out of time,
/// `message` describing the failure otherwise.
pub fn failure_result(title: String, url: String, timed_out: bool, message: String) -> (r:
    CheckResult)
    ensures
        r.title == title,
        r.url == url,
        r.final_url is None,
        timed_out ==> r.status == CheckStatus::Timeout && (r.error matches Some(e) && e@
            == "Timeout"@),
        !timed_out ==> r.status == CheckStatus::Error && r.error == Some(message),
{
    if timed_out {
        let mut m = String::new();
        push_str(&mut m, "Timeout");
        CheckResult { title, url, status: CheckStatus::Timeout, final_url: None, error: Some(m) }
    } else {
        CheckResult { title, url, status: CheckStatus::Error, final_url: None, error: Some(message) }
    }
}

/// A file name with the extension `url` (`Path::extension`): it ends with `.url` and
/// something comes before.
pub open spec fn has_url_extension(name: Seq<char>) -> bool {
    name.len() > 4 && ends_with_url(name)
}

/// The name less its extension (`Path::file_stem`).
pub open spec fn url_stem(name: Seq<char>) -> Seq<char> {
    name.take(name.len() - 4)
}

/// The (title, URL) pairs of the bookmarks in a sequence of entries, in the order the file
/// system gives them, nested directories included; `None` when a directory's entries or a
/// shortcut file's text could not be read.
pub open spec fn collected(s: Seq<FsEntry>) -> Option<Seq<(Seq<char>, Seq<char>)>>
    decreases entries_size(s), 1int,
{
    if s.len() == 0 {
        Some(seq![])
    } else {
        proof {
            lemma_entries_size_member(s, s.len() - 1);
        }
        match (collected(s.drop_last()), collected_entry(s.last())) {
            (Some(a), Some(b)) => Some(a + b),
            _ => None,
        }
    }
}

/// The (title, URL) pairs of the bookmarks under one entry: a file with the extension `url`
/// gives its stem and the URL of its text, if it has one.
pub open spec fn collected_entry(e: FsEntry) -> Option<Seq<(Seq<char>, Seq<char>)>>
    decreases entry_size(e), 0int,
{
    if e.is_dir {
        if e.listed {
            collected(e.children@)
        } else {
            None
        }
    } else if has_url_extension(e.name@) {
        match e.content {
            None => None,
            Some(c) => match url_line(c@) {
                Some(u) => Some(seq![(url_stem(e.name@), u)]),
                None => Some(seq![]),
            },
        }
    } else {
        Some(seq![])
    }
}

/// The pairs of strings as pairs of character sequences.
pub open spec fn pairs_view(v: Seq<(String, String)>) -> Seq<(Seq<char>, Seq<char>)> {
    v.map_values(|p: (String, String)| (p.0@, p.1@))
}

pub proof fn lemma_collected_fails_from_prefix(s: Seq<FsEntry>, k: int)
    requires
        0 <= k <= s.len(),
        collected(s.take(k)) is None,
    ensures
        collected(s) is None,
    decreases s.len() - k,
{
    if k < s.len() {
        assert(s.take(k + 1).drop_last() == s.take(k));
        lemma_collected_fails_from_prefix(s, k + 1);
    } else {
        assert(s.take(k) == s);
    }
}

/// Appends the (title, URL) pairs of the bookmarks under one entry (see [`collected_entry`]).
fn collect_entry(e: &FsEntry, items: &mut Vec<(String, String)>) -> (r: Result<(), Unreadable>)
    ensures
        old(items)@.is_prefix_of(final(items)@),
        match collected_entry(*e) {
            None => r is Err,
            Some(x) => r is Ok && pairs_view(final(items)@) == pairs_view(old(items)@) + x,
        },
    decreases entry_size(*e), 0int,
{
    if e.is_dir {
        if e.listed {
            collect_recursive(&e.children, items)
        } else {
            Err(Unreadable)
        }
    } else {
        let v = char_vec(e.name.as_str());
        if v.len() > 4 && v[v.len() - 4] == '.' && v[v.len() - 3] == 'u' && v[v.len() - 2] == 'r'
            && v[v.len() - 1] == 'l' {
            assert(v@.subrange(v.len() - 4, v.len() as int) =~= crate::exporter::url_ext());
            match &e.content {
                None => Err(Unreadable),
                Some(c) => {
                    match shortcut_url(c.as_str()) {
                        Some(u) => {
                            let title = string_of(&v, 0, v.len() - 4);
                            let ghost o = items@;
                            items.push((title, u));
                            proof {
                                lemma_prefix_append(o, seq![(title, u)]);
                                assert(o + seq![(title, u)] == items@);
                            }
                            assert(pairs_view(items@) == pairs_view(o).push(
                                (url_stem(e.name@), u@),
                            ));
                        },
                        None => {
                            assert(pairs_view(items@) == pairs_view(items@) + Seq::<
                                (Seq<char>, Seq<char>),
                            >::empty());
                        },
                    }
                    Ok(())
                },
            }
        } else {
            proof {
                if v.len() > 4 {
                    let t = v@.subrange(v.len() - 4, v.len() as int);
                    if t == crate::exporter::url_ext() {
                        assert(t[0] == v@[v.len() - 4]);
                        assert(t[1] == v@[v.len() - 3]);
                        assert(t[2] == v@[v.len() - 2]);
                        assert(t[3] == v@[v.len() - 1]);
                    }
                }
            }
            assert(pairs_view(items@) == pairs_view(items@) + Seq::<
                (Seq<char>, Seq<char>),
            >::empty());
            Ok(())
        }
    }
}

/// Appends the (title, URL) pairs of the bookmarks in a sequence of entries (see
/// [`collected`]).
pub fn collect_recursive(entries: &Vec<FsEntry>, items: &mut Vec<(String, String)>) -> (r: Result<
    (),
    Unreadable,
>)
    ensures
        old(items)@.is_prefix_of(final(items)@),
        match collected(entries@) {
            None => r is Err,
            Some(x) => r is Ok && pairs_view(final(items)@) == pairs_view(old(items)@) + x,
        },
    decreases entries_size(entries@), 1int,
{
    let ghost o = items@;
    proof {
        lemma_prefix_append(o, Seq::empty());
        assert(o + Seq::<(String, String)>::empty() == o);
    }
    let mut i: usize = 0;
    while i < entries.len()
        invariant
            i <= entries.len(),
            o == old(items)@,
            o.is_prefix_of(items@),
            collected(entries@.take(i as int)) matches Some(x) && pairs_view(items@) == pairs_view(
                o,
            ) + x,
        decreases entries.len() - i,
    {
        proof {
            lemma_entries_size_member(entries@, i as int);
            assert(entries@.take(i + 1).drop_last() == entries@.take(i as int));
            assert(entries@.take(i + 1).last() == entries@[i as int]);
        }
        let ghost before = items@;
        match collect_entry(&entries[i], items) {
            Err(x) => {
                proof {
                    lemma_collected_fails_from_prefix(entries@, i + 1);
                    lemma_prefix_trans(o, before, items@);
                }
                return Err(x);
            },
            Ok(()) => {},
        }
        proof {
            lemma_prefix_trans(o, before, items@);
        }
        i = i + 1;
    }
    assert(entries@.take(entries.len() as int) == entries@);
    Ok(())
}

/// The (title, URL) pairs of all bookmarks in a directory's entries (see [`collected`]).
pub fn collect_urls(entries: &Vec<FsEntry>) -> (r: Result<Vec<(String, String)>, Unreadable>)
    ensures
        match collected(entries@) {
            None => r is Err,
            Some(x) => (r matches Ok(v) && pairs_view(v@) == x),
        },
{
    let mut items: Vec<(String, String)> = Vec::new();
    match collect_recursive(entries, &mut items) {
        Err(x) => Err(x),
        Ok(()) => {
            assert(pairs_view(Seq::<(String, String)>::empty()) == Seq::<
                (Seq<char>, Seq<char>),
            >::empty());
            Ok(items)
        },
    }
}

/// Where a sequence of entries collects, so do its first `k` entries, and their pairs come
/// first.
pub proof fn lemma_collected_prefix(s: Seq<FsEntry>, k: int)
    requires
        0 <= k <= s.len(),
        collected(s) is Some,
    ensures
        collected(s.take(k)) is Some,
        collected(s.take(k))->0.is_prefix_of(collected(s)->0),
    decreases s.len(),
{
    if k == s.len() {
        assert(s.take(k) == s);
        assert(collected(s)->0 =~= collected(s)->0.subrange(0, collected(s)->0.len() as int));
    } else {
        let p = s.drop_last();
        lemma_entries_size_member(s, s.len() - 1);
        assert(collected(p) is Some);
        lemma_collected_prefix(p, k);
        assert(p.take(k) == s.take(k));
        let b = collected_entry(s.last())->0;
        assert(collected(s)->0 == collected(p)->0 + b);
        lemma_prefix_append(collected(p)->0, b);
        lemma_prefix_trans(collected(s.take(k))->0, collected(p)->0, collected(s)->0);
    }
}

/// Every shortcut file is checked, whatever its URL: a file with the extension `url` whose
/// text has a URL line gives the pair of its stem and that URL, on its own and within any
/// sequence of entries that collects, in its place after the pairs of the entries before it.
pub proof fn law_every_shortcut_is_collected(s: Seq<FsEntry>, i: int, url: Seq<char>)
    requires
        0 <= i < s.len(),
        !s[i].is_dir,
        has_url_extension(s[i].name@),
        s[i].content matches Some(c) && url_line(c@) == Some(url),
    ensures
        collected(seq![s[i]]) == Some(seq![(url_stem(s[i].name@), url)]),
        collected(s) is Some ==> collected(s)->0.contains((url_stem(s[i].name@), url)),
{
    let f = s[i];
    let one = seq![f];
    assert(one.drop_last() == Seq::<FsEntry>::empty());
    assert(one.last() == f);
    assert(collected(Seq::<FsEntry>::empty()) == Some(Seq::<(Seq<char>, Seq<char>)>::empty()));
    assert(collected_entry(f) == Some(seq![(url_stem(f.name@), url)]));
    assert(Seq::<(Seq<char>, Seq<char>)>::empty() + seq![(url_stem(f.name@), url)] == seq![
        (url_stem(f.name@), url),
    ]);
    if collected(s) is Some {
        lemma_collected_prefix(s, i + 1);
        let t = s.take(i + 1);
        assert(t.drop_last() == s.take(i));
        assert(t.last() == f);
        lemma_entries_size_member(t, i);
        let a = collected(s.take(i))->0;
        assert(collected(t)->0 == a + seq![(url_stem(f.name@), url)]);
        let whole = collected(s)->0;
        assert(collected(t)->0[a.len() as int] == (url_stem(f.name@), url));
        assert(whole[a.len() as int] == collected(t)->0[a.len() as int]);
    }
}

} // verus!
