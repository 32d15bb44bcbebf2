//! `.url` shortcut files (Windows INI form): what the importer writes and what the
//! exporter, the checker and the tree view read back.
use crate::text::{
    char_vec, is_ws, lead_ws, push_str, string_of, trail_ws, trim, trim_bounds, trim_end, trim_start,
};
use vstd::prelude::*;

verus! {

/// The key that starts the URL line.
pub open spec fn url_key() -> Seq<char> {
    seq!['U', 'R', 'L', '=']
}

/// Length of the first line of `s` (up to the first `\n`).
pub open spec fn line_len(s: Seq<char>) -> nat
    decreases s.len(),
{
    if s.len() == 0 || s[0] == '\n' {
        0
    } else {
        1 + line_len(s.drop_first())
    }
}

/// The first line of a text that starts with `URL=` once trimmed of whitespace, trimmed;
/// `None` when no line does. Lines end at `\n`.
pub open spec fn key_line(s: Seq<char>) -> Option<Seq<char>>
    decreases s.len(),
{
    let e = line_len(s);
    let t = trim(s.take(e as int));
    if t.len() >= 4 && t.take(4) == url_key() {
        Some(t)
    } else if e < s.len() {
        key_line(s.skip(e as int + 1))
    } else {
        None
    }
}

/// The URL of a shortcut file's text: what follows `URL=` on its [`key_line`].
pub open spec fn url_line(s: Seq<char>) -> Option<Seq<char>> {
    match key_line(s) {
        Some(t) => Some(t.skip(4)),
        None => None,
    }
}

pub proof fn lemma_line_len_is(s: Seq<char>, i: int)
    requires
        0 <= i <= s.len(),
        forall|j: int| 0 <= j < i ==> #[trigger] s[j] != '\n',
        i == s.len() || s[i] == '\n',
    ensures
        line_len(s) == i,
    decreases i,
{
    if i > 0 {
        let t = s.drop_first();
        assert forall|j: int| 0 <= j < i - 1 implies #[trigger] t[j] != '\n' by {
            assert(t[j] == s[j + 1]);
        }
        lemma_line_len_is(t, i - 1);
    }
}

/// The text of the shortcut file for `url`.
pub open spec fn shortcut_text(url: Seq<char>) -> Seq<char> {
    "[InternetShortcut]\nURL="@ + url + "\n"@
}

/// The text of the shortcut file for `url`.
pub fn shortcut_content(url: &str) -> (r: String)
    ensures
        r@ == shortcut_text(url@),
{
    let mut s = String::new();
    push_str(&mut s, "[InternetShortcut]\nURL=");
    push_str(&mut s, url);
    push_str(&mut s, "\n");
    s
}

/// The URL of a shortcut file's text (see [`url_line`]).
pub fn shortcut_url(content: &str) -> (r: Option<String>)
    ensures
        r is Some <==> url_line(content@) is Some,
        r matches Some(u) ==> url_line(content@) == Some(u@),
{
    match find_key_line(content) {
        Some((v, a, b)) => {
            assert(v@.subrange(a as int, b as int).skip(4) == v@.subrange(a + 4, b as int));
            Some(string_of(&v, a + 4, b))
        },
        None => None,
    }
}

/// The [`key_line`] of a text, as `v[a..b]`.
pub fn find_key_line(content: &str) -> (r: Option<(Vec<char>, usize, usize)>)
    ensures
        r is Some <==> key_line(content@) is Some,
        r matches Some((v, a, b)) ==> a + 4 <= b <= v@.len() && key_line(content@) == Some(
            v@.subrange(a as int, b as int),
        ),
{
    let v = char_vec(content);
    let n = v.len();
    let mut pos: usize = 0;
    assert(v@.skip(0) == v@);
    loop
        invariant
            pos <= n == v@.len(),
            v@ == content@,
            key_line(v@) == key_line(v@.skip(pos as int)),
        decreases n - pos,
    {
        let ghost rest = v@.skip(pos as int);
        let mut e = pos;
        while e < n && v[e] != '\n'
            invariant
                pos <= e <= n == v@.len(),
                forall|j: int| pos <= j < e ==> v@[j] != '\n',
            decreases n - e,
        {
            e = e + 1;
        }
        proof {
            assert forall|j: int| 0 <= j < e - pos implies #[trigger] rest[j] != '\n' by {
                assert(rest[j] == v@[j + pos]);
            }
            lemma_line_len_is(rest, e - pos);
        }
        let line = {
            let mut l: Vec<char> = Vec::new();
            let mut k = pos;
            while k < e
                invariant
                    pos <= k <= e <= n == v@.len(),
                    l@ == v@.subrange(pos as int, k as int),
                decreases e - k,
            {
                l.push(v[k]);
                k = k + 1;
            }
            l
        };
        assert(line@ == rest.take(e - pos));
        let (a, b) = trim_bounds(&line);
        if b - a >= 4 && line[a] == 'U' && line[a + 1] == 'R' && line[a + 2] == 'L' && line[a + 3]
            == '=' {
            let ghost t = trim(rest.take(e - pos));
            assert(t.take(4) == url_key());
            return Some((line, a, b));
        }
        proof {
            let t = trim(rest.take(e - pos));
            if t.len() >= 4 {
                assert(t[0] == line@[a as int]);
                assert(t[1] == line@[a + 1]);
                assert(t[2] == line@[a + 2]);
                assert(t[3] == line@[a + 3]);
                assert(t.take(4)[0] == t[0]);
                assert(t.take(4)[1] == t[1]);
                assert(t.take(4)[2] == t[2]);
                assert(t.take(4)[3] == t[3]);
            }
        }
        if e == n {
            return None;
        }
        assert(rest.skip(e - pos + 1) == v@.skip(e + 1));
        pos = e + 1;
    }
}


pub proof fn lemma_trail_ws_after(p: Seq<char>, u: Seq<char>)
    requires
        p.len() > 0,
        !is_ws(p.last()),
    ensures
        trail_ws(p + u) == trail_ws(u),
    decreases u.len(),
{
    if u.len() == 0 {
        assert(p + u == p);
    } else {
        assert((p + u).drop_last() == p + u.drop_last());
        assert((p + u).last() == u.last());
        lemma_trail_ws_after(p, u.drop_last());
    }
}

/// A line that starts with a character other than whitespace has no leading whitespace.
pub proof fn lemma_trim_start_noop(s: Seq<char>)
    requires
        s.len() > 0,
        !is_ws(s[0]),
    ensures
        trim_start(s) == s,
{
    assert(lead_ws(s) == 0);
    assert(s.skip(0) == s);
}

/// Reading back the shortcut file written for a URL gives the URL, less any whitespace at
/// its end, provided the URL holds no line break.
pub proof fn law_url_survives_shortcut(url: Seq<char>)
    requires
        forall|i: int| 0 <= i < url.len() ==> url[i] != '\n',
    ensures
        url_line(shortcut_text(url)) == Some(trim_end(url)),
{
    reveal_strlit("[InternetShortcut]\nURL=");
    reveal_strlit("\n");
    let s = shortcut_text(url);
    let head = "[InternetShortcut]\nURL="@;
    assert(head.len() == 23);
    assert forall|j: int| 0 <= j < 18 implies #[trigger] s[j] != '\n' by {
        assert(s[j] == head[j]);
    }
    assert(s[18] == '\n');
    lemma_line_len_is(s, 18);
    let l1 = s.take(18);
    assert(l1[0] == '[');
    lemma_trim_start_noop(l1);
    assert(!is_ws(l1.last()));
    assert(trail_ws(l1) == 0);
    assert(trim(l1) == l1);
    assert(l1.take(4) != url_key()) by {
        assert(l1.take(4)[0] == '[');
    }
    let rest = s.skip(19);
    let line = seq!['U', 'R', 'L', '='] + url;
    assert(rest == line + seq!['\n']);
    assert forall|j: int| 0 <= j < line.len() implies #[trigger] rest[j] != '\n' by {
        if j >= 4 {
            assert(rest[j] == url[j - 4]);
        }
    }
    lemma_line_len_is(rest, line.len() as int);
    assert(rest.take(line.len() as int) == line);
    lemma_trim_start_noop(line);
    let key = seq!['U', 'R', 'L', '='];
    lemma_trail_ws_after(key, url);
    crate::text::lemma_trail_ws_bound(url);
    assert(trim_start(line) == line);
    assert(line.take(line.len() - trail_ws(line)) == key + url.take(url.len() - trail_ws(url)));
    assert(trim(line) == key + trim_end(url));
    assert((key + trim_end(url)).take(4) == url_key());
    assert((key + trim_end(url)).skip(4) == trim_end(url));
    assert(key_line(rest) == Some(trim(line)));
    assert(s.skip(19int) == rest);
    assert(key_line(s) == key_line(rest));
}

/// A key line starts with `URL=`.
pub proof fn lemma_key_line_form(s: Seq<char>)
    ensures
        key_line(s) matches Some(t) ==> t.len() >= 4 && t.take(4) == url_key(),
    decreases s.len(),
{
    let e = line_len(s);
    let t = trim(s.take(e as int));
    if !(t.len() >= 4 && t.take(4) == url_key()) && e < s.len() {
        lemma_key_line_form(s.skip(e as int + 1));
    }
}

} // verus!
