//! A plain model of the parsed bookmark document: the subtree of its first list element.
//!
//! The HTML parser hands the subtree over in preorder, each node with its number of
//! children ([`FlatNode`]); [`build_tree`] rebuilds the tree ([`DomNode`]) from it, and the
//! queries the importer needs (first descendant with a tag, descendant text) are defined
//! over the tree.

use crate::text::{push_str, str_eq};
use vstd::prelude::*;

verus! {

/// What a node of the document is.
#[derive(PartialEq, Eq, Structural, Clone, Copy)]
pub enum NodeKind {
    Element,
    Text,
    Other,
}

/// One node of a parsed HTML document with its subtree.
///
/// `name` is the local name of an element (empty otherwise), `href` its `href` attribute,
/// `text` the content of a text node (empty otherwise).
pub struct DomNode {
    pub kind: NodeKind,
    pub name: String,
    pub href: Option<String>,
    pub text: String,
    pub children: Vec<DomNode>,
}

/// One node of a parsed HTML document in preorder, with the number of its children.
pub struct FlatNode {
    pub kind: NodeKind,
    pub name: String,
    pub href: Option<String>,
    pub text: String,
    pub kids: usize,
}

/// Number of nodes in a node's subtree.
pub open spec fn node_size(n: DomNode) -> nat
    decreases n,
{
    1 + forest_size(n.children@)
}

/// Number of nodes in a sequence of subtrees.
pub open spec fn forest_size(s: Seq<DomNode>) -> nat
    decreases s,
{
    if s.len() == 0 {
        0
    } else {
        forest_size(s.drop_last()) + node_size(s.last())
    }
}

/// The preorder record of a node itself.
pub open spec fn head_of(n: DomNode) -> FlatNode {
    FlatNode {
        kind: n.kind,
        name: n.name,
        href: n.href,
        text: n.text,
        kids: n.children@.len() as usize,
    }
}

/// Preorder records of a subtree.
pub open spec fn flatten(n: DomNode) -> Seq<FlatNode>
    decreases n,
{
    seq![head_of(n)] + flatten_forest(n.children@)
}

/// Preorder records of a sequence of subtrees.
pub open spec fn flatten_forest(s: Seq<DomNode>) -> Seq<FlatNode>
    decreases s,
{
    if s.len() == 0 {
        seq![]
    } else {
        flatten_forest(s.drop_last()) + flatten(s.last())
    }
}

/// Where the subtree whose root record is at `pos` ends, if the records from `pos` on
/// describe a complete subtree.
pub open spec fn subtree_end(f: Seq<FlatNode>, pos: int) -> Option<int>
    decreases f.len() - pos, 0int, 0int,
{
    if 0 <= pos < f.len() {
        forest_end(f, pos + 1, f[pos].kids as int)
    } else {
        None
    }
}

/// Where `k` consecutive subtrees starting at `pos` end.
pub open spec fn forest_end(f: Seq<FlatNode>, pos: int, k: int) -> Option<int>
    decreases f.len() - pos, 1int, k,
{
    if k <= 0 {
        Some(pos)
    } else if pos < 0 || pos >= f.len() {
        None
    } else {
        match subtree_end(f, pos) {
            Some(e) => if pos < e <= f.len() {
                forest_end(f, e, k - 1)
            } else {
                None
            },
            None => None,
        }
    }
}

/// The records describe exactly one subtree.
pub open spec fn is_tree(f: Seq<FlatNode>) -> bool {
    subtree_end(f, 0) == Some(f.len() as int)
}

/// Two subtrees have the same records, node by node.
pub open spec fn same_node(a: DomNode, b: DomNode) -> bool
    decreases a,
{
    head_of(a) == head_of(b) && same_forest(a.children@, b.children@)
}

/// Two sequences of subtrees have the same records, subtree by subtree.
pub open spec fn same_forest(s: Seq<DomNode>, t: Seq<DomNode>) -> bool
    decreases s,
{
    s.len() == t.len() && (s.len() == 0 || (same_forest(s.drop_last(), t.drop_last()) && same_node(
        s.last(),
        t.last(),
    )))
}

pub proof fn lemma_forest_end_split(f: Seq<FlatNode>, p: int, a: int, b: int)
    requires
        a >= 0,
        b >= 0,
    ensures
        forest_end(f, p, a + b) == match forest_end(f, p, a) {
            Some(q) => forest_end(f, q, b),
            None => None,
        },
    decreases a,
{
    if a > 0 {
        if 0 <= p < f.len() {
            match subtree_end(f, p) {
                Some(e) => {
                    if p < e <= f.len() {
                        lemma_forest_end_split(f, e, a - 1, b);
                    }
                },
                None => {},
            }
        }
    }
}

/// The records of `f` from `p` on start with those of `t`.
pub open spec fn holds_at(f: Seq<FlatNode>, p: int, r: Seq<FlatNode>) -> bool {
    0 <= p && p + r.len() <= f.len() && f.subrange(p, p + r.len()) == r
}

/// Every node of the subtree has at most `usize::MAX` children, as any tree held in memory.
pub open spec fn fits_node(n: DomNode) -> bool
    decreases n,
{
    n.children@.len() <= usize::MAX && fits_forest(n.children@)
}

/// Every subtree fits (see [`fits_node`]).
pub open spec fn fits_forest(s: Seq<DomNode>) -> bool
    decreases s,
{
    s.len() == 0 || (fits_forest(s.drop_last()) && fits_node(s.last()))
}

pub proof fn lemma_flatten_at(t: DomNode, f: Seq<FlatNode>, p: int)
    requires
        fits_node(t),
        holds_at(f, p, flatten(t)),
    ensures
        subtree_end(f, p) == Some(p + flatten(t).len()),
    decreases t,
{
    let c = flatten_forest(t.children@);
    assert(flatten(t) == seq![head_of(t)] + c);
    assert(f[p] == flatten(t)[0]);
    assert(f.subrange(p + 1, p + 1 + c.len()) =~= c) by {
        assert forall|i: int| 0 <= i < c.len() implies f.subrange(p + 1, p + 1 + c.len())[i] == c[i] by {
            assert(f.subrange(p, p + flatten(t).len())[i + 1] == flatten(t)[i + 1]);
        }
    }
    lemma_flatten_forest_at(t.children@, f, p + 1);
}

pub proof fn lemma_flatten_forest_at(s: Seq<DomNode>, f: Seq<FlatNode>, p: int)
    requires
        fits_forest(s),
        holds_at(f, p, flatten_forest(s)),
    ensures
        forest_end(f, p, s.len() as int) == Some(p + flatten_forest(s).len()),
    decreases s,
{
    if s.len() > 0 {
        let a = flatten_forest(s.drop_last());
        let b = flatten(s.last());
        assert(flatten_forest(s) == a + b);
        assert(f.subrange(p, p + a.len()) =~= a) by {
            assert forall|i: int| 0 <= i < a.len() implies f.subrange(p, p + a.len())[i] == a[i] by {
                assert(f.subrange(p, p + flatten_forest(s).len())[i] == (a + b)[i]);
            }
        }
        let q = p + a.len();
        assert(f.subrange(q, q + b.len()) =~= b) by {
            assert forall|i: int| 0 <= i < b.len() implies f.subrange(q, q + b.len())[i] == b[i] by {
                assert(f.subrange(p, p + flatten_forest(s).len())[a.len() + i] == (a + b)[a.len()
                    + i]);
            }
        }
        lemma_flatten_forest_at(s.drop_last(), f, p);
        lemma_flatten_at(s.last(), f, q);
        lemma_forest_end_split(f, p, s.len() - 1, 1);
        assert(b.len() > 0);
        assert(forest_end(f, q + b.len(), 0) == Some(q + b.len()));
    }
}

/// Records that start with those of two subtrees determine them: the two have the same
/// records, node by node.
pub proof fn lemma_unique_at(t1: DomNode, t2: DomNode, f: Seq<FlatNode>, p: int)
    requires
        fits_node(t1),
        fits_node(t2),
        holds_at(f, p, flatten(t1)),
        holds_at(f, p, flatten(t2)),
    ensures
        same_node(t1, t2),
        flatten(t1) == flatten(t2),
    decreases t1,
{
    lemma_flatten_at(t1, f, p);
    lemma_flatten_at(t2, f, p);
    assert(flatten(t1) == flatten(t2));
    assert(flatten(t1)[0] == head_of(t1));
    assert(flatten(t2)[0] == head_of(t2));
    let c1 = flatten_forest(t1.children@);
    let c2 = flatten_forest(t2.children@);
    assert(flatten(t1) == seq![head_of(t1)] + c1);
    assert(flatten(t2) == seq![head_of(t2)] + c2);
    assert(c1 =~= flatten(t1).skip(1));
    assert(c2 =~= flatten(t2).skip(1));
    assert(f.subrange(p + 1, p + 1 + c1.len()) =~= c1) by {
        assert forall|i: int| 0 <= i < c1.len() implies f.subrange(p + 1, p + 1 + c1.len())[i] == c1[i] by {
            assert(f.subrange(p, p + flatten(t1).len())[i + 1] == flatten(t1)[i + 1]);
        }
    }
    lemma_unique_forest_at(t1.children@, t2.children@, f, p + 1);
}

/// The forest version of [`lemma_unique_at`].
pub proof fn lemma_unique_forest_at(s1: Seq<DomNode>, s2: Seq<DomNode>, f: Seq<FlatNode>, p: int)
    requires
        s1.len() == s2.len(),
        fits_forest(s1),
        fits_forest(s2),
        holds_at(f, p, flatten_forest(s1)),
        flatten_forest(s1) == flatten_forest(s2),
    ensures
        same_forest(s1, s2),
    decreases s1,
{
    if s1.len() > 0 {
        let a1 = flatten_forest(s1.drop_last());
        let b1 = flatten(s1.last());
        let a2 = flatten_forest(s2.drop_last());
        let b2 = flatten(s2.last());
        let whole = flatten_forest(s1);
        assert(whole == a1 + b1);
        assert(whole == a2 + b2);
        assert(f.subrange(p, p + a1.len()) =~= a1) by {
            assert forall|i: int| 0 <= i < a1.len() implies f.subrange(p, p + a1.len())[i] == a1[i] by {
                assert(f.subrange(p, p + whole.len())[i] == (a1 + b1)[i]);
            }
        }
        assert(f.subrange(p, p + a2.len()) =~= a2) by {
            assert forall|i: int| 0 <= i < a2.len() implies f.subrange(p, p + a2.len())[i] == a2[i] by {
                assert(f.subrange(p, p + whole.len())[i] == (a2 + b2)[i]);
            }
        }
        lemma_flatten_forest_at(s1.drop_last(), f, p);
        lemma_flatten_forest_at(s2.drop_last(), f, p);
        assert(a1.len() == a2.len());
        assert(a1 =~= a2);
        lemma_unique_forest_at(s1.drop_last(), s2.drop_last(), f, p);
        let q = p + a1.len();
        assert(f.subrange(q, q + b1.len()) =~= b1) by {
            assert forall|i: int| 0 <= i < b1.len() implies f.subrange(q, q + b1.len())[i] == b1[i] by {
                assert(f.subrange(p, p + whole.len())[a1.len() + i] == (a1 + b1)[a1.len() + i]);
            }
        }
        assert(f.subrange(q, q + b2.len()) =~= b2) by {
            assert forall|i: int| 0 <= i < b2.len() implies f.subrange(q, q + b2.len())[i] == b2[i] by {
                assert(f.subrange(p, p + whole.len())[a2.len() + i] == (a2 + b2)[a2.len() + i]);
            }
        }
        lemma_unique_at(s1.last(), s2.last(), f, q);
    }
}


fn copy_href(h: &Option<String>) -> (r: Option<String>)
    ensures
        r == *h,
{
    match h {
        Some(s) => Some(s.clone()),
        None => None,
    }
}

/// Rebuilds the subtree whose root record is at `pos`; gives it with the position where it ends.
fn build_node(f: &Vec<FlatNode>, pos: usize) -> (r: Option<(DomNode, usize)>)
    ensures
        r is Some <==> subtree_end(f@, pos as int) is Some,
        r matches Some((n, e)) ==> subtree_end(f@, pos as int) == Some(e as int) && pos < e
            <= f.len() && flatten(n) == f@.subrange(pos as int, e as int) && fits_node(n),
    decreases f.len() - pos, 0int, 0int,
{
    if pos >= f.len() {
        return None;
    }
    let rec = &f[pos];
    match build_children(f, pos + 1, rec.kids) {
        None => None,
        Some((children, e)) => {
            let n = DomNode {
                kind: rec.kind,
                name: rec.name.clone(),
                href: copy_href(&rec.href),
                text: rec.text.clone(),
                children,
            };
            assert(head_of(n) == f@[pos as int]);
            assert(f@.subrange(pos as int, e as int) == seq![f@[pos as int]] + f@.subrange(
                pos + 1,
                e as int,
            ));
            Some((n, e))
        },
    }
}

/// Rebuilds `k` consecutive subtrees starting at `pos`; gives them with the position where they end.
fn build_children(f: &Vec<FlatNode>, pos: usize, k: usize) -> (r: Option<(Vec<DomNode>, usize)>)
    requires
        pos <= f.len(),
    ensures
        r is Some <==> forest_end(f@, pos as int, k as int) is Some,
        r matches Some((v, e)) ==> forest_end(f@, pos as int, k as int) == Some(e as int) && pos
            <= e <= f.len() && v@.len() == k && flatten_forest(v@) == f@.subrange(
            pos as int,
            e as int,
        ) && fits_forest(v@),
    decreases f.len() - pos, 1int, k,
{
    let mut v: Vec<DomNode> = Vec::new();
    let mut p = pos;
    let mut j: usize = 0;
    while j < k
        invariant
            pos <= p <= f.len(),
            j <= k,
            v@.len() == j,
            fits_forest(v@),
            forest_end(f@, pos as int, k as int) == forest_end(f@, p as int, (k - j) as int),
            flatten_forest(v@) == f@.subrange(pos as int, p as int),
        decreases k - j,
    {
        match build_node(f, p) {
            None => {
                return None;
            },
            Some((n, e)) => {
                let ghost v0 = v@;
                v.push(n);
                assert(v@.drop_last() == v0);
                assert(f@.subrange(pos as int, e as int) == f@.subrange(pos as int, p as int)
                    + f@.subrange(p as int, e as int));
                p = e;
                j = j + 1;
            },
        }
    }
    Some((v, p))
}

/// Rebuilds the tree that the preorder records describe, if they describe exactly one.
pub fn build_tree(f: &Vec<FlatNode>) -> (r: Option<DomNode>)
    ensures
        r is Some <==> is_tree(f@),
        r matches Some(n) ==> flatten(n) == f@ && fits_node(n),
{
    match build_node(f, 0) {
        Some((n, e)) => {
            if e == f.len() {
                assert(f@.subrange(0, e as int) == f@);
                Some(n)
            } else {
                None
            }
        },
        None => None,
    }
}


/// The first element named `tag` in the subtree of `n`, in document order (`n` included).
pub open spec fn first_in_node(n: DomNode, tag: Seq<char>) -> Option<DomNode>
    decreases n,
{
    if n.kind == NodeKind::Element && n.name@ == tag {
        Some(n)
    } else {
        first_in_forest(n.children@, tag)
    }
}

/// The first element named `tag` in a sequence of subtrees, in document order.
pub open spec fn first_in_forest(s: Seq<DomNode>, tag: Seq<char>) -> Option<DomNode>
    decreases s,
{
    if s.len() == 0 {
        None
    } else {
        match first_in_forest(s.drop_last(), tag) {
            Some(x) => Some(x),
            None => first_in_node(s.last(), tag),
        }
    }
}

/// The text of a subtree: the content of its text nodes in document order.
pub open spec fn node_text(n: DomNode) -> Seq<char>
    decreases n,
{
    (if n.kind == NodeKind::Text {
        n.text@
    } else {
        Seq::<char>::empty()
    }) + forest_text(n.children@)
}

/// The text of a sequence of subtrees.
pub open spec fn forest_text(s: Seq<DomNode>) -> Seq<char>
    decreases s,
{
    if s.len() == 0 {
        seq![]
    } else {
        forest_text(s.drop_last()) + node_text(s.last())
    }
}

pub proof fn lemma_forest_size_member(s: Seq<DomNode>, i: int)
    requires
        0 <= i < s.len(),
    ensures
        node_size(s[i]) <= forest_size(s),
    decreases s.len(),
{
    if i < s.len() - 1 {
        lemma_forest_size_member(s.drop_last(), i);
    }
}

pub proof fn lemma_first_in_size(s: Seq<DomNode>, tag: Seq<char>)
    ensures
        first_in_forest(s, tag) matches Some(x) ==> node_size(x) <= forest_size(s),
    decreases s,
{
    if s.len() > 0 {
        lemma_first_in_size(s.drop_last(), tag);
        lemma_first_in_node_size(s.last(), tag);
    }
}

pub proof fn lemma_first_in_node_size(n: DomNode, tag: Seq<char>)
    ensures
        first_in_node(n, tag) matches Some(x) ==> node_size(x) <= node_size(n),
    decreases n,
{
    lemma_first_in_size(n.children@, tag);
}

/// Subtrees with the same records have the same text.
pub proof fn lemma_same_text(a: DomNode, b: DomNode)
    requires
        same_node(a, b),
    ensures
        node_text(a) == node_text(b),
    decreases a,
{
    lemma_same_forest_text(a.children@, b.children@);
}

pub proof fn lemma_same_forest_text(s: Seq<DomNode>, t: Seq<DomNode>)
    requires
        same_forest(s, t),
    ensures
        forest_text(s) == forest_text(t),
    decreases s,
{
    if s.len() > 0 {
        lemma_same_forest_text(s.drop_last(), t.drop_last());
        lemma_same_text(s.last(), t.last());
    }
}

/// Both have a first element named `tag`, with the same records, or neither has one.
pub open spec fn same_find(x: Option<DomNode>, y: Option<DomNode>) -> bool {
    match (x, y) {
        (None, None) => true,
        (Some(a), Some(b)) => same_node(a, b),
        _ => false,
    }
}

/// Subtrees with the same records have their first elements named `tag` with the same
/// records.
pub proof fn lemma_same_first(a: DomNode, b: DomNode, tag: Seq<char>)
    requires
        same_node(a, b),
    ensures
        same_find(first_in_node(a, tag), first_in_node(b, tag)),
    decreases a,
{
    assert(head_of(a).kind == a.kind && head_of(a).name == a.name);
    assert(head_of(b).kind == b.kind && head_of(b).name == b.name);
    lemma_same_forest_first(a.children@, b.children@, tag);
}

pub proof fn lemma_same_forest_first(s: Seq<DomNode>, t: Seq<DomNode>, tag: Seq<char>)
    requires
        same_forest(s, t),
    ensures
        same_find(first_in_forest(s, tag), first_in_forest(t, tag)),
    decreases s,
{
    if s.len() > 0 {
        lemma_same_forest_first(s.drop_last(), t.drop_last(), tag);
        lemma_same_first(s.last(), t.last(), tag);
    }
}

/// The first element named `tag` in the subtree of `n` (`n` included).
pub fn find_in_node<'a>(n: &'a DomNode, tag: &str) -> (r: Option<&'a DomNode>)
    ensures
        r matches Some(x) ==> first_in_node(*n, tag@) == Some(*x),
        r is None ==> first_in_node(*n, tag@) is None,
    decreases node_size(*n), 0int,
{
    if n.kind == NodeKind::Element && str_eq(n.name.as_str(), tag) {
        Some(n)
    } else {
        find_in_forest(&n.children, tag)
    }
}

/// The first element named `tag` in a sequence of subtrees.
pub fn find_in_forest<'a>(s: &'a Vec<DomNode>, tag: &str) -> (r: Option<&'a DomNode>)
    ensures
        r matches Some(x) ==> first_in_forest(s@, tag@) == Some(*x),
        r is None ==> first_in_forest(s@, tag@) is None,
    decreases forest_size(s@), 1int,
{
    let mut i: usize = 0;
    while i < s.len()
        invariant
            i <= s.len(),
            first_in_forest(s@.take(i as int), tag@) is None,
        decreases s.len() - i,
    {
        proof {
            lemma_forest_size_member(s@, i as int);
            assert(s@.take(i + 1).drop_last() == s@.take(i as int));
            assert(s@.take(i + 1).last() == s@[i as int]);
        }
        match find_in_node(&s[i], tag) {
            Some(x) => {
                proof {
                    lemma_first_in_prefix(s@, tag@, i + 1);
                }
                return Some(x);
            },
            None => {},
        }
        i = i + 1;
    }
    assert(s@.take(s.len() as int) == s@);
    None
}

/// Once a prefix holds a match, the whole sequence's first match is that one.
pub proof fn lemma_first_in_prefix(s: Seq<DomNode>, tag: Seq<char>, k: int)
    requires
        0 <= k <= s.len(),
        first_in_forest(s.take(k), tag) is Some,
    ensures
        first_in_forest(s, tag) == first_in_forest(s.take(k), tag),
    decreases s.len() - k,
{
    if k < s.len() {
        assert(s.take(k + 1).drop_last() == s.take(k));
        lemma_first_in_prefix(s, tag, k + 1);
    } else {
        assert(s.take(k) == s);
    }
}

/// Appends the text of the subtree of `n` to `out`.
pub fn push_node_text(n: &DomNode, out: &mut String)
    ensures
        final(out)@ == old(out)@ + node_text(*n),
    decreases node_size(*n), 0int,
{
    let ghost o = out@;
    if n.kind == NodeKind::Text {
        push_str(out, n.text.as_str());
    }
    push_forest_text(&n.children, out);
    assert(out@ == o + node_text(*n));
}

/// Appends the text of a sequence of subtrees to `out`.
pub fn push_forest_text(s: &Vec<DomNode>, out: &mut String)
    ensures
        final(out)@ == old(out)@ + forest_text(s@),
    decreases forest_size(s@), 1int,
{
    let ghost o = out@;
    let mut i: usize = 0;
    while i < s.len()
        invariant
            i <= s.len(),
            out@ == o + forest_text(s@.take(i as int)),
        decreases s.len() - i,
    {
        proof {
            lemma_forest_size_member(s@, i as int);
            assert(s@.take(i + 1).drop_last() == s@.take(i as int));
            assert(s@.take(i + 1).last() == s@[i as int]);
        }
        push_node_text(&s[i], out);
        i = i + 1;
    }
    assert(s@.take(s.len() as int) == s@);
}

/// The text of the subtree of `n`.
pub fn text_of(n: &DomNode) -> (t: String)
    ensures
        t@ == node_text(*n),
{
    let mut t = String::new();
    push_node_text(n, &mut t);
    t
}

} // verus!
