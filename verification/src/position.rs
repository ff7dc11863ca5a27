//! Location/offset model and range finder.
//!
//! Converts between absolute character offsets into the flattened document
//! and tree positions (a path of child indices, plus an offset local to the
//! addressed leaf), and resolves a collapsed cursor to the leaf it addresses.
//!
//! Tie-break at a boundary where one unit ends and the next begins: the later
//! unit is preferred, except when the later side leads with an atomic unit
//! (line break, mention, or link) and the earlier side ends in divisible
//! text, in which case the text is addressed at its end.

use vstd::prelude::*;
use vstd::slice::slice_index_get;
use vstd::slice::slice_subrange;

use crate::dom::ContainerKind;
use crate::dom::DomNode;
use crate::dom::children_of;
use crate::dom::lemma_nodes_text_append;
use crate::dom::lemma_nodes_text_singleton;
use crate::dom::lemma_nodes_text_split;
use crate::dom::lemma_nodes_wf_subrange;
use crate::dom::node_len;
use crate::dom::node_text;
use crate::dom::node_wf;
use crate::dom::nodes_text;
use crate::dom::nodes_wf;
use crate::dom::spec_is_atomic;
use crate::dom::spec_is_leaf;

verus! {

/// A handle addressing one node: the child index at each container level,
/// from the document root down.
pub open spec fn path_valid(s: Seq<DomNode>, p: Seq<usize>) -> bool
    decreases p.len(),
{
    &&& p.len() > 0
    &&& (p[0] as int) < s.len()
    &&& (p.len() > 1 ==> s[p[0] as int] is Container && path_valid(
        children_of(s[p[0] as int]),
        p.subrange(1, p.len() as int),
    ))
}

/// The node a handle addresses.
pub open spec fn node_at(s: Seq<DomNode>, p: Seq<usize>) -> DomNode
    decreases p.len(),
{
    if p.len() <= 1 {
        s[p[0] as int]
    } else {
        node_at(children_of(s[p[0] as int]), p.subrange(1, p.len() as int))
    }
}

/// The absolute offset at which the addressed node's text begins.
pub open spec fn path_offset(s: Seq<DomNode>, p: Seq<usize>) -> int
    decreases p.len(),
{
    nodes_text(s.subrange(0, p[0] as int)).len() + if p.len() <= 1 {
        0
    } else {
        path_offset(children_of(s[p[0] as int]), p.subrange(1, p.len() as int))
    }
}

/// Whether an offset avoids the strict inside of every atomic leaf; the
/// cursor may only sit at atomic leaves' boundaries.
pub open spec fn cur_ok_node(n: DomNode, t: int) -> bool
    decreases n,
{
    match n {
        DomNode::Mention { label, .. } => !(0 < t < label@.len()),
        DomNode::Container { children, .. } => cur_ok_nodes(children@, t),
        _ => true,
    }
}

/// `cur_ok_node` over a sibling list, with the offset taken relative to the
/// start of the list.
pub open spec fn cur_ok_nodes(s: Seq<DomNode>, t: int) -> bool
    decreases s,
{
    s.len() == 0 || (cur_ok_node(s[0], t) && cur_ok_nodes(
        s.subrange(1, s.len() as int),
        t - node_len(s[0]),
    ))
}

/// Whether a node starts with an atomic unit: an atomic leaf, a link, or a
/// container whose content leads with one.
pub open spec fn node_leads_atomic(n: DomNode) -> bool
    decreases n,
{
    match n {
        DomNode::Text { .. } => false,
        DomNode::LineBreak => true,
        DomNode::Mention { .. } => true,
        DomNode::Container { kind, children } => kind is Link || leads_atomic(children@),
    }
}

/// Whether a sibling list's first non-empty unit is atomic.
pub open spec fn leads_atomic(s: Seq<DomNode>) -> bool
    decreases s,
{
    if s.len() == 0 {
        false
    } else if node_len(s[0]) == 0 {
        leads_atomic(s.subrange(1, s.len() as int))
    } else {
        node_leads_atomic(s[0])
    }
}

/// Whether a node's content ends in divisible text.
pub open spec fn node_ends_text(n: DomNode) -> bool
    decreases n,
{
    match n {
        DomNode::Text { .. } => true,
        DomNode::LineBreak => false,
        DomNode::Mention { .. } => false,
        DomNode::Container { kind, children } => !(kind is Link) && ends_text(children@),
    }
}

/// Whether a sibling list's last non-empty unit ends in divisible text.
pub open spec fn ends_text(s: Seq<DomNode>) -> bool
    decreases s,
{
    if s.len() == 0 {
        false
    } else if node_len(s[s.len() - 1]) == 0 {
        ends_text(s.subrange(0, s.len() - 1))
    } else {
        node_ends_text(s[s.len() - 1])
    }
}

/// Bumps the top-level child index of a resolved position by one.
pub open spec fn shift1(r: Option<(Seq<usize>, int)>) -> Option<(Seq<usize>, int)> {
    match r {
        Some((p, l)) => Some((p.update(0, (p[0] + 1) as usize), l)),
        None => None,
    }
}

/// Prefixes a resolved position with child index zero.
pub open spec fn cons0(r: Option<(Seq<usize>, int)>) -> Option<(Seq<usize>, int)> {
    match r {
        Some((p, l)) => Some((seq![0usize] + p, l)),
        None => None,
    }
}

/// Resolves an offset inside one node to the leaf it addresses, as a path
/// relative to the node's children and an offset local to that leaf.
pub open spec fn resolve_node(n: DomNode, u: int) -> Option<(Seq<usize>, int)>
    decreases n,
{
    match n {
        DomNode::Container { children, .. } => resolve_nodes(children@, u),
        _ => Some((Seq::empty(), u)),
    }
}

/// Resolves an offset `t` (relative to the list start, `0 <= t <= ` total
/// text length) to the addressed leaf, applying the boundary tie-break.
pub open spec fn resolve_nodes(s: Seq<DomNode>, t: int) -> Option<(Seq<usize>, int)>
    decreases s,
{
    if s.len() == 0 {
        None
    } else {
        let l0 = node_len(s[0]) as int;
        let rest = s.subrange(1, s.len() as int);
        if l0 == 0 {
            shift1(resolve_nodes(rest, t))
        } else if t < l0 {
            cons0(resolve_node(s[0], t))
        } else if t == l0 {
            if nodes_text(rest).len() == 0 || (leads_atomic(rest) && node_ends_text(s[0])) {
                cons0(resolve_node(s[0], l0))
            } else {
                shift1(resolve_nodes(rest, 0))
            }
        } else {
            shift1(resolve_nodes(rest, t - l0))
        }
    }
}

/// A position resolved within the tail of a list keeps its meaning when the
/// list's head is put back in front of it.
proof fn lemma_shift_valid(s: Seq<DomNode>, p: Seq<usize>)
    requires
        0 < s.len() <= usize::MAX,
        path_valid(s.subrange(1, s.len() as int), p),
    ensures
        ({
            let rest = s.subrange(1, s.len() as int);
            let q = p.update(0, (p[0] + 1) as usize);
            &&& path_valid(s, q)
            &&& node_at(s, q) == node_at(rest, p)
            &&& path_offset(s, q) == node_len(s[0]) + path_offset(rest, p)
        }),
{
    let rest = s.subrange(1, s.len() as int);
    let q = p.update(0, (p[0] + 1) as usize);
    assert(p[0] as int + 1 < s.len());
    assert(q[0] as int == p[0] as int + 1);
    assert(s[q[0] as int] == rest[p[0] as int]);
    assert(q.subrange(1, q.len() as int) =~= p.subrange(1, p.len() as int));
    assert(s.subrange(0, q[0] as int) =~= seq![s[0]] + rest.subrange(0, p[0] as int));
    lemma_nodes_text_append(seq![s[0]], rest.subrange(0, p[0] as int));
    lemma_nodes_text_singleton(s[0]);
}

/// A position resolved within a container's children keeps its meaning when
/// addressed from outside, through the container sitting at index zero.
proof fn lemma_cons_valid(s: Seq<DomNode>, p: Seq<usize>)
    requires
        s.len() > 0,
        s[0] is Container,
        path_valid(children_of(s[0]), p),
    ensures
        ({
            let q = seq![0usize] + p;
            &&& path_valid(s, q)
            &&& node_at(s, q) == node_at(children_of(s[0]), p)
            &&& path_offset(s, q) == path_offset(children_of(s[0]), p)
        }),
{
    let q = seq![0usize] + p;
    assert(q[0] == 0usize);
    assert(q.len() == 1 + p.len());
    assert(q.subrange(1, q.len() as int) =~= p);
    assert(s.subrange(0, 0) =~= Seq::<DomNode>::empty());
}

/// What the range finder promises: a resolved position is a valid handle to
/// a non-empty leaf, the local offset stays within the leaf, and handle plus
/// local offset flatten back to the requested offset.  A document with any
/// text at all always resolves.
pub proof fn lemma_resolve_props(s: Seq<DomNode>, t: int)
    requires
        nodes_wf(s),
        s.len() <= usize::MAX,
        0 <= t <= nodes_text(s).len(),
    ensures
        resolve_nodes(s, t) is None ==> nodes_text(s).len() == 0,
        nodes_text(s).len() > 0 ==> resolve_nodes(s, t) is Some,
        resolve_nodes(s, t) is Some ==> ({
            let (p, l) = resolve_nodes(s, t)->Some_0;
            &&& path_valid(s, p)
            &&& spec_is_leaf(node_at(s, p))
            &&& node_len(node_at(s, p)) > 0
            &&& 0 <= l <= node_len(node_at(s, p))
            &&& path_offset(s, p) + l == t
        }),
    decreases s,
{
    if s.len() == 0 {
    } else {
        let l0 = node_len(s[0]) as int;
        let rest = s.subrange(1, s.len() as int);
        lemma_nodes_wf_subrange(s, 1, s.len() as int);
        assert(node_wf(s[0]));
        if l0 == 0 {
            assert(resolve_nodes(s, t) == shift1(resolve_nodes(rest, t)));
            lemma_resolve_props(rest, t);
            if resolve_nodes(rest, t) is Some {
                let (p, l) = resolve_nodes(rest, t)->Some_0;
                lemma_shift_valid(s, p);
                assert(resolve_nodes(s, t)->Some_0.0 == p.update(0, (p[0] + 1) as usize));
                assert(path_valid(s, resolve_nodes(s, t)->Some_0.0));
                assert(path_offset(s, resolve_nodes(s, t)->Some_0.0) + l == t);
            } else {
                assert(nodes_text(rest).len() == 0);
                assert(nodes_text(s) == node_text(s[0]) + nodes_text(rest));
                assert(nodes_text(s).len() == 0);
            }
        } else if t < l0 || (t == l0 && (nodes_text(rest).len() == 0 || (leads_atomic(rest)
            && node_ends_text(s[0])))) {
            let u = if t < l0 { t } else { l0 };
            assert(resolve_nodes(s, t) == cons0(resolve_node(s[0], u)));
            match s[0] {
                DomNode::Container { children, .. } => {
                    assert(resolve_node(s[0], u) == resolve_nodes(children@, u));
                    assert(nodes_wf(children@));
                    assert(children.len() == children@.len());
                    assert(nodes_text(children@).len() == l0);
                    lemma_resolve_props(children@, u);
                    let (p, l) = resolve_nodes(children@, u)->Some_0;
                    lemma_cons_valid(s, p);
                    assert(path_valid(s, resolve_nodes(s, t)->Some_0.0));
                    assert(path_offset(s, resolve_nodes(s, t)->Some_0.0) + resolve_nodes(s, t)->Some_0.1 == t);
                },
                _ => {
                    let q = seq![0usize] + Seq::<usize>::empty();
                    assert(q =~= seq![0usize]);
                    assert(q.len() == 1);
                    assert(s.subrange(0, 0) =~= Seq::<DomNode>::empty());
                    assert(path_offset(s, q) == 0);
                },
            }
        } else {
            let tr = if t == l0 {
                0
            } else {
                t - l0
            };
            assert(nodes_text(rest).len() > 0);
            assert(resolve_nodes(s, t) == shift1(resolve_nodes(rest, tr)));
            lemma_resolve_props(rest, tr);
            let (p, l) = resolve_nodes(rest, tr)->Some_0;
            lemma_shift_valid(s, p);
            assert(path_valid(s, resolve_nodes(s, t)->Some_0.0));
            assert(path_offset(s, resolve_nodes(s, t)->Some_0.0) + resolve_nodes(s, t)->Some_0.1 == t);
        }
    }
}

/// When the cursor avoids the strict inside of every atomic leaf, a strictly
/// interior resolved position can only address divisible text.
pub proof fn lemma_resolve_not_atomic(s: Seq<DomNode>, t: int)
    requires
        nodes_wf(s),
        s.len() <= usize::MAX,
        0 <= t <= nodes_text(s).len(),
        cur_ok_nodes(s, t),
    ensures
        resolve_nodes(s, t) is Some ==> ({
            let (p, l) = resolve_nodes(s, t)->Some_0;
            0 < l < node_len(node_at(s, p)) ==> !spec_is_atomic(node_at(s, p))
        }),
    decreases s,
{
    if s.len() == 0 {
    } else {
        let l0 = node_len(s[0]) as int;
        let rest = s.subrange(1, s.len() as int);
        lemma_nodes_wf_subrange(s, 1, s.len() as int);
        assert(node_wf(s[0]));
        if l0 == 0 {
            assert(cur_ok_nodes(rest, t - l0));
            lemma_resolve_not_atomic(rest, t);
            if resolve_nodes(rest, t) is Some {
                let (p, l) = resolve_nodes(rest, t)->Some_0;
                lemma_resolve_props(rest, t);
                lemma_shift_valid(s, p);
                assert(node_at(s, resolve_nodes(s, t)->Some_0.0) == node_at(rest, p));
            }
        } else if t < l0 || (t == l0 && (nodes_text(rest).len() == 0 || (leads_atomic(rest)
            && node_ends_text(s[0])))) {
            let u = if t < l0 { t } else { l0 };
            assert(resolve_nodes(s, t) == cons0(resolve_node(s[0], u)));
            match s[0] {
                DomNode::Container { children, .. } => {
                    assert(resolve_node(s[0], u) == resolve_nodes(children@, u));
                    assert(nodes_wf(children@));
                    assert(children.len() == children@.len());
                    assert(nodes_text(children@).len() == l0);
                    assert(cur_ok_node(s[0], t));
                    assert(cur_ok_nodes(children@, t));
                    assert(u == t);
                    lemma_resolve_not_atomic(children@, u);
                    lemma_resolve_props(children@, u);
                    let (p, l) = resolve_nodes(children@, u)->Some_0;
                    lemma_cons_valid(s, p);
                    assert(node_at(s, resolve_nodes(s, t)->Some_0.0) == node_at(children@, p));
                },
                _ => {
                    assert(cur_ok_node(s[0], t));
                    assert(resolve_nodes(s, t)->Some_0.1 == u);
                },
            }
        } else {
            let tr = if t == l0 {
                0
            } else {
                t - l0
            };
            assert(cur_ok_nodes(rest, t - l0));
            assert(tr == t - l0 || (t == l0 && tr == 0));
            lemma_resolve_not_atomic(rest, tr);
            lemma_resolve_props(rest, tr);
            let (p, l) = resolve_nodes(rest, tr)->Some_0;
            lemma_shift_valid(s, p);
            assert(node_at(s, resolve_nodes(s, t)->Some_0.0) == node_at(rest, p));
            assert(resolve_nodes(s, t)->Some_0.1 == l);
        }
    }
}

/// Character length of one node's flattened text.
pub fn text_len_node(n: &DomNode) -> (r: usize)
    requires
        node_len(*n) <= usize::MAX,
    ensures
        r as nat == node_len(*n),
    decreases *n,
{
    match n {
        DomNode::Text { chars } => chars.len(),
        DomNode::LineBreak => 1,
        DomNode::Mention { label, .. } => label.len(),
        DomNode::Container { children, .. } => {
            proof {
                assert(node_text(*n) == nodes_text(children@));
            }
            text_len_slice(children.as_slice())
        },
    }
}

/// Character length of a sibling list's flattened text.
pub fn text_len_slice(s: &[DomNode]) -> (r: usize)
    requires
        nodes_text(s@).len() <= usize::MAX,
    ensures
        r as nat == nodes_text(s@).len(),
    decreases s@,
{
    let mut acc: usize = 0;
    let mut i: usize = 0;
    while i < s.len()
        invariant
            i <= s@.len(),
            nodes_text(s@).len() <= usize::MAX,
            acc as nat == nodes_text(s@.subrange(0, i as int)).len(),
        decreases s@.len() - i,
    {
        proof {
            lemma_nodes_text_split(s@, i as int);
            assert(s@.subrange(i as int, s@.len() as int)[0] == s@[i as int]);
            assert(s@.subrange(i as int, s@.len() as int).subrange(
                1,
                s@.len() - i as int,
            ) =~= s@.subrange(i as int + 1, s@.len() as int));
            assert(nodes_text(s@.subrange(i as int, s@.len() as int)) == node_text(s@[i as int])
                + nodes_text(s@.subrange(i as int + 1, s@.len() as int)));
            assert(s@.subrange(0, i as int + 1) =~= s@.subrange(0, i as int) + seq![s@[i as int]]);
            lemma_nodes_text_append(s@.subrange(0, i as int), seq![s@[i as int]]);
            lemma_nodes_text_singleton(s@[i as int]);
        }
        let l = text_len_node(slice_index_get(s, i));
        acc = acc + l;
        i = i + 1;
    }
    proof {
        assert(s@.subrange(0, s@.len() as int) =~= s@);
    }
    acc
}

/// Whether a node's content starts with an atomic unit.
fn leads_atomic_node(n: &DomNode) -> (r: bool)
    requires
        node_len(*n) <= usize::MAX,
    ensures
        r == node_leads_atomic(*n),
    decreases *n,
{
    match n {
        DomNode::Text { .. } => false,
        DomNode::LineBreak => true,
        DomNode::Mention { .. } => true,
        DomNode::Container { kind, children } => match kind {
            ContainerKind::Link { .. } => true,
            _ => {
                proof {
                    assert(node_text(*n) == nodes_text(children@));
                }
                leads_atomic_slice(children.as_slice())
            },
        },
    }
}

/// Whether a sibling list's first non-empty unit is atomic.
fn leads_atomic_slice(s: &[DomNode]) -> (r: bool)
    requires
        nodes_text(s@).len() <= usize::MAX,
    ensures
        r == leads_atomic(s@),
    decreases s@,
{
    if s.len() == 0 {
        false
    } else {
        proof {
            assert(s@.subrange(1, s@.len() as int)[0 - 0] == s@[1] || s@.len() == 1);
            assert(nodes_text(s@) == node_text(s@[0]) + nodes_text(
                s@.subrange(1, s@.len() as int),
            ));
        }
        let first = slice_index_get(s, 0);
        let l0 = text_len_node(first);
        if l0 == 0 {
            leads_atomic_slice(slice_subrange(s, 1, s.len()))
        } else {
            leads_atomic_node(first)
        }
    }
}

/// Whether a node's content ends in divisible text.
fn ends_text_node(n: &DomNode) -> (r: bool)
    requires
        node_len(*n) <= usize::MAX,
    ensures
        r == node_ends_text(*n),
    decreases *n,
{
    match n {
        DomNode::Text { .. } => true,
        DomNode::LineBreak => false,
        DomNode::Mention { .. } => false,
        DomNode::Container { kind, children } => match kind {
            ContainerKind::Link { .. } => false,
            _ => {
                proof {
                    assert(node_text(*n) == nodes_text(children@));
                }
                ends_text_slice(children.as_slice())
            },
        },
    }
}

/// Whether a sibling list's last non-empty unit ends in divisible text.
fn ends_text_slice(s: &[DomNode]) -> (r: bool)
    requires
        nodes_text(s@).len() <= usize::MAX,
    ensures
        r == ends_text(s@),
    decreases s@,
{
    if s.len() == 0 {
        false
    } else {
        proof {
            lemma_nodes_text_split(s@, s@.len() - 1);
            assert(s@.subrange(s@.len() - 1, s@.len() as int)[0] == s@[s@.len() - 1]);
            assert(s@.subrange(s@.len() - 1, s@.len() as int).subrange(1, 1)
                =~= Seq::<DomNode>::empty());
            assert(nodes_text(s@.subrange(s@.len() - 1, s@.len() as int)) == node_text(
                s@[s@.len() - 1],
            ) + nodes_text(Seq::<DomNode>::empty()));
        }
        let last = slice_index_get(s, s.len() - 1);
        let ll = text_len_node(last);
        if ll == 0 {
            ends_text_slice(slice_subrange(s, 0, s.len() - 1))
        } else {
            ends_text_node(last)
        }
    }
}

/// Prefixes a resolved position with child index zero.
fn cons_zero(r: Option<(Vec<usize>, usize)>) -> (out: Option<(Vec<usize>, usize)>)
    ensures
        out is Some <==> r is Some,
        r is Some ==> out->Some_0.0@ == seq![0usize] + r->Some_0.0@ && out->Some_0.1 == r
            ->Some_0.1,
{
    match r {
        Some((p, l)) => {
            let mut p2 = p;
            p2.insert(0, 0);
            proof {
                assert(p2@ =~= seq![0usize] + p@);
            }
            Some((p2, l))
        },
        None => None,
    }
}

/// Bumps the top-level child index of a resolved position by one.
fn bump_first(r: Option<(Vec<usize>, usize)>) -> (out: Option<(Vec<usize>, usize)>)
    requires
        r is Some ==> r->Some_0.0@.len() > 0 && r->Some_0.0@[0] as int + 1 <= usize::MAX,
    ensures
        out is Some <==> r is Some,
        r is Some ==> out->Some_0.0@ == r->Some_0.0@.update(
            0,
            (r->Some_0.0@[0] + 1) as usize,
        ) && out->Some_0.1 == r->Some_0.1,
{
    match r {
        Some((p, l)) => {
            let v = p[0];
            let mut p2 = p;
            p2.remove(0);
            p2.insert(0, v + 1);
            proof {
                assert(p2@ =~= p@.update(0, (v + 1) as usize));
            }
            Some((p2, l))
        },
        None => None,
    }
}

/// Resolves an offset within one node; mirrors `resolve_node`.
fn resolve_into(n: &DomNode, u: usize) -> (r: Option<(Vec<usize>, usize)>)
    requires
        node_wf(*n),
        node_len(*n) <= usize::MAX,
        u as nat <= node_len(*n),
    ensures
        r is Some <==> resolve_node(*n, u as int) is Some,
        r is Some ==> resolve_node(*n, u as int)->Some_0.0 == r->Some_0.0@ && resolve_node(
            *n,
            u as int,
        )->Some_0.1 == r->Some_0.1 as int,
    decreases *n,
{
    match n {
        DomNode::Container { children, .. } => {
            proof {
                assert(node_text(*n) == nodes_text(children@));
                assert(nodes_wf(children@));
            }
            resolve_slice(children.as_slice(), u)
        },
        _ => {
            let p: Vec<usize> = Vec::new();
            proof {
                assert(p@ =~= Seq::<usize>::empty());
            }
            Some((p, u))
        },
    }
}

/// Resolves an offset to the leaf it addresses; mirrors `resolve_nodes`.
pub fn resolve_slice(s: &[DomNode], t: usize) -> (r: Option<(Vec<usize>, usize)>)
    requires
        nodes_wf(s@),
        nodes_text(s@).len() <= usize::MAX,
        t as nat <= nodes_text(s@).len(),
    ensures
        r is Some <==> resolve_nodes(s@, t as int) is Some,
        r is Some ==> resolve_nodes(s@, t as int)->Some_0.0 == r->Some_0.0@ && resolve_nodes(
            s@,
            t as int,
        )->Some_0.1 == r->Some_0.1 as int,
    decreases s@,
{
    if s.len() == 0 {
        None
    } else {
        let ghost rest_g = s@.subrange(1, s@.len() as int);
        proof {
            assert(nodes_text(s@) == node_text(s@[0]) + nodes_text(rest_g));
            lemma_nodes_wf_subrange(s@, 1, s@.len() as int);
        }
        let first = slice_index_get(s, 0);
        let l0 = text_len_node(first);
        let rest = slice_subrange(s, 1, s.len());
        if l0 == 0 {
            proof {
                assert(resolve_nodes(s@, t as int) == shift1(resolve_nodes(rest_g, t as int)));
                lemma_resolve_props(rest_g, t as int);
            }
            bump_first(resolve_slice(rest, t))
        } else if t < l0 {
            proof {
                assert(resolve_nodes(s@, t as int) == cons0(resolve_node(s@[0], t as int)));
            }
            cons_zero(resolve_into(first, t))
        } else if t == l0 {
            let rest_len = text_len_slice(rest);
            let take_first = rest_len == 0 || (leads_atomic_slice(rest) && ends_text_node(first));
            if take_first {
                proof {
                    assert(resolve_nodes(s@, t as int) == cons0(resolve_node(s@[0], l0 as int)));
                }
                cons_zero(resolve_into(first, l0))
            } else {
                proof {
                    assert(resolve_nodes(s@, t as int) == shift1(resolve_nodes(rest_g, 0)));
                    lemma_resolve_props(rest_g, 0);
                }
                bump_first(resolve_slice(rest, 0))
            }
        } else {
            proof {
                assert(resolve_nodes(s@, t as int) == shift1(
                    resolve_nodes(rest_g, t as int - l0 as int),
                ));
                lemma_resolve_props(rest_g, t as int - l0 as int);
            }
            bump_first(resolve_slice(rest, t - l0))
        }
    }
}

/// At the very end of a document with text, the finder always addresses the
/// last leaf at its end — never the start of anything — so an insertion
/// there takes the cursor-at-end branch whatever kind the last leaf is.
pub proof fn lemma_resolve_at_document_end(s: Seq<DomNode>)
    requires
        nodes_wf(s),
        s.len() <= usize::MAX,
        nodes_text(s).len() > 0,
    ensures
        ({
            let r = resolve_nodes(s, nodes_text(s).len() as int);
            &&& r is Some
            &&& r->Some_0.1 == node_len(node_at(s, r->Some_0.0))
        }),
    decreases s,
{
    let t = nodes_text(s).len() as int;
    let l0 = node_len(s[0]) as int;
    let rest = s.subrange(1, s.len() as int);
    lemma_nodes_wf_subrange(s, 1, s.len() as int);
    assert(nodes_text(s) == node_text(s[0]) + nodes_text(rest));
    lemma_resolve_props(s, t);
    if l0 == 0 {
        lemma_resolve_at_document_end(rest);
        lemma_resolve_props(rest, t);
        let (p, l) = resolve_nodes(rest, t)->Some_0;
        lemma_shift_valid(s, p);
        assert(resolve_nodes(s, t) == shift1(resolve_nodes(rest, t)));
    } else if t == l0 {
        assert(nodes_text(rest).len() == 0);
        assert(resolve_nodes(s, t) == cons0(resolve_node(s[0], l0)));
        match s[0] {
            DomNode::Container { children, .. } => {
                assert(children.len() == children@.len());
                assert(nodes_wf(children@));
                assert(nodes_text(children@).len() == l0);
                lemma_resolve_at_document_end(children@);
                lemma_resolve_props(children@, l0);
                let (p, l) = resolve_nodes(children@, l0)->Some_0;
                lemma_cons_valid(s, p);
            },
            _ => {
                let q = seq![0usize] + Seq::<usize>::empty();
                assert(q =~= seq![0usize]);
                assert(q.len() == 1);
            },
        }
    } else {
        assert(t > l0);
        assert(nodes_text(rest).len() == t - l0);
        assert(resolve_nodes(s, t) == shift1(resolve_nodes(rest, t - l0)));
        lemma_resolve_at_document_end(rest);
        lemma_resolve_props(rest, t - l0);
        let (p, l) = resolve_nodes(rest, t - l0)->Some_0;
        lemma_shift_valid(s, p);
    }
}

/// A prefix of a valid handle is itself a valid handle, and for a proper
/// prefix it addresses a container.
pub proof fn lemma_path_prefix_valid(s: Seq<DomNode>, p: Seq<usize>, k: int)
    requires
        path_valid(s, p),
        1 <= k <= p.len(),
    ensures
        path_valid(s, p.subrange(0, k)),
        k < p.len() ==> node_at(s, p.subrange(0, k)) is Container,
    decreases p.len(),
{
    let q = p.subrange(0, k);
    if k == 1 {
        if p.len() > 1 {
            assert(node_at(s, q) == s[q[0] as int]);
        }
    } else {
        lemma_path_prefix_valid(children_of(s[p[0] as int]), p.subrange(1, p.len() as int), k - 1);
        assert(q.subrange(1, q.len() as int) =~= p.subrange(1, p.len() as int).subrange(0, k - 1));
        assert(node_at(s, q) == node_at(children_of(s[q[0] as int]), q.subrange(1, q.len() as int)));
    }
}

/// A handle's offset is its parent's offset plus the text of the siblings
/// standing before it inside the parent.
pub proof fn lemma_path_offset_parent(s: Seq<DomNode>, p: Seq<usize>)
    requires
        path_valid(s, p),
        p.len() >= 2,
    ensures
        ({
            let par = p.subrange(0, p.len() - 1);
            let last = p[p.len() - 1] as int;
            &&& path_valid(s, par)
            &&& node_at(s, par) is Container
            &&& last < children_of(node_at(s, par)).len()
            &&& children_of(node_at(s, par))[last] == node_at(s, p)
            &&& path_offset(s, p) == path_offset(s, par) + nodes_text(
                children_of(node_at(s, par)).subrange(0, last),
            ).len()
        }),
    decreases p.len(),
{
    let par = p.subrange(0, p.len() - 1);
    let last = p[p.len() - 1] as int;
    let i = p[0] as int;
    let sub = p.subrange(1, p.len() as int);
    lemma_path_prefix_valid(s, p, p.len() - 1);
    if p.len() == 2 {
        assert(par.len() == 1);
        assert(node_at(s, par) == s[par[0] as int]);
        assert(par[0] == p[0]);
        assert(node_at(s, par) == s[i]);
        assert(sub.len() == 1);
        assert(sub[0] == p[1]);
        assert((p[1] as int) == last);
        assert(path_valid(children_of(s[i]), sub));
        assert((sub[0] as int) < children_of(s[i]).len());
        assert(node_at(s, p) == node_at(children_of(s[i]), sub));
        assert(node_at(children_of(s[i]), sub) == children_of(s[i])[last]);
        assert(path_offset(children_of(s[i]), sub) == nodes_text(
            children_of(s[i]).subrange(0, last),
        ).len());
        assert(path_offset(s, p) == nodes_text(s.subrange(0, i)).len() + path_offset(
            children_of(s[i]),
            sub,
        ));
        assert(s.subrange(0, par[0] as int) =~= s.subrange(0, i));
        assert(path_offset(s, par) == nodes_text(s.subrange(0, i)).len());
    } else {
        lemma_path_offset_parent(children_of(s[i]), sub);
        assert(sub.subrange(0, sub.len() - 1) =~= par.subrange(1, par.len() as int));
        assert(sub[sub.len() - 1] == p[p.len() - 1]);
        assert(node_at(s, par) == node_at(children_of(s[i]), par.subrange(1, par.len() as int)));
        assert(node_at(s, p) == node_at(children_of(s[i]), sub));
        assert(par[0] == p[0]);
        assert(s.subrange(0, par[0] as int) =~= s.subrange(0, i));
    }
}

/// Whether inserting at this offset calls for a synthesized trailing
/// separator: yes when the document has no leaf to anchor to, and when the
/// cursor sits at the end of the addressed leaf.
pub open spec fn needs_trailing(s: Seq<DomNode>, t: int) -> bool {
    match resolve_nodes(s, t) {
        None => true,
        Some((p, l)) => l == node_len(node_at(s, p)),
    }
}

/// A leaf descriptor: the addressed leaf's handle, the cursor offset local
/// to the leaf, and the leaf's total character length.
pub struct LeafPos {
    pub handle: Vec<usize>,
    pub start_offset: usize,
    pub length: usize,
}

/// A resolved selection: collapsed cursors address a leaf (or nothing, in a
/// document without leaves); a non-collapsed selection is reported as such.
pub enum DomRange {
    Empty,
    Leaf(LeafPos),
    Selection,
}

} // verus!
