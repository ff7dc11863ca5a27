//! Tree mutation primitives.
//!
//! Every operation takes the document's sibling list by value and rebuilds
//! it.  Each contract states the effect twice over: on the flattened text,
//! as a splice at the handle's absolute offset, and on the tree, as an exact
//! shape relation that pins which nodes stand where afterwards and that
//! everything off the handle's path is untouched.  Handles are resolved
//! fresh before each mutation and are invalid afterwards.

use vstd::prelude::*;

use crate::dom::ContainerKind;
use crate::dom::DomNode;
use crate::dom::children_of;
use crate::dom::container_kind;
use crate::dom::lemma_nodes_text_append;
use crate::dom::lemma_nodes_text_singleton;
use crate::dom::lemma_nodes_text_split;
use crate::dom::lemma_nodes_wf_subrange;
use crate::dom::node_len;
use crate::dom::node_text;
use crate::dom::node_wf;
use crate::dom::nodes_text;
use crate::dom::nodes_wf;
use crate::position::cur_ok_node;
use crate::position::text_len_node;
use crate::position::cur_ok_nodes;
use crate::position::node_at;
use crate::position::path_offset;
use crate::position::path_valid;

verus! {

/// An offset at or outside a subtree's ends cannot sit strictly inside one
/// of its atomic leaves.
pub proof fn lemma_cur_ok_out_node(n: DomNode, t: int)
    requires
        t <= 0 || t >= node_len(n),
    ensures
        cur_ok_node(n, t),
    decreases n,
{
    match n {
        DomNode::Container { children, .. } => {
            lemma_cur_ok_out(children@, t);
        },
        _ => {},
    }
}

/// `lemma_cur_ok_out_node` over a sibling list.
pub proof fn lemma_cur_ok_out(s: Seq<DomNode>, t: int)
    requires
        t <= 0 || t >= nodes_text(s).len(),
    ensures
        cur_ok_nodes(s, t),
    decreases s,
{
    if s.len() == 0 {
    } else {
        let rest = s.subrange(1, s.len() as int);
        assert(nodes_text(s) == node_text(s[0]) + nodes_text(rest));
        lemma_cur_ok_out_node(s[0], t);
        lemma_cur_ok_out(rest, t - node_len(s[0]));
    }
}

/// Cursor admissibility splits over list concatenation, with the offset
/// shifted by the first part's text length.
pub proof fn lemma_cur_ok_append(a: Seq<DomNode>, b: Seq<DomNode>, t: int)
    ensures
        cur_ok_nodes(a + b, t) <==> (cur_ok_nodes(a, t) && cur_ok_nodes(
            b,
            t - nodes_text(a).len(),
        )),
    decreases a,
{
    if a.len() == 0 {
        assert(a + b =~= b);
    } else {
        let a1 = a.subrange(1, a.len() as int);
        lemma_cur_ok_append(a1, b, t - node_len(a[0]));
        assert((a + b).subrange(1, (a + b).len() as int) =~= a1 + b);
        assert((a + b)[0] == a[0]);
        assert(nodes_text(a) == node_text(a[0]) + nodes_text(a1));
    }
}

/// The window a valid handle addresses lies inside the flattened text.
pub proof fn lemma_path_offset_bound(s: Seq<DomNode>, p: Seq<usize>)
    requires
        path_valid(s, p),
    ensures
        0 <= path_offset(s, p),
        path_offset(s, p) + node_len(node_at(s, p)) <= nodes_text(s).len(),
    decreases p.len(),
{
    let i = p[0] as int;
    lemma_nodes_text_split(s, i);
    lemma_nodes_text_split(s.subrange(i, s.len() as int), 1);
    assert(s.subrange(i, s.len() as int).subrange(0, 1) =~= seq![s[i]]);
    lemma_nodes_text_singleton(s[i]);
    assert(s.subrange(i, s.len() as int).subrange(1, s.len() - i) =~= s.subrange(
        i + 1,
        s.len() as int,
    ));
    assert(nodes_text(s).len() == nodes_text(s.subrange(0, i)).len() + node_len(s[i])
        + nodes_text(s.subrange(i + 1, s.len() as int)).len());
    if p.len() > 1 {
        lemma_path_offset_bound(children_of(s[i]), p.subrange(1, p.len() as int));
        assert(node_len(s[i]) == nodes_text(children_of(s[i])).len());
    }
}

/// Replacing one child by a node whose text is the child's text with `ins`
/// spliced in at local offset `a` splices the list's text at the child's
/// absolute offset plus `a`.
pub proof fn lemma_replace_child(s: Seq<DomNode>, i: int, nn: DomNode, a: int, ins: Seq<char>)
    requires
        0 <= i < s.len(),
        nodes_wf(s),
        node_wf(nn),
        0 <= a <= node_len(s[i]),
        node_text(nn) == node_text(s[i]).subrange(0, a) + ins + node_text(s[i]).subrange(
            a,
            node_len(s[i]) as int,
        ),
        cur_ok_node(nn, a + ins.len()),
    ensures
        ({
            let off: int = nodes_text(s.subrange(0, i)).len() + a;
            let t = nodes_text(s);
            &&& nodes_text(s.update(i, nn)) == t.subrange(0, off) + ins + t.subrange(
                off,
                t.len() as int,
            )
            &&& nodes_wf(s.update(i, nn))
            &&& cur_ok_nodes(s.update(i, nn), off + ins.len())
        }),
{
    let t = nodes_text(s);
    let pre = s.subrange(0, i);
    let post = s.subrange(i + 1, s.len() as int);
    let off: int = nodes_text(pre).len() + a;
    let u = s.update(i, nn);
    assert(s =~= pre + seq![s[i]] + post);
    assert(u =~= pre + seq![nn] + post);
    lemma_nodes_text_append(pre + seq![s[i]], post);
    lemma_nodes_text_append(pre, seq![s[i]]);
    lemma_nodes_text_append(pre + seq![nn], post);
    lemma_nodes_text_append(pre, seq![nn]);
    lemma_nodes_text_singleton(s[i]);
    lemma_nodes_text_singleton(nn);
    let m = node_text(s[i]);
    assert(t == nodes_text(pre) + m + nodes_text(post));
    assert(nodes_text(u) == nodes_text(pre) + node_text(nn) + nodes_text(post));
    assert(t.subrange(0, off) =~= nodes_text(pre) + m.subrange(0, a));
    assert(t.subrange(off, t.len() as int) =~= m.subrange(a, m.len() as int) + nodes_text(post));
    assert(nodes_text(u) =~= t.subrange(0, off) + ins + t.subrange(off, t.len() as int));
    assert forall|j: int| 0 <= j < u.len() implies node_wf(#[trigger] u[j]) by {
        if j != i {
            assert(u[j] == s[j]);
        }
    }
    let x: int = off + ins.len();
    lemma_cur_ok_append(pre + seq![nn], post, x);
    lemma_cur_ok_append(pre, seq![nn], x);
    lemma_cur_ok_out(pre, x);
    assert(cur_ok_nodes(seq![nn], x - nodes_text(pre).len()) == (cur_ok_node(nn, a + ins.len())
        && cur_ok_nodes(seq![nn].subrange(1, 1), x - nodes_text(pre).len() as int - node_len(nn))));
    assert(seq![nn].subrange(1, 1) =~= Seq::<DomNode>::empty());
    assert(node_len(nn) == m.len() + ins.len());
    lemma_cur_ok_out(post, x - nodes_text(pre).len() - node_len(nn));
}

/// Inserting a node at child position `i` splices the node's text into the
/// list's text at that position's absolute offset.
pub proof fn lemma_insert_child(s: Seq<DomNode>, i: int, nd: DomNode)
    requires
        0 <= i <= s.len(),
        nodes_wf(s),
        node_wf(nd),
    ensures
        ({
            let off = nodes_text(s.subrange(0, i)).len() as int;
            let t = nodes_text(s);
            &&& nodes_text(s.insert(i, nd)) == t.subrange(0, off) + node_text(nd) + t.subrange(
                off,
                t.len() as int,
            )
            &&& nodes_wf(s.insert(i, nd))
            &&& cur_ok_nodes(s.insert(i, nd), off + node_len(nd))
        }),
{
    let t = nodes_text(s);
    let pre = s.subrange(0, i);
    let post = s.subrange(i, s.len() as int);
    let off = nodes_text(pre).len() as int;
    let u = s.insert(i, nd);
    assert(s =~= pre + post);
    assert(u =~= pre + seq![nd] + post);
    lemma_nodes_text_append(pre, post);
    lemma_nodes_text_append(pre + seq![nd], post);
    lemma_nodes_text_append(pre, seq![nd]);
    lemma_nodes_text_singleton(nd);
    assert(t.subrange(0, off) =~= nodes_text(pre));
    assert(t.subrange(off, t.len() as int) =~= nodes_text(post));
    assert(nodes_text(u) =~= t.subrange(0, off) + node_text(nd) + t.subrange(off, t.len() as int));
    assert forall|j: int| 0 <= j < u.len() implies node_wf(#[trigger] u[j]) by {
        if j < i {
            assert(u[j] == s[j]);
        } else if j > i {
            assert(u[j] == s[j - 1]);
        }
    }
    let x: int = off + node_len(nd);
    lemma_cur_ok_append(pre + seq![nd], post, x);
    lemma_cur_ok_append(pre, seq![nd], x);
    lemma_cur_ok_out(pre, x);
    lemma_cur_ok_out_node(nd, node_len(nd) as int);
    assert(cur_ok_nodes(seq![nd], x - nodes_text(pre).len()) == (cur_ok_node(
        nd,
        node_len(nd) as int,
    ) && cur_ok_nodes(seq![nd].subrange(1, 1), x - nodes_text(pre).len() as int - node_len(nd))));
    assert(seq![nd].subrange(1, 1) =~= Seq::<DomNode>::empty());
    lemma_cur_ok_out(post, x - nodes_text(pre).len() - node_len(nd));
}

/// Replacing a text leaf by three nodes — its prefix, a new node, and its
/// suffix — splices the node's text into the list's text where the leaf was
/// divided.
pub proof fn lemma_split_child(
    s: Seq<DomNode>,
    i: int,
    a: int,
    pre_n: DomNode,
    nd: DomNode,
    post_n: DomNode,
)
    requires
        0 <= i < s.len(),
        nodes_wf(s),
        node_wf(nd),
        0 < a < node_len(s[i]),
        node_text(pre_n) == node_text(s[i]).subrange(0, a),
        node_text(post_n) == node_text(s[i]).subrange(a, node_len(s[i]) as int),
        pre_n is Text,
        post_n is Text,
    ensures
        ({
            let off: int = nodes_text(s.subrange(0, i)).len() + a;
            let t = nodes_text(s);
            let u = s.subrange(0, i) + seq![pre_n, nd, post_n] + s.subrange(i + 1, s.len() as int);
            &&& nodes_text(u) == t.subrange(0, off) + node_text(nd) + t.subrange(
                off,
                t.len() as int,
            )
            &&& nodes_wf(u)
            &&& cur_ok_nodes(u, off + node_len(nd))
        }),
{
    let t = nodes_text(s);
    let pre = s.subrange(0, i);
    let post = s.subrange(i + 1, s.len() as int);
    let off: int = nodes_text(pre).len() + a;
    let mid = seq![pre_n, nd, post_n];
    let u = pre + mid + post;
    let m = node_text(s[i]);
    assert(s =~= pre + seq![s[i]] + post);
    lemma_nodes_text_append(pre + seq![s[i]], post);
    lemma_nodes_text_append(pre, seq![s[i]]);
    lemma_nodes_text_singleton(s[i]);
    assert(t == nodes_text(pre) + m + nodes_text(post));
    lemma_nodes_text_append(pre + mid, post);
    lemma_nodes_text_append(pre, mid);
    assert(mid.subrange(1, 3) =~= seq![nd, post_n]);
    assert(seq![nd, post_n].subrange(1, 2) =~= seq![post_n]);
    lemma_nodes_text_singleton(post_n);
    assert(nodes_text(seq![nd, post_n]) == node_text(nd) + node_text(post_n));
    assert(nodes_text(mid) == node_text(pre_n) + (node_text(nd) + node_text(post_n)));
    assert(t.subrange(0, off) =~= nodes_text(pre) + m.subrange(0, a));
    assert(t.subrange(off, t.len() as int) =~= m.subrange(a, m.len() as int) + nodes_text(post));
    assert(nodes_text(u) =~= t.subrange(0, off) + node_text(nd) + t.subrange(off, t.len() as int));
    assert(node_wf(pre_n) && node_wf(post_n)) by {
        assert(node_text(pre_n).len() > 0);
        assert(node_text(post_n).len() > 0);
    }
    assert forall|j: int| 0 <= j < u.len() implies node_wf(#[trigger] u[j]) by {
        if j < i {
            assert(u[j] == s[j]);
        } else if j > i + 2 {
            assert(u[j] == s[j - 2]);
        } else {
            assert(u[j] == mid[j - i]);
        }
    }
    let x: int = off + node_len(nd);
    lemma_cur_ok_append(pre + mid, post, x);
    lemma_cur_ok_append(pre, mid, x);
    lemma_cur_ok_out(pre, x);
    lemma_cur_ok_out_node(nd, node_len(nd) as int);
    let xm = x - nodes_text(pre).len() as int;
    assert(mid =~= seq![pre_n] + (seq![nd] + seq![post_n]));
    lemma_cur_ok_append(seq![pre_n], seq![nd] + seq![post_n], xm);
    lemma_nodes_text_singleton(pre_n);
    lemma_nodes_text_singleton(nd);
    lemma_cur_ok_append(seq![nd], seq![post_n], xm - a);
    lemma_cur_ok_singleton(pre_n, xm);
    lemma_cur_ok_singleton(nd, xm - a);
    lemma_cur_ok_singleton(post_n, xm - a - node_len(nd));
    lemma_cur_ok_out_node(post_n, xm - a - node_len(nd));
    lemma_cur_ok_out(post, x - nodes_text(pre).len() as int - nodes_text(mid).len() as int);
}

/// Cursor admissibility of a one-node list is that of the node.
pub proof fn lemma_cur_ok_singleton(n: DomNode, t: int)
    ensures
        cur_ok_nodes(seq![n], t) <==> cur_ok_node(n, t),
{
    assert(seq![n][0] == n);
    assert(seq![n].subrange(1, 1) =~= Seq::<DomNode>::empty());
    assert(cur_ok_nodes(seq![n].subrange(1, 1), t - node_len(n)));
}

/// A ghost description of one splice, with inserted characters as a
/// sequence, so that tree-shape contracts can state any operation's result.
pub enum SpliceDesc {
    Before(DomNode),
    After(DomNode),
    Split { local: int, node: DomNode },
    Chars { local: int, ins: Seq<char> },
}

/// How one splice reshapes the sibling list holding the addressed leaf: a
/// node inserted just before or just after it, the leaf divided around a
/// node, or characters absorbed into it — and, at every level above, only
/// the one container on the handle's path rebuilt, with its kind and all
/// other children untouched.
pub open spec fn splice_shape(
    s: Seq<DomNode>,
    res: Seq<DomNode>,
    p: Seq<usize>,
    d: SpliceDesc,
) -> bool
    decreases p.len(),
{
    let i = p[0] as int;
    if p.len() <= 1 {
        match d {
            SpliceDesc::Before(n) => res == s.insert(i, n),
            SpliceDesc::After(n) => res == s.insert(i + 1, n),
            SpliceDesc::Split { local, node } => exists|pre: DomNode, post: DomNode|
                {
                    &&& #[trigger] node_text(pre) == node_text(s[i]).subrange(0, local)
                    &&& #[trigger] node_text(post) == node_text(s[i]).subrange(
                        local,
                        node_len(s[i]) as int,
                    )
                    &&& pre is Text
                    &&& post is Text
                    &&& res == s.subrange(0, i) + seq![pre, node, post] + s.subrange(
                        i + 1,
                        s.len() as int,
                    )
                },
            SpliceDesc::Chars { local, ins } => exists|nn: DomNode|
                {
                    &&& nn is Text
                    &&& #[trigger] node_text(nn) == node_text(s[i]).subrange(0, local) + ins
                        + node_text(s[i]).subrange(local, node_len(s[i]) as int)
                    &&& res == s.update(i, nn)
                },
        }
    } else {
        exists|nn: DomNode|
            {
                &&& nn is Container
                &&& #[trigger] container_kind(nn) == container_kind(s[i])
                &&& splice_shape(children_of(s[i]), children_of(nn), p.subrange(1, p.len() as int), d)
                &&& res == s.update(i, nn)
            }
    }
}

/// How appending into a document without text reshapes the tree: the node
/// becomes the sole content of an empty root, or the trailing chain of
/// containers is rebuilt — kinds and all other children untouched — with the
/// node appended at its innermost end.
pub open spec fn append_shape(s: Seq<DomNode>, res: Seq<DomNode>, nd: DomNode) -> bool
    decreases s,
{
    if s.len() == 0 {
        res == seq![nd]
    } else {
        let last = s.len() - 1;
        &&& s[last] is Container
        &&& exists|nn: DomNode|
            {
                &&& nn is Container
                &&& #[trigger] container_kind(nn) == container_kind(s[last])
                &&& append_shape(children_of(s[last]), children_of(nn), nd)
                &&& res == s.update(last as int, nn)
            }
    }
}

/// The smaller of two integers.
pub open spec fn min_int(a: int, b: int) -> int {
    if a < b {
        a
    } else {
        b
    }
}

/// An integer clipped from below at zero.
pub open spec fn floor0(a: int) -> int {
    if a < 0 {
        0
    } else {
        a
    }
}

/// Container kinds that are dropped when deletion empties them; structural
/// blocks persist.
pub open spec fn prunable_kind(kind: ContainerKind) -> bool {
    kind is Formatting || kind is Link
}

/// Whether deleting the character range `[sdel, edel)` removes every child
/// of this sibling list: each child must be covered and of a kind that
/// vanishes (a text run fully covered, an atomic leaf covered whole, or a
/// prunable container whose own children all vanish).
pub open spec fn delete_empties(s: Seq<DomNode>, sdel: int, edel: int) -> bool
    decreases s,
{
    if s.len() == 0 {
        true
    } else {
        let lc = node_len(s[0]) as int;
        let cs = min_int(sdel, lc);
        let ce = min_int(edel, lc);
        let head_gone = if cs == ce {
            false
        } else {
            match s[0] {
                DomNode::Text { .. } => cs == 0 && ce == lc,
                DomNode::LineBreak => true,
                DomNode::Mention { .. } => true,
                DomNode::Container { .. } => prunable_kind(container_kind(s[0]))
                    && delete_empties(children_of(s[0]), cs, ce),
            }
        };
        head_gone && delete_empties(
            s.subrange(1, s.len() as int),
            floor0(sdel - lc),
            floor0(edel - lc),
        )
    }
}

/// How deleting the character range `[sdel, edel)` reshapes the tree, child
/// by child: untouched children kept as they are, covered text runs
/// truncated or dropped, covered atomic leaves dropped whole, containers
/// rebuilt recursively and dropped exactly when they are prunable and
/// emptied.
pub open spec fn delete_shape(s: Seq<DomNode>, res: Seq<DomNode>, sdel: int, edel: int) -> bool
    decreases s,
{
    if s.len() == 0 {
        res == s
    } else {
        let lc = node_len(s[0]) as int;
        let cs = min_int(sdel, lc);
        let ce = min_int(edel, lc);
        let s2 = floor0(sdel - lc);
        let e2 = floor0(edel - lc);
        let rest = s.subrange(1, s.len() as int);
        if cs == ce {
            &&& res.len() > 0
            &&& res[0] == s[0]
            &&& delete_shape(rest, res.subrange(1, res.len() as int), s2, e2)
        } else {
            match s[0] {
                DomNode::Text { .. } => if cs == 0 && ce == lc {
                    delete_shape(rest, res, s2, e2)
                } else {
                    &&& res.len() > 0
                    &&& res[0] is Text
                    &&& node_text(res[0]) == node_text(s[0]).subrange(0, cs) + node_text(
                        s[0],
                    ).subrange(ce, lc)
                    &&& delete_shape(rest, res.subrange(1, res.len() as int), s2, e2)
                },
                DomNode::LineBreak => delete_shape(rest, res, s2, e2),
                DomNode::Mention { .. } => delete_shape(rest, res, s2, e2),
                DomNode::Container { .. } => if prunable_kind(container_kind(s[0]))
                    && delete_empties(children_of(s[0]), cs, ce) {
                    delete_shape(rest, res, s2, e2)
                } else {
                    &&& res.len() > 0
                    &&& res[0] is Container
                    &&& container_kind(res[0]) == container_kind(s[0])
                    &&& delete_shape(children_of(s[0]), children_of(res[0]), cs, ce)
                    &&& delete_shape(rest, res.subrange(1, res.len() as int), s2, e2)
                },
            }
        }
    }
}

/// A deletion leaves no children exactly when `delete_empties` says so.
pub proof fn lemma_delete_shape_empties(s: Seq<DomNode>, res: Seq<DomNode>, sdel: int, edel: int)
    requires
        delete_shape(s, res, sdel, edel),
    ensures
        (res.len() == 0) <==> delete_empties(s, sdel, edel),
    decreases s,
{
    if s.len() == 0 {
    } else {
        let lc = node_len(s[0]) as int;
        let cs = min_int(sdel, lc);
        let ce = min_int(edel, lc);
        let s2 = floor0(sdel - lc);
        let e2 = floor0(edel - lc);
        let rest = s.subrange(1, s.len() as int);
        if cs == ce {
            assert(res.len() > 0);
        } else {
            match s[0] {
                DomNode::Text { .. } => {
                    if cs == 0 && ce == lc {
                        lemma_delete_shape_empties(rest, res, s2, e2);
                    } else {
                        assert(res.len() > 0);
                    }
                },
                DomNode::LineBreak => {
                    lemma_delete_shape_empties(rest, res, s2, e2);
                },
                DomNode::Mention { .. } => {
                    lemma_delete_shape_empties(rest, res, s2, e2);
                },
                DomNode::Container { .. } => {
                    if prunable_kind(container_kind(s[0])) && delete_empties(
                        children_of(s[0]),
                        cs,
                        ce,
                    ) {
                        lemma_delete_shape_empties(rest, res, s2, e2);
                    } else {
                        assert(res.len() > 0);
                    }
                },
            }
        }
    }
}

/// One localized amendment of the tree: a node spliced in beside or inside
/// the leaf a handle addresses, or characters spliced into a text leaf.
pub enum SpliceOp {
    InsertBefore(DomNode),
    InsertAfter(DomNode),
    SplitText { local: usize, node: DomNode },
    InsertChars { local: usize, ins: Vec<char> },
}

/// The text an operation splices in.
pub open spec fn op_ins(op: SpliceOp) -> Seq<char> {
    match op {
        SpliceOp::InsertBefore(n) => node_text(n),
        SpliceOp::InsertAfter(n) => node_text(n),
        SpliceOp::SplitText { node, .. } => node_text(node),
        SpliceOp::InsertChars { ins, .. } => ins@,
    }
}

/// Where the spliced text lands, relative to the addressed leaf's start.
pub open spec fn op_local(op: SpliceOp, target: DomNode) -> int {
    match op {
        SpliceOp::InsertBefore(_) => 0,
        SpliceOp::InsertAfter(_) => node_len(target) as int,
        SpliceOp::SplitText { local, .. } => local as int,
        SpliceOp::InsertChars { local, .. } => local as int,
    }
}

/// What each operation asks of the leaf it is applied to.
pub open spec fn op_ok(op: SpliceOp, target: DomNode) -> bool {
    match op {
        SpliceOp::InsertBefore(n) => node_wf(n),
        SpliceOp::InsertAfter(n) => node_wf(n),
        SpliceOp::SplitText { local, node } => node_wf(node) && target is Text && 0 < local
            < node_len(target),
        SpliceOp::InsertChars { local, .. } => target is Text && local <= node_len(target),
    }
}

/// The ghost description of an operation, for shape contracts.
pub open spec fn op_desc(op: SpliceOp) -> SpliceDesc {
    match op {
        SpliceOp::InsertBefore(n) => SpliceDesc::Before(n),
        SpliceOp::InsertAfter(n) => SpliceDesc::After(n),
        SpliceOp::SplitText { local, node } => SpliceDesc::Split { local: local as int, node },
        SpliceOp::InsertChars { local, ins } => SpliceDesc::Chars { local: local as int, ins: ins@ },
    }
}

/// Applies one splice operation at the leaf addressed by `path[depth..]`.
///
/// The flattened text of the result is the old text with the operation's
/// text spliced in at the handle's absolute offset (shifted by the
/// operation's leaf-local position), well-formedness is preserved, and the
/// offset just after the spliced text does not fall strictly inside any
/// atomic leaf.
pub fn apply_splice(nodes: Vec<DomNode>, path: &Vec<usize>, depth: usize, op: SpliceOp) -> (res:
    Vec<DomNode>)
    requires
        nodes_wf(nodes@),
        depth < path@.len(),
        path_valid(nodes@, path@.subrange(depth as int, path@.len() as int)),
        op_ok(op, node_at(nodes@, path@.subrange(depth as int, path@.len() as int))),
    ensures
        ({
            let p = path@.subrange(depth as int, path@.len() as int);
            let off = path_offset(nodes@, p) + op_local(op, node_at(nodes@, p));
            let t = nodes_text(nodes@);
            &&& nodes_text(res@) == t.subrange(0, off) + op_ins(op) + t.subrange(
                off,
                t.len() as int,
            )
            &&& nodes_wf(res@)
            &&& cur_ok_nodes(res@, off + op_ins(op).len())
            &&& splice_shape(nodes@, res@, p, op_desc(op))
        }),
    decreases path@.len() - depth,
{
    let ghost orig = nodes@;
    let ghost gop = op;
    let ghost p = path@.subrange(depth as int, path@.len() as int);
    let i = path[depth];
    let mut nodes = nodes;
    if depth == path.len() - 1 {
        proof {
            assert(p.len() == 1);
            assert(p[0] == path@[depth as int]);
            assert(node_at(orig, p) == orig[i as int]);
            assert(path_offset(orig, p) == nodes_text(orig.subrange(0, i as int)).len());
        }
        match op {
            SpliceOp::InsertBefore(n) => {
                proof {
                    lemma_insert_child(orig, i as int, n);
                }
                nodes.insert(i, n);
                proof {
                    assert(nodes@ == orig.insert(i as int, n));
                    assert(splice_shape(orig, nodes@, p, op_desc(gop)));
                }
                nodes
            },
            SpliceOp::InsertAfter(n) => {
                proof {
                    lemma_insert_child(orig, i as int + 1, n);
                    assert(orig.subrange(0, i as int + 1) =~= orig.subrange(0, i as int) + seq![
                        orig[i as int],
                    ]);
                    lemma_nodes_text_append(orig.subrange(0, i as int), seq![orig[i as int]]);
                    lemma_nodes_text_singleton(orig[i as int]);
                }
                proof {
                    assert((i as int) < orig.len());
                    assert(nodes.len() == orig.len());
                }
                nodes.insert(i + 1, n);
                proof {
                    assert(nodes@ == orig.insert(i as int + 1, n));
                    assert(splice_shape(orig, nodes@, p, op_desc(gop)));
                }
                nodes
            },
            SpliceOp::SplitText { local, node } => {
                let target = nodes.remove(i);
                match target {
                    DomNode::Text { chars } => {
                        let mut head = chars;
                        let tail = head.split_off(local);
                        let pre_n = DomNode::Text { chars: head };
                        let post_n = DomNode::Text { chars: tail };
                        proof {
                            assert(node_text(pre_n) == node_text(orig[i as int]).subrange(
                                0,
                                local as int,
                            ));
                            assert(node_text(post_n) == node_text(orig[i as int]).subrange(
                                local as int,
                                node_len(orig[i as int]) as int,
                            ));
                            lemma_split_child(orig, i as int, local as int, pre_n, node, post_n);
                        }
                        nodes.insert(i, post_n);
                        nodes.insert(i, node);
                        nodes.insert(i, pre_n);
                        proof {
                            assert(nodes@ =~= orig.subrange(0, i as int) + seq![
                                pre_n,
                                node,
                                post_n,
                            ] + orig.subrange(i as int + 1, orig.len() as int));
                            assert(op_desc(gop) == (SpliceDesc::Split {
                                local: local as int,
                                node,
                            }));
                            assert(splice_shape(orig, nodes@, p, op_desc(gop)));
                        }
                        nodes
                    },
                    other => {
                        proof {
                            assert(false);
                        }
                        nodes.insert(i, other);
                        nodes
                    },
                }
            },
            SpliceOp::InsertChars { local, ins } => {
                let target = nodes.remove(i);
                match target {
                    DomNode::Text { chars } => {
                        let mut head = chars;
                        let mut insv = ins;
                        let mut tail = head.split_off(local);
                        head.append(&mut insv);
                        head.append(&mut tail);
                        let nn = DomNode::Text { chars: head };
                        proof {
                            assert(node_text(nn) =~= node_text(orig[i as int]).subrange(
                                0,
                                local as int,
                            ) + op_ins(gop) + node_text(orig[i as int]).subrange(
                                local as int,
                                node_len(orig[i as int]) as int,
                            ));
                            assert(node_wf(nn)) by {
                                assert(node_text(orig[i as int]).len() > 0);
                                assert(node_text(nn).len() >= node_text(orig[i as int]).len());
                            }
                            lemma_replace_child(orig, i as int, nn, local as int, op_ins(gop));
                        }
                        nodes.insert(i, nn);
                        proof {
                            assert(nodes@ =~= orig.update(i as int, nn));
                            assert(splice_shape(orig, nodes@, p, op_desc(gop)));
                        }
                        nodes
                    },
                    other => {
                        proof {
                            assert(false);
                        }
                        nodes.insert(i, other);
                        nodes
                    },
                }
            },
        }
    } else {
        let ghost subp = path@.subrange(depth as int + 1, path@.len() as int);
        proof {
            assert(p.subrange(1, p.len() as int) =~= subp);
            assert(p[0] == path@[depth as int]);
            assert(node_at(orig, p) == node_at(children_of(orig[i as int]), subp));
            assert(path_offset(orig, p) == nodes_text(orig.subrange(0, i as int)).len()
                + path_offset(children_of(orig[i as int]), subp));
        }
        let child = nodes.remove(i);
        match child {
            DomNode::Container { kind, children } => {
                let ghost ckind = kind;
                let ghost cview = children@;
                proof {
                    assert(orig[i as int] == DomNode::Container { kind: ckind, children });
                    assert(children_of(orig[i as int]) == cview);
                    assert(nodes_wf(cview));
                }
                let children2 = apply_splice(children, path, depth + 1, op);
                let nn = DomNode::Container { kind, children: children2 };
                proof {
                    let a = path_offset(cview, subp) + op_local(gop, node_at(cview, subp));
                    lemma_path_offset_bound(cview, subp);
                    assert(node_text(nn) == nodes_text(children2@));
                    assert(node_text(orig[i as int]) == nodes_text(cview));
                    assert(cur_ok_node(nn, a + op_ins(gop).len()));
                    lemma_replace_child(orig, i as int, nn, a, op_ins(gop));
                }
                nodes.insert(i, nn);
                proof {
                    assert(nodes@ =~= orig.update(i as int, nn));
                    assert(container_kind(nn) == container_kind(orig[i as int]));
                    assert(children_of(nn) == children2@);
                    assert(splice_shape(cview, children2@, subp, op_desc(gop)));
                    assert(splice_shape(orig, nodes@, p, op_desc(gop)));
                }
                nodes
            },
            other => {
                proof {
                    assert(false);
                }
                nodes.insert(i, other);
                nodes
            },
        }
    }
}

/// Appends a node at the end of a document that has no text, descending into
/// the trailing chain of (necessarily leafless) containers so that the node
/// becomes the innermost trailing container's last child.
pub fn append_at_end(nodes: Vec<DomNode>, node: DomNode) -> (res: Vec<DomNode>)
    requires
        nodes_wf(nodes@),
        node_wf(node),
        nodes_text(nodes@).len() == 0,
    ensures
        nodes_text(res@) == node_text(node),
        nodes_wf(res@),
        cur_ok_nodes(res@, node_len(node) as int),
        append_shape(nodes@, res@, node),
    decreases nodes@,
{
    let ghost orig = nodes@;
    let ghost gnd = node;
    let mut nodes = nodes;
    if nodes.len() == 0 {
        nodes.push(node);
        proof {
            assert(nodes@ =~= seq![gnd]);
            lemma_nodes_text_singleton(node);
            lemma_cur_ok_singleton(node, node_len(node) as int);
            lemma_cur_ok_out_node(node, node_len(node) as int);
            assert(nodes_text(nodes@) =~= node_text(node));
        }
        nodes
    } else {
        let last_i = nodes.len() - 1;
        proof {
            lemma_nodes_text_split(orig, last_i as int);
            assert(orig.subrange(last_i as int, orig.len() as int) =~= seq![orig[last_i as int]]);
            lemma_nodes_text_singleton(orig[last_i as int]);
            assert(node_len(orig[last_i as int]) == 0);
            assert(nodes_text(orig.subrange(0, last_i as int)).len() == 0);
        }
        let child = nodes.remove(last_i);
        match child {
            DomNode::Container { kind, children } => {
                let ghost ckind = kind;
                proof {
                    assert(orig[last_i as int] == DomNode::Container { kind: ckind, children });
                    assert(nodes_wf(children@));
                    assert(nodes_text(children@).len() == 0);
                }
                let ghost gnode = node;
                let children2 = append_at_end(children, node);
                let nn = DomNode::Container { kind, children: children2 };
                proof {
                    assert(node_text(nn) == nodes_text(children2@));
                    assert(node_text(nn) =~= node_text(orig[last_i as int]).subrange(0, 0)
                        + node_text(gnode) + node_text(orig[last_i as int]).subrange(0, 0));
                    assert(cur_ok_node(nn, node_text(gnode).len() as int));
                    lemma_replace_child(orig, last_i as int, nn, 0, node_text(gnode));
                }
                nodes.push(nn);
                proof {
                    assert(nodes@ =~= orig.update(last_i as int, nn));
                    assert(nodes_text(nodes@) =~= node_text(gnode));
                    assert(container_kind(nn) == container_kind(orig[last_i as int]));
                    assert(children_of(nn) == children2@);
                    assert(append_shape(children_of(orig[last_i as int]), children2@, gnode));
                    assert(append_shape(orig, nodes@, gnode));
                }
                nodes
            },
            other => {
                proof {
                    assert(node_wf(orig[last_i as int]));
                    assert(false);
                }
                nodes.push(other);
                nodes
            },
        }
    }
}

/// Putting a kept node back in front of an already-rewritten tail keeps the
/// tail's text splice and cursor admissibility, shifted by the node's text.
proof fn lemma_prepend_kept(nn: DomNode, tv: Seq<DomNode>, s: int, s2: int)
    requires
        node_wf(nn),
        nodes_wf(tv),
        cur_ok_node(nn, s),
        cur_ok_nodes(tv, s2),
        s - node_len(nn) == s2 || s - node_len(nn) <= 0,
    ensures
        nodes_wf(seq![nn] + tv),
        nodes_text(seq![nn] + tv) == node_text(nn) + nodes_text(tv),
        cur_ok_nodes(seq![nn] + tv, s),
{
    lemma_nodes_text_append(seq![nn], tv);
    lemma_nodes_text_singleton(nn);
    lemma_cur_ok_append(seq![nn], tv, s);
    lemma_cur_ok_singleton(nn, s);
    if s - node_len(nn) != s2 {
        lemma_cur_ok_out(tv, s - node_len(nn));
    }
    assert forall|j: int| 0 <= j < (seq![nn] + tv).len() implies node_wf(
        #[trigger] (seq![nn] + tv)[j],
    ) by {
        if j > 0 {
            assert((seq![nn] + tv)[j] == tv[j - 1]);
        }
    }
}

/// Deletes the character range `[sdel, edel)` from the flattened document.
///
/// Characters are removed from text runs, which are truncated or dropped;
/// an atomic leaf is removed exactly when the range covers it whole (the
/// range's ends may not sit strictly inside one); formatting and link
/// containers whose children are all removed are dropped, while structural
/// block containers are kept even when emptied.
#[verifier::rlimit(60)]
pub fn delete_range(nodes: Vec<DomNode>, sdel: usize, edel: usize) -> (res: Vec<DomNode>)
    requires
        nodes_wf(nodes@),
        nodes_text(nodes@).len() <= usize::MAX,
        sdel <= edel,
        edel as nat <= nodes_text(nodes@).len(),
        cur_ok_nodes(nodes@, sdel as int),
        cur_ok_nodes(nodes@, edel as int),
    ensures
        ({
            let t = nodes_text(nodes@);
            &&& nodes_text(res@) == t.subrange(0, sdel as int) + t.subrange(
                edel as int,
                t.len() as int,
            )
            &&& nodes_wf(res@)
            &&& cur_ok_nodes(res@, sdel as int)
            &&& delete_shape(nodes@, res@, sdel as int, edel as int)
        }),
    decreases nodes@,
{
    let ghost orig = nodes@;
    let ghost t = nodes_text(orig);
    let mut nodes = nodes;
    if nodes.len() == 0 {
        proof {
            assert(t.subrange(0, sdel as int) + t.subrange(edel as int, t.len() as int) =~= t);
        }
        nodes
    } else {
        let ghost m = node_text(orig[0]);
        let ghost r = nodes_text(orig.subrange(1, orig.len() as int));
        proof {
            assert(t == m + r);
            lemma_nodes_wf_subrange(orig, 1, orig.len() as int);
        }
        let child = nodes.remove(0);
        proof {
            assert(child == orig[0]);
            assert(nodes@ =~= orig.subrange(1, orig.len() as int));
            assert((node_len(orig[0]) as int) <= t.len());
        }
        let lc = text_len_node(&child);
        let cs = if sdel < lc {
            sdel
        } else {
            lc
        };
        let ce = if edel < lc {
            edel
        } else {
            lc
        };
        let s2 = if sdel > lc {
            sdel - lc
        } else {
            0
        };
        let e2 = if edel > lc {
            edel - lc
        } else {
            0
        };
        let ghost krest = r.subrange(0, s2 as int) + r.subrange(e2 as int, r.len() as int);
        proof {
            if sdel <= lc {
                lemma_cur_ok_out(orig.subrange(1, orig.len() as int), s2 as int);
            }
            if edel <= lc {
                lemma_cur_ok_out(orig.subrange(1, orig.len() as int), e2 as int);
            }
        }
        let mut tail = delete_range(nodes, s2, e2);
        let ghost tailv = tail@;
        proof {
            assert(lc as int == node_len(orig[0]) as int);
            assert(s2 as int == floor0(sdel as int - node_len(orig[0]) as int));
            assert(e2 as int == floor0(edel as int - node_len(orig[0]) as int));
            assert(cs as int == min_int(sdel as int, node_len(orig[0]) as int));
            assert(ce as int == min_int(edel as int, node_len(orig[0]) as int));
            assert(delete_shape(
                orig.subrange(1, orig.len() as int),
                tailv,
                floor0(sdel as int - node_len(orig[0]) as int),
                floor0(edel as int - node_len(orig[0]) as int),
            ));
        }
        let ghost k = m.subrange(0, cs as int) + m.subrange(ce as int, m.len() as int);
        proof {
            assert(t.subrange(0, sdel as int) + t.subrange(edel as int, t.len() as int) =~= k
                + krest);
        }
        if cs == ce {
            let ghost tv = tail@;
            proof {
                assert(k =~= m);
                assert(cur_ok_node(child, sdel as int));
                lemma_prepend_kept(child, tv, sdel as int, s2 as int);
            }
            tail.insert(0, child);
            proof {
                assert(tail@ =~= seq![child] + tv);
                assert(nodes_text(tail@) =~= t.subrange(0, sdel as int) + t.subrange(
                    edel as int,
                    t.len() as int,
                ));
                assert(tail@[0] == orig[0]);
                assert(tail@.subrange(1, tail@.len() as int) =~= tv);
                assert(delete_shape(orig, tail@, sdel as int, edel as int));
            }
            tail
        } else {
            match child {
                DomNode::Text { chars } => {
                    let mut head = chars;
                    let mut rest_chars = head.split_off(ce);
                    head.truncate(cs);
                    head.append(&mut rest_chars);
                    proof {
                        assert(head@ =~= k);
                    }
                    if head.len() > 0 {
                        let nn = DomNode::Text { chars: head };
                        let ghost tv = tail@;
                        proof {
                            assert(node_text(nn) == k);
                            lemma_prepend_kept(nn, tv, sdel as int, s2 as int);
                        }
                        tail.insert(0, nn);
                        proof {
                            assert(tail@ =~= seq![nn] + tv);
                            assert(nodes_text(tail@) =~= t.subrange(0, sdel as int) + t.subrange(
                                edel as int,
                                t.len() as int,
                            ));
                            assert(tail@[0] == nn);
                            assert(tail@.subrange(1, tail@.len() as int) =~= tv);
                            assert(node_text(nn) == node_text(orig[0]).subrange(0, cs as int)
                                + node_text(orig[0]).subrange(ce as int, lc as int));
                            assert(delete_shape(orig, tail@, sdel as int, edel as int));
                        }
                        tail
                    } else {
                        proof {
                            assert(cs == 0 && (ce as int) == m.len());
                            assert(k =~= Seq::<char>::empty());
                            assert(sdel == 0);
                            assert(nodes_text(tail@) =~= t.subrange(0, sdel as int) + t.subrange(
                                edel as int,
                                t.len() as int,
                            ));
                            assert(delete_shape(orig, tail@, sdel as int, edel as int));
                        }
                        tail
                    }
                },
                DomNode::LineBreak => {
                    proof {
                        assert(cs == 0 && ce == lc);
                        assert(k =~= Seq::<char>::empty());
                        assert(sdel == 0);
                        assert(nodes_text(tail@) =~= t.subrange(0, sdel as int) + t.subrange(
                            edel as int,
                            t.len() as int,
                        ));
                        assert(delete_shape(orig, tail@, sdel as int, edel as int));
                    }
                    tail
                },
                DomNode::Mention { .. } => {
                    if cs == 0 && ce == lc {
                        proof {
                            assert(k =~= Seq::<char>::empty());
                            assert(sdel == 0);
                            assert(nodes_text(tail@) =~= t.subrange(0, sdel as int) + t.subrange(
                                edel as int,
                                t.len() as int,
                            ));
                            assert(delete_shape(orig, tail@, sdel as int, edel as int));
                        }
                        tail
                    } else {
                        proof {
                            assert(cur_ok_node(orig[0], sdel as int));
                            assert(cur_ok_node(orig[0], edel as int));
                            assert(false);
                        }
                        tail
                    }
                },
                DomNode::Container { kind, children } => {
                    let ghost ckind = kind;
                    proof {
                        assert(orig[0] == DomNode::Container { kind: ckind, children });
                        assert(nodes_wf(children@));
                        assert(cur_ok_node(orig[0], sdel as int));
                        assert(cur_ok_node(orig[0], edel as int));
                        if sdel >= lc {
                            lemma_cur_ok_out(children@, cs as int);
                        }
                        if edel >= lc {
                            lemma_cur_ok_out(children@, ce as int);
                        }
                    }
                    let children2 = delete_range(children, cs, ce);
                    let prunable = match &kind {
                        ContainerKind::Formatting { .. } => true,
                        ContainerKind::Link { .. } => true,
                        _ => false,
                    };
                    if prunable && children2.len() == 0 {
                        proof {
                            assert(children2@ =~= Seq::<DomNode>::empty());
                            assert(nodes_text(children2@).len() == 0);
                            assert(k.len() == 0);
                            assert(k =~= Seq::<char>::empty());
                            assert(cs == 0);
                            assert(sdel == 0);
                            assert(nodes_text(tail@) =~= t.subrange(0, sdel as int) + t.subrange(
                                edel as int,
                                t.len() as int,
                            ));
                            assert(prunable_kind(container_kind(orig[0])));
                            assert(delete_shape(
                                children_of(orig[0]),
                                children2@,
                                min_int(sdel as int, node_len(orig[0]) as int),
                                min_int(edel as int, node_len(orig[0]) as int),
                            ));
                            lemma_delete_shape_empties(
                                children_of(orig[0]),
                                children2@,
                                min_int(sdel as int, node_len(orig[0]) as int),
                                min_int(edel as int, node_len(orig[0]) as int),
                            );
                            assert(delete_empties(
                                children_of(orig[0]),
                                min_int(sdel as int, node_len(orig[0]) as int),
                                min_int(edel as int, node_len(orig[0]) as int),
                            ));
                            assert(delete_shape(orig, tail@, sdel as int, edel as int));
                        }
                        tail
                    } else {
                        let nn = DomNode::Container { kind, children: children2 };
                        let ghost tv = tail@;
                        proof {
                            assert(node_text(nn) == nodes_text(children2@));
                            assert(node_text(nn) =~= k);
                            assert(cur_ok_node(nn, sdel as int)) by {
                                if (sdel as int) < (lc as int) {
                                    assert(cur_ok_nodes(children2@, cs as int));
                                } else {
                                    lemma_cur_ok_out(children2@, sdel as int);
                                }
                            }
                            lemma_prepend_kept(nn, tv, sdel as int, s2 as int);
                        }
                        tail.insert(0, nn);
                        proof {
                            assert(tail@ =~= seq![nn] + tv);
                            assert(nodes_text(tail@) =~= t.subrange(0, sdel as int) + t.subrange(
                                edel as int,
                                t.len() as int,
                            ));
                            assert(container_kind(nn) == container_kind(orig[0]));
                            assert(children_of(nn) == children2@);
                            assert(tail@[0] == nn);
                            assert(tail@.subrange(1, tail@.len() as int) =~= tv);
                            assert(children_of(tail@[0]) == children2@);
                            assert(delete_shape(
                                children_of(orig[0]),
                                children2@,
                                min_int(sdel as int, node_len(orig[0]) as int),
                                min_int(edel as int, node_len(orig[0]) as int),
                            ));
                            lemma_delete_shape_empties(
                                children_of(orig[0]),
                                children2@,
                                min_int(sdel as int, node_len(orig[0]) as int),
                                min_int(edel as int, node_len(orig[0]) as int),
                            );
                            assert(!(prunable_kind(container_kind(orig[0])) && delete_empties(
                                children_of(orig[0]),
                                min_int(sdel as int, node_len(orig[0]) as int),
                                min_int(edel as int, node_len(orig[0]) as int),
                            )));
                            assert(delete_shape(orig, tail@, sdel as int, edel as int));
                        }
                        tail
                    }
                },
            }
        }
    }
}

} // verus!
