//! Laws of the insertion engine, stated over the spec functions that the
//! public contracts use.

use vstd::prelude::*;

use crate::dom::DomNode;
use crate::dom::lemma_nodes_text_split;
use crate::dom::lemma_nodes_text_singleton;
use crate::dom::node_len;
use crate::dom::node_text;
use crate::dom::nodes_text;
use crate::dom::nodes_wf;
use crate::dom::children_of;
use crate::dom::spec_is_atomic;
use crate::mutation::lemma_path_offset_bound;
use crate::position::lemma_resolve_props;
use crate::position::needs_trailing;
use crate::position::node_at;
use crate::position::path_offset;
use crate::position::path_valid;
use crate::position::resolve_nodes;

verus! {

/// Law: a successful insertion changes the document length by exactly the
/// inserted label's length, minus the deleted trigger span, plus one when a
/// trailing separator was synthesized.  The first expression is the document
/// text that `set_mention_from_suggestion` promises.
pub proof fn lemma_insertion_document_length(
    t: Seq<char>,
    label: Seq<char>,
    s: int,
    e: int,
    trailing: bool,
)
    requires
        0 <= s <= e <= t.len(),
    ensures
        (t.subrange(0, s) + label + (if trailing {
            seq![' ']
        } else {
            Seq::<char>::empty()
        }) + t.subrange(e, t.len() as int)).len() == t.len() - (e - s) + label.len() + (if trailing {
            1int
        } else {
            0int
        }),
{
}

/// Law: in a document without text there is nothing to anchor to, so an
/// insertion appends its node and always synthesizes a trailing separator;
/// the only admissible cursor is offset zero, and the resulting text is the
/// node's text followed by the separator.
pub proof fn lemma_insert_into_empty(children: Seq<DomNode>, s: int, ins: Seq<char>)
    requires
        nodes_wf(children),
        children.len() <= usize::MAX,
        nodes_text(children).len() == 0,
        0 <= s <= nodes_text(children).len(),
    ensures
        s == 0,
        needs_trailing(children, s),
        ({
            let t = nodes_text(children);
            t.subrange(0, s) + ins + seq![' '] + t.subrange(s, t.len() as int) =~= ins + seq![' ']
        }),
{
    lemma_resolve_props(children, s);
    if resolve_nodes(children, s) is Some {
        let (p, l) = resolve_nodes(children, s)->Some_0;
        lemma_path_offset_bound(children, p);
        assert(false);
    }
}

/// The characters a leaf contributes stand exactly in the window of the
/// flattened text that begins at the leaf's absolute offset.
pub proof fn lemma_leaf_text_window(s: Seq<DomNode>, p: Seq<usize>)
    requires
        path_valid(s, p),
    ensures
        ({
            let off = path_offset(s, p);
            let n = node_at(s, p);
            nodes_text(s).subrange(off, off + node_len(n)) == node_text(n)
        }),
    decreases p.len(),
{
    let i = p[0] as int;
    let t = nodes_text(s);
    lemma_nodes_text_split(s, i);
    assert(s.subrange(i, s.len() as int).subrange(0, 1) =~= seq![s[i]]);
    lemma_nodes_text_split(s.subrange(i, s.len() as int), 1);
    lemma_nodes_text_singleton(s[i]);
    assert(s.subrange(i, s.len() as int).subrange(1, s.len() - i) =~= s.subrange(
        i + 1,
        s.len() as int,
    ));
    let a = nodes_text(s.subrange(0, i));
    let m = node_text(s[i]);
    let c = nodes_text(s.subrange(i + 1, s.len() as int));
    assert(t == a + (m + c));
    if p.len() == 1 {
        assert(t.subrange(a.len() as int, a.len() as int + m.len()) =~= m);
    } else {
        let sub = p.subrange(1, p.len() as int);
        lemma_leaf_text_window(children_of(s[i]), sub);
        lemma_path_offset_bound(children_of(s[i]), sub);
        let co = path_offset(children_of(s[i]), sub);
        let n = node_at(s, p);
        assert(node_at(s, p) == node_at(children_of(s[i]), sub));
        assert(m == nodes_text(children_of(s[i])));
        assert(t.subrange(a.len() as int + co, a.len() as int + co + node_len(n)) =~= m.subrange(
            co,
            co + node_len(n),
        ));
    }
}

/// No offset on or inside a text leaf's window sits strictly inside an
/// atomic leaf: divisible text is always a safe place for the cursor.
pub proof fn lemma_text_window_cur_ok(s: Seq<DomNode>, p: Seq<usize>, x: int)
    requires
        path_valid(s, p),
        node_at(s, p) is Text,
        path_offset(s, p) <= x <= path_offset(s, p) + node_len(node_at(s, p)),
    ensures
        crate::position::cur_ok_nodes(s, x),
    decreases p.len(),
{
    let i = p[0] as int;
    lemma_nodes_text_split(s, i);
    assert(s.subrange(i, s.len() as int).subrange(0, 1) =~= seq![s[i]]);
    lemma_nodes_text_split(s.subrange(i, s.len() as int), 1);
    lemma_nodes_text_singleton(s[i]);
    assert(s.subrange(i, s.len() as int).subrange(1, s.len() - i) =~= s.subrange(
        i + 1,
        s.len() as int,
    ));
    let a = s.subrange(0, i);
    let c = s.subrange(i + 1, s.len() as int);
    let al = nodes_text(a).len() as int;
    assert(s =~= a + (seq![s[i]] + c));
    if p.len() == 1 {
        assert(crate::position::cur_ok_node(s[i], x - al));
    } else {
        let sub = p.subrange(1, p.len() as int);
        lemma_path_offset_bound(children_of(s[i]), sub);
        assert(node_len(s[i]) == nodes_text(children_of(s[i])).len());
        lemma_text_window_cur_ok(children_of(s[i]), sub, x - al);
        assert(node_at(s, p) == node_at(children_of(s[i]), sub));
        assert(crate::position::cur_ok_node(s[i], x - al));
    }
    assert(al <= x <= al + node_len(s[i]));
    crate::mutation::lemma_cur_ok_append(a, seq![s[i]] + c, x);
    crate::mutation::lemma_cur_ok_append(seq![s[i]], c, x - al);
    crate::mutation::lemma_cur_ok_out(a, x);
    crate::mutation::lemma_cur_ok_out(c, x - al - node_len(s[i]));
    crate::mutation::lemma_cur_ok_singleton(s[i], x - al);
    assert(crate::position::cur_ok_nodes(seq![s[i]] + c, x - al));
}

/// Law: an insertion addressed immediately before an atomic leaf never
/// splits that leaf and synthesizes no trailing separator; the leaf's
/// characters stand whole immediately after the inserted text.
pub proof fn lemma_insert_before_atomic(children: Seq<DomNode>, s: int, ins: Seq<char>)
    requires
        nodes_wf(children),
        children.len() <= usize::MAX,
        0 <= s <= nodes_text(children).len(),
        resolve_nodes(children, s) is Some,
        resolve_nodes(children, s)->Some_0.1 == 0,
        spec_is_atomic(node_at(children, resolve_nodes(children, s)->Some_0.0)),
    ensures
        !needs_trailing(children, s),
        ({
            let p = resolve_nodes(children, s)->Some_0.0;
            let leaf = node_at(children, p);
            let t = nodes_text(children);
            let spliced = t.subrange(0, s) + ins + t.subrange(s, t.len() as int);
            spliced.subrange(s + ins.len(), s + ins.len() + node_len(leaf)) == node_text(leaf)
        }),
{
    let p = resolve_nodes(children, s)->Some_0.0;
    let leaf = node_at(children, p);
    let t = nodes_text(children);
    lemma_resolve_props(children, s);
    lemma_path_offset_bound(children, p);
    lemma_leaf_text_window(children, p);
    let spliced = t.subrange(0, s) + ins + t.subrange(s, t.len() as int);
    assert(spliced.subrange(s + ins.len(), s + ins.len() + node_len(leaf)) =~= t.subrange(
        s,
        s + node_len(leaf),
    ));
}

/// Law: an insertion addressed immediately after an atomic leaf takes the
/// cursor-at-end branch, so a trailing separator is synthesized; the leaf's
/// characters stand whole immediately before the inserted text.
pub proof fn lemma_insert_after_atomic(children: Seq<DomNode>, s: int, ins: Seq<char>)
    requires
        nodes_wf(children),
        children.len() <= usize::MAX,
        0 <= s <= nodes_text(children).len(),
        resolve_nodes(children, s) is Some,
        spec_is_atomic(node_at(children, resolve_nodes(children, s)->Some_0.0)),
        resolve_nodes(children, s)->Some_0.1 == node_len(
            node_at(children, resolve_nodes(children, s)->Some_0.0),
        ),
    ensures
        needs_trailing(children, s),
        ({
            let p = resolve_nodes(children, s)->Some_0.0;
            let leaf = node_at(children, p);
            let t = nodes_text(children);
            let spliced = t.subrange(0, s) + ins + t.subrange(s, t.len() as int);
            spliced.subrange(s - node_len(leaf), s) == node_text(leaf)
        }),
{
    let p = resolve_nodes(children, s)->Some_0.0;
    let leaf = node_at(children, p);
    let t = nodes_text(children);
    lemma_resolve_props(children, s);
    lemma_path_offset_bound(children, p);
    lemma_leaf_text_window(children, p);
    let spliced = t.subrange(0, s) + ins + t.subrange(s, t.len() as int);
    assert(spliced.subrange(s - node_len(leaf), s) =~= t.subrange(s - node_len(leaf), s));
    assert(t.subrange(s - node_len(leaf), s) =~= t.subrange(
        path_offset(children, p),
        path_offset(children, p) + node_len(leaf),
    ));
}

} // verus!
