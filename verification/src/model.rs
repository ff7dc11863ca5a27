//! The composer model: a document tree plus a cursor/selection, the node
//! insertion engine, text replacement, and the mention insertion pipeline.

use vstd::prelude::*;
use vstd::string::StrSliceExecFns;

use crate::dom::ContainerKind;
use crate::dom::DomNode;
use crate::dom::children_of;
use crate::dom::container_kind;
use crate::dom::lemma_nodes_text_singleton;
use crate::dom::mention_attrs;
use crate::dom::mention_label;
use crate::dom::mention_url;
use crate::dom::lemma_nodes_text_split;
use crate::dom::node_len;
use crate::dom::node_text;
use crate::dom::node_wf;
use crate::dom::nodes_text;
use crate::dom::nodes_wf;
use crate::mutation::SpliceDesc;
use crate::mutation::SpliceOp;
use crate::mutation::append_at_end;
use crate::mutation::append_shape;
use crate::mutation::delete_shape;
use crate::mutation::splice_shape;
use crate::mutation::apply_splice;
use crate::mutation::delete_range;
use crate::mutation::lemma_path_offset_bound;
use crate::position::DomRange;
use crate::position::LeafPos;
use crate::position::cur_ok_nodes;
use crate::position::lemma_path_offset_parent;
use crate::position::lemma_path_prefix_valid;
use crate::position::lemma_resolve_not_atomic;
use crate::position::lemma_resolve_props;
use crate::position::needs_trailing;
use crate::position::node_at;
use crate::position::path_offset;
use crate::position::path_valid;
use crate::position::resolve_nodes;
use crate::position::resolve_slice;
use crate::position::text_len_node;
use crate::position::text_len_slice;

verus! {

/// The span of trigger text (such as `"@ali"`) that a suggestion was
/// detected for, as absolute offsets into the flattened document.
pub struct SuggestionPattern {
    pub start: usize,
    pub end: usize,
}

/// What the menu layer should do after an edit: nothing, or offer
/// completions for a detected suggestion pattern.
pub enum MenuAction {
    Keep,
    Suggestion(SuggestionPattern),
}

/// Whether an edit left the document as it was or replaced its content; a
/// replacement carries the new flattened document text and the new
/// selection, sufficient for the consumer to re-render.
pub enum TextUpdate {
    Keep,
    ReplaceAll { replacement_text: Vec<char>, start: usize, end: usize },
}

/// The immutable update object handed to the consumer after each operation.
pub struct ComposerUpdate {
    pub text_update: TextUpdate,
    pub menu_action: MenuAction,
}

/// A pre-mutation record for the history collaborator: the flattened
/// document text and the selection.  The undo stack itself sits outside this
/// core.
pub struct DocState {
    pub text: Vec<char>,
    pub start: usize,
    pub end: usize,
}

/// The editing model: the document root's children, the selection as a pair
/// of absolute offsets (equal offsets denote a collapsed cursor), and the
/// recorded pre-mutation states.
pub struct ComposerModel {
    pub children: Vec<DomNode>,
    pub start: usize,
    pub end: usize,
    pub history: Vec<DocState>,
}

impl ComposerModel {
    /// The flattened document text.
    pub open spec fn text(self) -> Seq<char> {
        nodes_text(self.children@)
    }

    /// Model invariant: a well-formed tree whose text length fits the
    /// machine, with both selection ends inside the document and never
    /// strictly inside an atomic leaf.
    pub open spec fn inv(self) -> bool {
        &&& nodes_wf(self.children@)
        &&& nodes_text(self.children@).len() <= usize::MAX
        &&& self.start as nat <= nodes_text(self.children@).len()
        &&& self.end as nat <= nodes_text(self.children@).len()
        &&& cur_ok_nodes(self.children@, self.start as int)
        &&& cur_ok_nodes(self.children@, self.end as int)
    }

    /// An empty document with a collapsed cursor at offset zero.
    pub fn new() -> (r: ComposerModel)
        ensures
            r.inv(),
            r.text().len() == 0,
            r.start == 0,
            r.end == 0,
    {
        let children: Vec<DomNode> = Vec::new();
        proof {
            assert(children@ =~= Seq::<DomNode>::empty());
        }
        ComposerModel { children, start: 0, end: 0, history: Vec::new() }
    }

    /// The selection normalized to `(min, max)`.
    pub fn safe_selection(&self) -> (r: (usize, usize))
        ensures
            r.0 <= r.1,
            (r.0 == self.start && r.1 == self.end) || (r.0 == self.end && r.1 == self.start),
    {
        if self.start <= self.end {
            (self.start, self.end)
        } else {
            (self.end, self.start)
        }
    }

    /// Resolves a normalized selection against the tree: a non-collapsed
    /// selection as such, a collapsed cursor to the leaf it addresses, or
    /// `Empty` in a document without any text to anchor to.
    pub fn find_range(&self, s: usize, e: usize) -> (r: DomRange)
        requires
            self.inv(),
            s <= e,
            e as nat <= self.text().len(),
        ensures
            ({
                let res = resolve_nodes(self.children@, s as int);
                match r {
                    DomRange::Selection => s != e,
                    DomRange::Empty => s == e && res is None && self.text().len() == 0,
                    DomRange::Leaf(leaf) => {
                        &&& s == e
                        &&& res == Some((leaf.handle@, leaf.start_offset as int))
                        &&& path_valid(self.children@, leaf.handle@)
                        &&& leaf.length == node_len(node_at(self.children@, leaf.handle@))
                        &&& leaf.start_offset <= leaf.length
                        &&& path_offset(self.children@, leaf.handle@) + leaf.start_offset == s
                    },
                }
            }),
    {
        if s != e {
            DomRange::Selection
        } else {
            proof {
                assert(self.children@.len() == self.children.len());
                lemma_resolve_props(self.children@, s as int);
            }
            match resolve_slice(self.children.as_slice(), s) {
                None => DomRange::Empty,
                Some((handle, start_offset)) => {
                    proof {
                        assert(resolve_nodes(self.children@, s as int) == Some(
                            (handle@, start_offset as int),
                        ));
                        assert(path_valid(self.children@, handle@));
                        lemma_path_offset_bound(self.children@, handle@);
                        assert(handle@.subrange(0, handle@.len() as int) =~= handle@);
                    }
                    let leaf_ref = node_ref_at(&self.children, &handle, 0);
                    let length = text_len_node(leaf_ref);
                    DomRange::Leaf(LeafPos { handle, start_offset, length })
                },
            }
        }
    }
}

/// The absolute offset at which the node addressed by `path[depth..]`
/// begins.
fn offset_of(nodes: &Vec<DomNode>, path: &Vec<usize>, depth: usize) -> (r: usize)
    requires
        nodes_wf(nodes@),
        nodes_text(nodes@).len() <= usize::MAX,
        depth < path@.len(),
        path_valid(nodes@, path@.subrange(depth as int, path@.len() as int)),
    ensures
        r as int == path_offset(nodes@, path@.subrange(depth as int, path@.len() as int)),
    decreases path@.len() - depth,
{
    let ghost p = path@.subrange(depth as int, path@.len() as int);
    proof {
        assert(p[0] == path@[depth as int]);
        lemma_path_offset_bound(nodes@, p);
        lemma_nodes_text_split(nodes@, p[0] as int);
    }
    let i = path[depth];
    let prefix = text_len_slice(vstd::slice::slice_subrange(nodes.as_slice(), 0, i));
    if depth == path.len() - 1 {
        prefix
    } else {
        proof {
            assert(p.subrange(1, p.len() as int) =~= path@.subrange(
                depth as int + 1,
                path@.len() as int,
            ));
        }
        match &nodes[i] {
            DomNode::Container { children, .. } => {
                proof {
                    assert(children_of(nodes@[i as int]) == children@);
                    assert(nodes_wf(children@));
                    assert(nodes_text(nodes@.subrange(p[0] as int, nodes@.len() as int))
                        == node_text(nodes@[i as int]) + nodes_text(
                        nodes@.subrange(p[0] as int + 1, nodes@.len() as int),
                    )) by {
                        assert(nodes@.subrange(p[0] as int, nodes@.len() as int)[0]
                            == nodes@[i as int]);
                        assert(nodes@.subrange(p[0] as int, nodes@.len() as int).subrange(
                            1,
                            nodes@.len() - p[0] as int,
                        ) =~= nodes@.subrange(p[0] as int + 1, nodes@.len() as int));
                    }
                    lemma_path_offset_bound(
                        children@,
                        path@.subrange(depth as int + 1, path@.len() as int),
                    );
                }
                let deeper = offset_of(children, path, depth + 1);
                prefix + deeper
            },
            _ => {
                proof {
                    assert(false);
                }
                prefix
            },
        }
    }
}

impl ComposerModel {
    /// Converts an absolute offset to a tree position: the addressed leaf's
    /// handle and the cursor offset local to that leaf, or nothing in a
    /// document without a leaf to anchor to.  Offsets beyond the document
    /// length are a caller error and are excluded.
    pub fn to_tree_position(&self, offset: usize) -> (r: Option<LeafPos>)
        requires
            self.inv(),
            offset as nat <= self.text().len(),
        ensures
            r is None ==> self.text().len() == 0,
            r is Some ==> ({
                let leaf = r->Some_0;
                &&& resolve_nodes(self.children@, offset as int) == Some(
                    (leaf.handle@, leaf.start_offset as int),
                )
                &&& path_valid(self.children@, leaf.handle@)
                &&& leaf.length == node_len(node_at(self.children@, leaf.handle@))
                &&& path_offset(self.children@, leaf.handle@) + leaf.start_offset == offset
            }),
    {
        match self.find_range(offset, offset) {
            DomRange::Leaf(leaf) => Some(leaf),
            _ => None,
        }
    }

    /// The absolute offset a leaf descriptor flattens back to: the handle's
    /// offset plus the descriptor's leaf-local cursor offset.
    pub fn flatten(&self, pos: &LeafPos) -> (r: usize)
        requires
            self.inv(),
            path_valid(self.children@, pos.handle@),
            pos.start_offset as nat <= node_len(node_at(self.children@, pos.handle@)),
        ensures
            r as int == path_offset(self.children@, pos.handle@) + pos.start_offset,
    {
        proof {
            lemma_path_offset_bound(self.children@, pos.handle@);
            assert(pos.handle@.subrange(0, pos.handle@.len() as int) =~= pos.handle@);
        }
        let off = offset_of(&self.children, &pos.handle, 0);
        off + pos.start_offset
    }
}

/// How inserting a node at a collapsed cursor reshapes the tree: the node
/// spliced before, after or inside the addressed leaf (or appended into a
/// document without text), followed — exactly when the trailing separator is
/// called for — by one space character placed just after the node.
pub open spec fn node_insert_shape(
    before: Seq<DomNode>,
    after: Seq<DomNode>,
    s: int,
    nd: DomNode,
) -> bool {
    exists|mid2: Seq<DomNode>|
        #![trigger nodes_text(mid2)]
        {
            &&& match resolve_nodes(before, s) {
                None => append_shape(before, mid2, nd),
                Some((p, l)) => splice_shape(
                    before,
                    mid2,
                    p,
                    if l == 0 {
                        SpliceDesc::Before(nd)
                    } else if l == node_len(node_at(before, p)) {
                        SpliceDesc::After(nd)
                    } else {
                        SpliceDesc::Split { local: l, node: nd }
                    },
                ),
            }
            &&& if needs_trailing(before, s) {
                text_insert_shape(mid2, after, s + node_len(nd), seq![' '])
            } else {
                after == mid2
            }
        }
}

impl ComposerModel {
    /// Inserts the given node at the current cursor position.
    ///
    /// A non-collapsed selection is rejected: the model is left exactly as it
    /// was and the update reports that state is kept.  For a collapsed cursor
    /// the node's text lands exactly at the cursor offset; a single trailing
    /// separator space is synthesized after it when no following content
    /// anchors it (an empty document, or a cursor at the end of the addressed
    /// leaf), and the cursor comes to rest just past everything inserted.
    /// The tree afterwards is exactly the old tree with this node spliced in
    /// at the resolved position (and the possible separator placed after
    /// it); no other leaf or container is touched.
    pub fn insert_node_at_cursor(&mut self, node: DomNode) -> (r: ComposerUpdate)
        requires
            old(self).inv(),
            node_wf(node),
            crate::dom::spec_is_leaf(node),
            old(self).text().len() + node_len(node) + 1 <= usize::MAX,
        ensures
            final(self).inv(),
            old(self).start != old(self).end ==> *final(self) == *old(self) && r.text_update is Keep,
            old(self).start == old(self).end ==> ({
                let s = old(self).start as int;
                let t = old(self).text();
                let trailing = needs_trailing(old(self).children@, s);
                &&& r.text_update is ReplaceAll
                &&& r.text_update->ReplaceAll_replacement_text@ == final(self).text()
                &&& r.text_update->ReplaceAll_start == final(self).start
                &&& r.text_update->ReplaceAll_end == final(self).end
                &&& final(self).text() == t.subrange(0, s) + node_text(node) + (if trailing {
                    seq![' ']
                } else {
                    Seq::<char>::empty()
                }) + t.subrange(s, t.len() as int)
                &&& final(self).end == final(self).start
                &&& final(self).start as int == s + node_len(node) + (if trailing {
                    1int
                } else {
                    0int
                })
                &&& final(self).history == old(self).history
                &&& node_insert_shape(old(self).children@, final(self).children@, s, node)
            }),
    {
        if self.start != self.end {
            return ComposerUpdate { text_update: TextUpdate::Keep, menu_action: MenuAction::Keep };
        }
        let s = self.start;
        let ghost orig = self.children@;
        let ghost t = nodes_text(orig);
        let ghost gnode = node;
        let nlen = text_len_node(&node);
        proof {
            assert(orig.len() == self.children.len());
            lemma_resolve_props(orig, s as int);
            lemma_resolve_not_atomic(orig, s as int);
        }
        let range = self.find_range(s, s);
        let mut ch: Vec<DomNode> = Vec::new();
        core::mem::swap(&mut ch, &mut self.children);
        proof {
            assert(ch@ == orig);
        }
        let pair: (Vec<DomNode>, bool) = match range {
            DomRange::Selection => {
                proof {
                    assert(false);
                }
                (ch, false)
            },
            DomRange::Empty => {
                proof {
                    assert(t.len() == 0);
                    assert(t.subrange(0, s as int) =~= Seq::<char>::empty());
                    assert(t.subrange(s as int, t.len() as int) =~= Seq::<char>::empty());
                }
                let ch2 = append_at_end(ch, node);
                proof {
                    assert(nodes_text(ch2@) =~= t.subrange(0, s as int) + node_text(gnode)
                        + t.subrange(s as int, t.len() as int));
                }
                (ch2, true)
            },
            DomRange::Leaf(leaf_pos) => {
                let path = leaf_pos.handle;
                let local = leaf_pos.start_offset;
                let leaf_len = leaf_pos.length;
                let ghost p = path@;
                proof {
                    assert(resolve_nodes(orig, s as int) == Some((p, local as int)));
                    assert(path_valid(orig, p));
                    lemma_path_offset_bound(orig, p);
                    assert(p.subrange(0, p.len() as int) =~= p);
                }
                let ghost leaf = node_at(orig, p);
                if local == 0 {
                    let ch2 = apply_splice(ch, &path, 0, SpliceOp::InsertBefore(node));
                    proof {
                        assert(path_offset(orig, p) + 0 == s);
                        assert(!needs_trailing(orig, s as int));
                    }
                    (ch2, false)
                } else if local == leaf_len {
                    let ch2 = apply_splice(ch, &path, 0, SpliceOp::InsertAfter(node));
                    proof {
                        assert(path_offset(orig, p) + node_len(leaf) == s);
                        assert(needs_trailing(orig, s as int));
                    }
                    (ch2, true)
                } else {
                    proof {
                        assert(crate::dom::spec_is_atomic(leaf) || leaf is Text);
                        assert(leaf is Text);
                        assert(!needs_trailing(orig, s as int));
                    }
                    let ch2 = apply_splice(ch, &path, 0, SpliceOp::SplitText { local, node });
                    proof {
                        assert(path_offset(orig, p) + local == s);
                    }
                    (ch2, false)
                }
            },
        };
        let (ch2, trailing) = pair;
        let ghost mid = nodes_text(ch2@);
        let new_cursor = s + nlen;
        proof {
            assert(mid == t.subrange(0, s as int) + node_text(gnode) + t.subrange(
                s as int,
                t.len() as int,
            ));
            assert(mid.len() == t.len() + nlen);
        }
        if trailing {
            let mut space: Vec<char> = Vec::new();
            space.push(' ');
            proof {
                assert(space@ =~= seq![' ']);
                assert(mid.subrange(0, new_cursor as int) =~= t.subrange(0, s as int) + node_text(
                    gnode,
                ));
                assert(mid.subrange(new_cursor as int, mid.len() as int) =~= t.subrange(
                    s as int,
                    t.len() as int,
                ));
            }
            let ghost midv = ch2@;
            let ch3 = insert_text_at(ch2, new_cursor, space);
            self.children = ch3;
            self.start = new_cursor + 1;
            self.end = self.start;
            proof {
                assert(self.text() =~= t.subrange(0, s as int) + node_text(gnode) + seq![' ']
                    + t.subrange(s as int, t.len() as int));
                assert(text_insert_shape(midv, self.children@, s + node_len(gnode), seq![' ']));
                assert(nodes_text(midv) == mid);
            }
        } else {
            let ghost midv = ch2@;
            self.children = ch2;
            self.start = new_cursor;
            self.end = self.start;
            proof {
                assert(self.children@ == midv);
                assert(nodes_text(midv) == mid);
            }
        }
        let replacement_text = collect_slice_text(self.children.as_slice());
        let text_update = TextUpdate::ReplaceAll { replacement_text, start: self.start, end: self.end };
        ComposerUpdate { text_update, menu_action: MenuAction::Keep }
    }
}

/// A shared reference to the node a handle addresses.
fn node_ref_at<'a>(nodes: &'a Vec<DomNode>, path: &Vec<usize>, depth: usize) -> (r: &'a DomNode)
    requires
        depth < path@.len(),
        path_valid(nodes@, path@.subrange(depth as int, path@.len() as int)),
    ensures
        *r == node_at(nodes@, path@.subrange(depth as int, path@.len() as int)),
    decreases path@.len() - depth,
{
    let ghost p = path@.subrange(depth as int, path@.len() as int);
    proof {
        assert(p[0] == path@[depth as int]);
    }
    let i = path[depth];
    if depth == path.len() - 1 {
        proof {
            assert(p.len() == 1);
            assert(node_at(nodes@, p) == nodes@[p[0] as int]);
        }
        &nodes[i]
    } else {
        proof {
            assert(p.subrange(1, p.len() as int) =~= path@.subrange(
                depth as int + 1,
                path@.len() as int,
            ));
            assert(node_at(nodes@, p) == node_at(
                children_of(nodes@[i as int]),
                p.subrange(1, p.len() as int),
            ));
        }
        match &nodes[i] {
            DomNode::Container { children, .. } => {
                proof {
                    assert(children_of(nodes@[i as int]) == children@);
                }
                node_ref_at(children, path, depth + 1)
            },
            other => {
                proof {
                    assert(false);
                }
                other
            },
        }
    }
}

/// How placing characters at an offset reshapes the tree: appended as a new
/// run at the innermost trailing container of a document without text; a new
/// run beside an atomic leaf; at the outer boundary of a link, a new run
/// outside the link; otherwise absorbed into the addressed text run.
pub open spec fn text_insert_shape(
    s: Seq<DomNode>,
    res: Seq<DomNode>,
    off: int,
    ins: Seq<char>,
) -> bool {
    match resolve_nodes(s, off) {
        None => exists|nd: DomNode|
            {
                &&& nd is Text
                &&& #[trigger] node_text(nd) == ins
                &&& append_shape(s, res, nd)
            },
        Some((p, l)) => {
            let leaf = node_at(s, p);
            let par = p.subrange(0, p.len() - 1);
            let in_link = p.len() >= 2 && container_kind(node_at(s, par)) is Link;
            if leaf is Text {
                if in_link && l == 0 && p[p.len() - 1] == 0 {
                    exists|nd: DomNode|
                        {
                            &&& nd is Text
                            &&& #[trigger] node_text(nd) == ins
                            &&& splice_shape(s, res, par, SpliceDesc::Before(nd))
                        }
                } else if in_link && l == node_len(leaf) && p[p.len() - 1] as int + 1
                    == children_of(node_at(s, par)).len() {
                    exists|nd: DomNode|
                        {
                            &&& nd is Text
                            &&& #[trigger] node_text(nd) == ins
                            &&& splice_shape(s, res, par, SpliceDesc::After(nd))
                        }
                } else {
                    splice_shape(s, res, p, SpliceDesc::Chars { local: l, ins })
                }
            } else {
                if l == 0 {
                    exists|nd: DomNode|
                        {
                            &&& nd is Text
                            &&& #[trigger] node_text(nd) == ins
                            &&& splice_shape(s, res, p, SpliceDesc::Before(nd))
                        }
                } else {
                    exists|nd: DomNode|
                        {
                            &&& nd is Text
                            &&& #[trigger] node_text(nd) == ins
                            &&& splice_shape(s, res, p, SpliceDesc::After(nd))
                        }
                }
            }
        },
    }
}

/// Places text characters at an absolute offset: a text run at or around the
/// offset absorbs them; beside an atomic leaf a new text run becomes its
/// sibling; at the outer boundary of a link the new run lands outside the
/// link; in a document without text a new run is appended at the innermost
/// trailing container.
fn insert_text_at(nodes: Vec<DomNode>, off: usize, chars: Vec<char>) -> (res: Vec<DomNode>)
    requires
        nodes_wf(nodes@),
        nodes_text(nodes@).len() + chars@.len() <= usize::MAX,
        off as nat <= nodes_text(nodes@).len(),
        cur_ok_nodes(nodes@, off as int),
        chars@.len() > 0,
    ensures
        ({
            let t = nodes_text(nodes@);
            &&& nodes_text(res@) == t.subrange(0, off as int) + chars@ + t.subrange(
                off as int,
                t.len() as int,
            )
            &&& nodes_wf(res@)
            &&& cur_ok_nodes(res@, off as int + chars@.len())
            &&& text_insert_shape(nodes@, res@, off as int, chars@)
        }),
{
    let ghost orig = nodes@;
    let ghost t = nodes_text(orig);
    let ghost gchars = chars@;
    proof {
        assert(orig.len() == nodes.len());
        lemma_resolve_props(orig, off as int);
        lemma_resolve_not_atomic(orig, off as int);
    }
    match resolve_slice(nodes.as_slice(), off) {
        None => {
            let nd = DomNode::Text { chars };
            proof {
                assert(node_wf(nd));
                assert(t.subrange(0, off as int) =~= Seq::<char>::empty());
                assert(t.subrange(off as int, t.len() as int) =~= Seq::<char>::empty());
            }
            let res = append_at_end(nodes, nd);
            proof {
                assert(nodes_text(res@) =~= t.subrange(0, off as int) + chars@ + t.subrange(
                    off as int,
                    t.len() as int,
                ));
            }
            res
        },
        Some((path, local)) => {
            let ghost p = path@;
            proof {
                assert(resolve_nodes(orig, off as int) == Some((p, local as int)));
                assert(path_valid(orig, p));
                lemma_path_offset_bound(orig, p);
                assert(p.subrange(0, p.len() as int) =~= p);
            }
            let leaf_ref = node_ref_at(&nodes, &path, 0);
            let ghost leaf = node_at(orig, p);
            let leaf_len = text_len_node(leaf_ref);
            match leaf_ref {
                DomNode::Text { .. } => {
                    let last_idx = path[path.len() - 1];
                    let mut go_before = false;
                    let mut go_after = false;
                    if path.len() >= 2 {
                        proof {
                            lemma_path_offset_parent(orig, p);
                            assert(path@.subrange(0, path@.len() - 1) =~= p.subrange(
                                0,
                                p.len() - 1,
                            ));
                        }
                        let parent_ref = node_ref_upto(&nodes, &path, 0, path.len() - 1);
                        match parent_ref {
                            DomNode::Container { kind: ContainerKind::Link { .. }, children } => {
                                proof {
                                    assert(children_of(node_at(orig, p.subrange(0, p.len() - 1)))
                                        == children@);
                                    assert((last_idx as int) == p[p.len() - 1]);
                                    assert((last_idx as int) < children@.len());
                                    assert(children@.len() == children.len());
                                }
                                if local == 0 && last_idx == 0 {
                                    go_before = true;
                                } else if local == leaf_len && last_idx + 1 == children.len() {
                                    go_after = true;
                                }
                            },
                            _ => {},
                        }
                    }
                    if go_before || go_after {
                        let ghost par = p.subrange(0, p.len() - 1);
                        let ghost parent = node_at(orig, par);
                        let ghost cks = children_of(parent);
                        let mut ppath = path;
                        ppath.truncate(ppath.len() - 1);
                        proof {
                            assert(ppath@ =~= par);
                            assert(ppath@.subrange(0, ppath@.len() as int) =~= par);
                            if go_before {
                                assert(cks.subrange(0, 0) =~= Seq::<DomNode>::empty());
                                assert(path_offset(orig, par) == off);
                            } else {
                                lemma_nodes_text_split(cks, last_idx as int);
                                assert(cks.subrange(last_idx as int, cks.len() as int) =~= seq![
                                    cks[last_idx as int],
                                ]);
                                lemma_nodes_text_singleton(cks[last_idx as int]);
                                assert(node_len(parent) == nodes_text(cks).len());
                                assert(path_offset(orig, par) + node_len(parent) == off);
                            }
                        }
                        let nd = DomNode::Text { chars };
                        proof {
                            assert(node_wf(nd));
                        }
                        if go_before {
                            apply_splice(nodes, &ppath, 0, SpliceOp::InsertBefore(nd))
                        } else {
                            apply_splice(nodes, &ppath, 0, SpliceOp::InsertAfter(nd))
                        }
                    } else {
                        proof {
                            assert(local as int + path_offset(orig, p) == off);
                        }
                        apply_splice(nodes, &path, 0, SpliceOp::InsertChars { local, ins: chars })
                    }
                },
                _ => {
                    let nd = DomNode::Text { chars };
                    proof {
                        assert(node_wf(nd));
                    }
                    if local == 0 {
                        let res = apply_splice(nodes, &path, 0, SpliceOp::InsertBefore(nd));
                        proof {
                            assert(path_offset(orig, p) + 0 == off);
                        }
                        res
                    } else {
                        proof {
                            assert(crate::dom::spec_is_atomic(leaf) || leaf is Text);
                            assert(!(leaf is Text));
                            assert(local == leaf_len);
                        }
                        let res = apply_splice(nodes, &path, 0, SpliceOp::InsertAfter(nd));
                        proof {
                            assert(path_offset(orig, p) + node_len(leaf) == off);
                        }
                        res
                    }
                },
            }
        },
    }
}

/// A shared reference to the node addressed by the handle prefix
/// `path[depth..upto]`.
fn node_ref_upto<'a>(nodes: &'a Vec<DomNode>, path: &Vec<usize>, depth: usize, upto: usize) -> (r:
    &'a DomNode)
    requires
        depth < upto,
        upto <= path@.len(),
        path_valid(nodes@, path@.subrange(depth as int, upto as int)),
    ensures
        *r == node_at(nodes@, path@.subrange(depth as int, upto as int)),
    decreases upto - depth,
{
    let ghost p = path@.subrange(depth as int, upto as int);
    proof {
        assert(p[0] == path@[depth as int]);
    }
    let i = path[depth];
    if depth == upto - 1 {
        proof {
            assert(p.len() == 1);
            assert(node_at(nodes@, p) == nodes@[p[0] as int]);
        }
        &nodes[i]
    } else {
        proof {
            assert(p.subrange(1, p.len() as int) =~= path@.subrange(
                depth as int + 1,
                upto as int,
            ));
            assert(node_at(nodes@, p) == node_at(
                children_of(nodes@[i as int]),
                p.subrange(1, p.len() as int),
            ));
        }
        match &nodes[i] {
            DomNode::Container { children, .. } => {
                proof {
                    assert(children_of(nodes@[i as int]) == children@);
                }
                node_ref_upto(children, path, depth + 1, upto)
            },
            other => {
                proof {
                    assert(false);
                }
                other
            },
        }
    }
}

/// Collects the characters of a string slice.
fn chars_of(s: &str) -> (r: Vec<char>)
    ensures
        r@ == s@,
{
    let n = s.unicode_len();
    let mut v: Vec<char> = Vec::new();
    let mut i: usize = 0;
    while i < n
        invariant
            i <= n,
            n == s@.len(),
            v@ == s@.subrange(0, i as int),
        decreases n - i,
    {
        let c = s.get_char(i);
        v.push(c);
        proof {
            assert(v@ =~= s@.subrange(0, i as int + 1));
        }
        i = i + 1;
    }
    proof {
        assert(s@.subrange(0, n as int) =~= s@);
    }
    v
}

/// Copies a character vector.
fn copy_chars(v: &Vec<char>) -> (r: Vec<char>)
    ensures
        r@ == v@,
{
    let mut out: Vec<char> = Vec::new();
    let mut i: usize = 0;
    while i < v.len()
        invariant
            i <= v@.len(),
            out@ == v@.subrange(0, i as int),
        decreases v@.len() - i,
    {
        out.push(v[i]);
        proof {
            assert(out@ =~= v@.subrange(0, i as int + 1));
        }
        i = i + 1;
    }
    proof {
        assert(v@.subrange(0, v@.len() as int) =~= v@);
    }
    out
}

/// The flattened text of one node, as characters.
fn collect_node_text(n: &DomNode) -> (r: Vec<char>)
    ensures
        r@ == node_text(*n),
    decreases *n,
{
    match n {
        DomNode::Text { chars } => copy_chars(chars),
        DomNode::LineBreak => {
            let mut v: Vec<char> = Vec::new();
            v.push('\n');
            proof {
                assert(v@ =~= seq!['\n']);
            }
            v
        },
        DomNode::Mention { label, .. } => copy_chars(label),
        DomNode::Container { children, .. } => {
            proof {
                assert(node_text(*n) == nodes_text(children@));
            }
            collect_slice_text(children.as_slice())
        },
    }
}

/// The flattened text of a sibling list, as characters.
fn collect_slice_text(s: &[DomNode]) -> (r: Vec<char>)
    ensures
        r@ == nodes_text(s@),
    decreases s@,
{
    let mut out: Vec<char> = Vec::new();
    let mut i: usize = 0;
    while i < s.len()
        invariant
            i <= s@.len(),
            out@ == nodes_text(s@.subrange(0, i as int)),
        decreases s@.len() - i,
    {
        proof {
            assert(s@.subrange(0, i as int + 1) =~= s@.subrange(0, i as int) + seq![s@[i as int]]);
            crate::dom::lemma_nodes_text_append(s@.subrange(0, i as int), seq![s@[i as int]]);
            lemma_nodes_text_singleton(s@[i as int]);
        }
        let mut part = collect_node_text(vstd::slice::slice_index_get(s, i));
        out.append(&mut part);
        i = i + 1;
    }
    proof {
        assert(s@.subrange(0, s@.len() as int) =~= s@);
    }
    out
}

impl ComposerModel {
    /// The flattened document text, as characters.
    pub fn plain_text(&self) -> (r: Vec<char>)
        ensures
            r@ == self.text(),
    {
        collect_slice_text(self.children.as_slice())
    }

    /// Records the current state (flattened text plus selection) for the
    /// history collaborator, one checkpoint per logical user action.
    fn push_state_to_history(&mut self)
        ensures
            final(self).children == old(self).children,
            final(self).start == old(self).start,
            final(self).end == old(self).end,
            final(self).history@.len() == old(self).history@.len() + 1,
            final(self).history@.subrange(0, old(self).history@.len() as int) == old(
                self,
            ).history@,
            final(self).history@.last().text@ == old(self).text(),
            final(self).history@.last().start == old(self).start,
            final(self).history@.last().end == old(self).end,
    {
        let text = collect_slice_text(self.children.as_slice());
        let start = self.start;
        let end = self.end;
        self.history.push(DocState { text, start, end });
        proof {
            assert(self.history@.subrange(0, old(self).history@.len() as int) =~= old(
                self,
            ).history@);
        }
    }

    /// Replaces the characters in `[start, end)` of the flattened document
    /// with the given ones, collapsing the cursor to just after them.
    fn do_replace_text_in(&mut self, new_text: Vec<char>, start: usize, end: usize)
        requires
            old(self).inv(),
            start <= end,
            end as nat <= old(self).text().len(),
            cur_ok_nodes(old(self).children@, start as int),
            cur_ok_nodes(old(self).children@, end as int),
            old(self).text().len() - (end - start) + new_text@.len() <= usize::MAX,
        ensures
            final(self).inv(),
            ({
                let t = old(self).text();
                final(self).text() == t.subrange(0, start as int) + new_text@ + t.subrange(
                    end as int,
                    t.len() as int,
                )
            }),
            final(self).start == start + new_text@.len(),
            final(self).end == final(self).start,
            final(self).history == old(self).history,
            exists|mid: Seq<DomNode>|
                #![trigger nodes_text(mid)]
                {
                    &&& delete_shape(old(self).children@, mid, start as int, end as int)
                    &&& if new_text@.len() > 0 {
                        text_insert_shape(mid, final(self).children@, start as int, new_text@)
                    } else {
                        final(self).children@ == mid
                    }
                },
    {
        let ghost orig = self.children@;
        let ghost t = nodes_text(orig);
        let n = new_text.len();
        let mut ch: Vec<DomNode> = Vec::new();
        core::mem::swap(&mut ch, &mut self.children);
        let ch2 = delete_range(ch, start, end);
        let ghost midv = ch2@;
        let ghost mid = nodes_text(ch2@);
        let ch3 = if new_text.len() > 0 {
            proof {
                assert(mid.len() == t.len() - (end - start));
            }
            let ghost ins = new_text@;
            let ch3 = insert_text_at(ch2, start, new_text);
            proof {
                assert(mid.subrange(0, start as int) =~= t.subrange(0, start as int));
                assert(mid.subrange(start as int, mid.len() as int) =~= t.subrange(
                    end as int,
                    t.len() as int,
                ));
            }
            ch3
        } else {
            proof {
                assert(mid =~= t.subrange(0, start as int) + new_text@ + t.subrange(
                    end as int,
                    t.len() as int,
                ));
            }
            ch2
        };
        self.children = ch3;
        self.start = start + n;
        self.end = self.start;
        proof {
            assert(delete_shape(orig, midv, start as int, end as int));
            assert(nodes_text(midv) == mid);
        }
    }

    /// Replaces the current selection with the given text: typed input.  The
    /// returned update carries a suggestion pattern when the text just before
    /// the cursor forms an "@"-trigger.
    pub fn replace_text(&mut self, new_text: String) -> (r: ComposerUpdate)
        requires
            old(self).inv(),
            old(self).text().len() + new_text@.len() <= usize::MAX,
        ensures
            final(self).inv(),
            ({
                let t = old(self).text();
                let s = if old(self).start <= old(self).end {
                    old(self).start
                } else {
                    old(self).end
                };
                let e = if old(self).start <= old(self).end {
                    old(self).end
                } else {
                    old(self).start
                };
                &&& final(self).text() == t.subrange(0, s as int) + new_text@ + t.subrange(
                    e as int,
                    t.len() as int,
                )
                &&& final(self).start == s + new_text@.len()
                &&& final(self).end == final(self).start
            }),
            r.text_update is ReplaceAll,
            r.text_update->ReplaceAll_replacement_text@ == final(self).text(),
            r.text_update->ReplaceAll_start == final(self).start,
            r.text_update->ReplaceAll_end == final(self).end,
            r.menu_action is Suggestion ==> ({
                let sp = r.menu_action->Suggestion_0;
                &&& sp.start < sp.end
                &&& sp.end == final(self).start
                &&& sp.end as nat <= final(self).text().len()
                &&& cur_ok_nodes(final(self).children@, sp.start as int)
                &&& cur_ok_nodes(final(self).children@, sp.end as int)
                &&& final(self).text()[sp.start as int] == '@'
            }),
    {
        let sel = self.safe_selection();
        let chars = chars_of(new_text.as_str());
        self.do_replace_text_in(chars, sel.0, sel.1);
        let menu_action = match self.find_suggestion() {
            Some(sp) => MenuAction::Suggestion(sp),
            None => MenuAction::Keep,
        };
        let replacement_text = collect_slice_text(self.children.as_slice());
        let text_update = TextUpdate::ReplaceAll { replacement_text, start: self.start, end: self.end };
        ComposerUpdate { text_update, menu_action }
    }

    /// Looks for an "@"-trigger immediately before a collapsed cursor: a run
    /// of non-whitespace characters inside one text run, led by an '@' that
    /// stands at the run's start or after whitespace.  No suggestion is
    /// offered inside links or code blocks.
    fn find_suggestion(&self) -> (r: Option<SuggestionPattern>)
        requires
            self.inv(),
        ensures
            r is Some ==> ({
                let sp = r->Some_0;
                &&& sp.start < sp.end
                &&& sp.end == self.start
                &&& sp.end as nat <= self.text().len()
                &&& cur_ok_nodes(self.children@, sp.start as int)
                &&& self.text()[sp.start as int] == '@'
            }),
    {
        if self.start != self.end {
            return None;
        }
        let s = self.start;
        proof {
            assert(self.children@.len() == self.children.len());
            lemma_resolve_props(self.children@, s as int);
        }
        match resolve_slice(self.children.as_slice(), s) {
            None => None,
            Some((path, local)) => {
                let ghost p = path@;
                proof {
                    assert(resolve_nodes(self.children@, s as int) == Some((p, local as int)));
                    assert(path_valid(self.children@, p));
                    lemma_path_offset_bound(self.children@, p);
                    assert(p.subrange(0, p.len() as int) =~= p);
                }
                let mut d: usize = 1;
                while d < path.len()
                    invariant
                        1 <= d,
                        path@ == p,
                        path_valid(self.children@, p),
                        d <= p.len(),
                    decreases p.len() - d,
                {
                    proof {
                        lemma_path_prefix_valid(self.children@, p, d as int);
                        assert(path@.subrange(0, d as int) =~= p.subrange(0, d as int));
                    }
                    let anc = node_ref_upto(&self.children, &path, 0, d);
                    match anc {
                        DomNode::Container { kind: ContainerKind::Link { .. }, .. } => {
                            return None;
                        },
                        DomNode::Container { kind: ContainerKind::CodeBlock, .. } => {
                            return None;
                        },
                        _ => {},
                    }
                    d = d + 1;
                }
                let leaf_ref = node_ref_at(&self.children, &path, 0);
                match leaf_ref {
                    DomNode::Text { chars } => {
                        proof {
                            assert(local as nat <= chars@.len());
                            assert((local as int) <= s as int);
                        }
                        let mut k = local;
                        while k > 0
                            invariant
                                k <= local,
                                local as nat <= chars@.len(),
                                (local as int) <= s as int,
                                s == self.start,
                                self.inv(),
                                path_valid(self.children@, p),
                                node_at(self.children@, p) is Text,
                                node_text(node_at(self.children@, p)) == chars@,
                                path_offset(self.children@, p) + local == s,
                                0 <= path_offset(self.children@, p),
                            decreases k,
                        {
                            let c = chars[k - 1];
                            if c == '@' {
                                if k == 1 || is_ws(chars[k - 2]) {
                                    let pstart = s - (local - (k - 1));
                                    proof {
                                        let off = path_offset(self.children@, p);
                                        assert(pstart as int == off + (k - 1));
                                        crate::laws::lemma_text_window_cur_ok(
                                            self.children@,
                                            p,
                                            pstart as int,
                                        );
                                        crate::laws::lemma_leaf_text_window(self.children@, p);
                                        lemma_path_offset_bound(self.children@, p);
                                        assert(self.text()[pstart as int] == chars@[k - 1]);
                                    }
                                    return Some(SuggestionPattern { start: pstart, end: s });
                                } else {
                                    return None;
                                }
                            }
                            if is_ws(c) {
                                return None;
                            }
                            k = k - 1;
                        }
                        None
                    },
                    _ => None,
                }
            },
        }
    }

    /// Builds an atomic mention leaf from the given url, display text and
    /// attributes, records a history checkpoint, and inserts the leaf at the
    /// cursor.
    fn set_mention_with_text(
        &mut self,
        url: String,
        text: String,
        attributes: Vec<(String, String)>,
    ) -> (r: ComposerUpdate)
        requires
            old(self).inv(),
            text@.len() > 0,
            old(self).text().len() + text@.len() + 1 <= usize::MAX,
        ensures
            final(self).inv(),
            old(self).start == old(self).end ==> ({
                let s = old(self).start as int;
                let t = old(self).text();
                let trailing = needs_trailing(old(self).children@, s);
                &&& r.text_update is ReplaceAll
                &&& r.text_update->ReplaceAll_replacement_text@ == final(self).text()
                &&& r.text_update->ReplaceAll_start == final(self).start
                &&& r.text_update->ReplaceAll_end == final(self).end
                &&& final(self).text() == t.subrange(0, s) + text@ + (if trailing {
                    seq![' ']
                } else {
                    Seq::<char>::empty()
                }) + t.subrange(s, t.len() as int)
                &&& final(self).end == final(self).start
                &&& final(self).start as int == s + text@.len() + (if trailing {
                    1int
                } else {
                    0int
                })
            }),
            old(self).start != old(self).end ==> final(self).children == old(self).children
                && final(self).start == old(self).start && final(self).end == old(self).end,
            old(self).start == old(self).end ==> exists|nd: DomNode|
                #![trigger mention_label(nd)]
                {
                    &&& nd is Mention
                    &&& mention_url(nd) == url@
                    &&& mention_label(nd) == text@
                    &&& mention_attrs(nd) == attributes@.map(
                        |i: int, kv: (String, String)| (kv.0@, kv.1@),
                    )
                    &&& node_insert_shape(
                        old(self).children@,
                        final(self).children@,
                        old(self).start as int,
                        nd,
                    )
                },
            final(self).history@.len() == old(self).history@.len() + 1,
            final(self).history@.subrange(0, old(self).history@.len() as int) == old(
                self,
            ).history@,
            final(self).history@.last().text@ == old(self).text(),
            final(self).history@.last().start == old(self).start,
            final(self).history@.last().end == old(self).end,
    {
        self.push_state_to_history();
        let url_chars = chars_of(url.as_str());
        let label = chars_of(text.as_str());
        let attrs = convert_attrs(attributes);
        let ghost gattrs = attrs@;
        let node = DomNode::new_mention(url_chars, label, attrs);
        let ghost gn = node;
        proof {
            assert(node_wf(node));
            assert(node_len(node) == text@.len());
            assert(gn is Mention);
            assert(mention_url(gn) == url@);
            assert(mention_label(gn) == text@);
            assert(mention_attrs(gn) =~= attributes@.map(
                |i: int, kv: (String, String)| (kv.0@, kv.1@),
            )) by {
                let lhs = gattrs.map(|i: int, kv: (Vec<char>, Vec<char>)| (kv.0@, kv.1@));
                let rhs = attributes@.map(|i: int, kv: (String, String)| (kv.0@, kv.1@));
                assert(lhs.len() == rhs.len());
                assert forall|i: int| 0 <= i < lhs.len() implies lhs[i] == rhs[i] by {
                    assert(lhs[i] == (gattrs[i].0@, gattrs[i].1@));
                    assert(rhs[i] == (attributes@[i].0@, attributes@[i].1@));
                }
            }
        }
        let r = self.insert_node_at_cursor(node);
        proof {
            if old(self).start == old(self).end {
                assert(node_insert_shape(
                    old(self).children@,
                    self.children@,
                    old(self).start as int,
                    gn,
                ));
            }
        }
        r
    }

    /// Completes a detected "@"-trigger with a mention: records a history
    /// checkpoint, deletes the trigger text, collapses the cursor to the
    /// trigger's start, and inserts a mention built from the given url,
    /// display text and attributes.  The contract pins the whole outcome:
    /// the new text is the old text with the trigger span replaced by the
    /// label plus a separator space exactly when the deletion's result calls
    /// for one, and the tree is the deletion's shape with that very mention
    /// node spliced in at the cursor, everything else untouched.
    pub fn set_mention_from_suggestion(
        &mut self,
        url: String,
        text: String,
        suggestion: SuggestionPattern,
        attributes: Vec<(String, String)>,
    ) -> (r: ComposerUpdate)
        requires
            old(self).inv(),
            suggestion.start <= suggestion.end,
            suggestion.end as nat <= old(self).text().len(),
            cur_ok_nodes(old(self).children@, suggestion.start as int),
            cur_ok_nodes(old(self).children@, suggestion.end as int),
            text@.len() > 0,
            old(self).text().len() + text@.len() + 1 <= usize::MAX,
        ensures
            final(self).inv(),
            final(self).end == final(self).start,
            suggestion.start + text@.len() <= final(self).start <= suggestion.start + text@.len()
                + 1,
            ({
                let t = old(self).text();
                let trailing = final(self).start == suggestion.start + text@.len() + 1;
                final(self).text() == t.subrange(0, suggestion.start as int) + text@ + (if trailing {
                    seq![' ']
                } else {
                    Seq::<char>::empty()
                }) + t.subrange(suggestion.end as int, t.len() as int)
            }),
            r.text_update is ReplaceAll,
            r.text_update->ReplaceAll_replacement_text@ == final(self).text(),
            r.text_update->ReplaceAll_start == final(self).start,
            r.text_update->ReplaceAll_end == final(self).end,
            ({
                let t = old(self).text();
                let h0 = old(self).history@;
                &&& final(self).history@.len() == h0.len() + 1
                &&& final(self).history@.subrange(0, h0.len() as int) == h0
                &&& final(self).history@.last().text@ == t.subrange(0, suggestion.start as int)
                    + t.subrange(suggestion.end as int, t.len() as int)
                &&& final(self).history@.last().start == suggestion.start
                &&& final(self).history@.last().end == suggestion.start
            }),
            exists|mid: Seq<DomNode>, nd: DomNode|
                #![trigger nodes_text(mid), mention_label(nd)]
                {
                    &&& delete_shape(
                        old(self).children@,
                        mid,
                        suggestion.start as int,
                        suggestion.end as int,
                    )
                    &&& (final(self).start == suggestion.start + text@.len() + 1)
                        == needs_trailing(mid, suggestion.start as int)
                    &&& nd is Mention
                    &&& mention_url(nd) == url@
                    &&& mention_label(nd) == text@
                    &&& mention_attrs(nd) == attributes@.map(
                        |i: int, kv: (String, String)| (kv.0@, kv.1@),
                    )
                    &&& node_insert_shape(mid, final(self).children@, suggestion.start as int, nd)
                },
    {
        let ghost t0 = self.text();
        let empty: Vec<char> = Vec::new();
        self.do_replace_text_in(empty, suggestion.start, suggestion.end);
        let ghost midv = self.children@;
        let ghost mid = self.text();
        proof {
            assert(nodes_text(midv) == mid);
            assert(delete_shape(
                old(self).children@,
                midv,
                suggestion.start as int,
                suggestion.end as int,
            ));
        }
        let r = self.set_mention_with_text(url, text, attributes);
        proof {
            assert(mid.subrange(0, suggestion.start as int) =~= t0.subrange(
                0,
                suggestion.start as int,
            ));
            assert(mid.subrange(suggestion.start as int, mid.len() as int) =~= t0.subrange(
                suggestion.end as int,
                t0.len() as int,
            ));
            let ndw = choose|nd: DomNode|
                #![trigger mention_label(nd)]
                {
                    &&& nd is Mention
                    &&& mention_url(nd) == url@
                    &&& mention_label(nd) == text@
                    &&& mention_attrs(nd) == attributes@.map(
                        |i: int, kv: (String, String)| (kv.0@, kv.1@),
                    )
                    &&& node_insert_shape(midv, self.children@, suggestion.start as int, nd)
                };
            assert(mention_label(ndw) == text@);
        }
        r
    }
}

/// Whitespace for the purposes of trigger detection.
fn is_ws(c: char) -> (r: bool)
    ensures
        r == (c == ' ' || c == '\t' || c == '\n'),
{
    c == ' ' || c == '\t' || c == '\n'
}

/// Converts attribute pairs to character vectors.
fn convert_attrs(attributes: Vec<(String, String)>) -> (r: Vec<(Vec<char>, Vec<char>)>)
    ensures
        r@.len() == attributes@.len(),
        forall|i: int|
            0 <= i < attributes@.len() ==> (#[trigger] r@[i]).0@ == attributes@[i].0@
                && r@[i].1@ == attributes@[i].1@,
{
    let mut out: Vec<(Vec<char>, Vec<char>)> = Vec::new();
    let mut i: usize = 0;
    while i < attributes.len()
        invariant
            i <= attributes@.len(),
            out@.len() == i,
            forall|j: int|
                0 <= j < i ==> (#[trigger] out@[j]).0@ == attributes@[j].0@ && out@[j].1@
                    == attributes@[j].1@,
        decreases attributes@.len() - i,
    {
        let key = chars_of(attributes[i].0.as_str());
        let value = chars_of(attributes[i].1.as_str());
        out.push((key, value));
        i = i + 1;
    }
    out
}

} // verus!
