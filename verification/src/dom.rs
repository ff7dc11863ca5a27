//! The document tree: node kinds, their flattened text, and well-formedness.

use vstd::prelude::*;

verus! {

/// The structural container kinds.  A `Link` is a container whose content the
/// cursor may enter, but it acts as one atomic unit at its outer boundaries.
pub enum ContainerKind {
    Paragraph,
    OrderedList,
    UnorderedList,
    ListItem,
    Quote,
    CodeBlock,
    Formatting { tag: Vec<char> },
    Link { url: Vec<char> },
}

/// A node of the document tree.
///
/// Leaves contribute characters to the flattened document: a text run its
/// characters, a line break one (newline) position, a mention as many
/// positions as its label has characters.  A container contributes exactly
/// the characters of its children.
pub enum DomNode {
    Text { chars: Vec<char> },
    LineBreak,
    Mention { url: Vec<char>, label: Vec<char>, attrs: Vec<(Vec<char>, Vec<char>)> },
    Container { kind: ContainerKind, children: Vec<DomNode> },
}

/// The flattened text a single node contributes to the document.
pub open spec fn node_text(n: DomNode) -> Seq<char>
    decreases n,
{
    match n {
        DomNode::Text { chars } => chars@,
        DomNode::LineBreak => seq!['\n'],
        DomNode::Mention { label, .. } => label@,
        DomNode::Container { children, .. } => nodes_text(children@),
    }
}

/// The flattened text of a sibling list, in tree order.
pub open spec fn nodes_text(s: Seq<DomNode>) -> Seq<char>
    decreases s,
{
    if s.len() == 0 {
        Seq::empty()
    } else {
        node_text(s[0]) + nodes_text(s.subrange(1, s.len() as int))
    }
}

/// Character length of one node.
pub open spec fn node_len(n: DomNode) -> nat {
    node_text(n).len()
}

/// A leaf is any node without children of its own.
pub open spec fn spec_is_leaf(n: DomNode) -> bool {
    !(n is Container)
}

/// Atomic leaves cannot be divided by the cursor: it may only sit at their
/// two boundary offsets.
pub open spec fn spec_is_atomic(n: DomNode) -> bool {
    n is LineBreak || n is Mention
}

/// Well-formedness of one node: no empty text runs and no empty mention
/// labels anywhere in the subtree, so that every leaf occupies at least one
/// character position and boundary offsets are distinct.
pub open spec fn node_wf(n: DomNode) -> bool
    decreases n,
{
    match n {
        DomNode::Text { chars } => chars@.len() > 0,
        DomNode::LineBreak => true,
        DomNode::Mention { label, .. } => label@.len() > 0,
        DomNode::Container { children, .. } => nodes_wf(children@),
    }
}

/// Well-formedness of a sibling list.
pub open spec fn nodes_wf(s: Seq<DomNode>) -> bool
    decreases s,
{
    forall|i: int| 0 <= i < s.len() ==> node_wf(#[trigger] s[i])
}

/// The children of a container; the empty sequence for a leaf.
pub open spec fn children_of(n: DomNode) -> Seq<DomNode> {
    match n {
        DomNode::Container { children, .. } => children@,
        _ => Seq::empty(),
    }
}

/// The kind of a container node; a leaf maps to a paragraph, on which no
/// contract relies.
pub open spec fn container_kind(n: DomNode) -> ContainerKind {
    match n {
        DomNode::Container { kind, .. } => kind,
        _ => ContainerKind::Paragraph,
    }
}

/// The url a mention carries; empty for any other node.
pub open spec fn mention_url(n: DomNode) -> Seq<char> {
    match n {
        DomNode::Mention { url, .. } => url@,
        _ => Seq::empty(),
    }
}

/// The display label a mention carries; empty for any other node.
pub open spec fn mention_label(n: DomNode) -> Seq<char> {
    match n {
        DomNode::Mention { label, .. } => label@,
        _ => Seq::empty(),
    }
}

/// The key/value attributes a mention carries, as character sequences.
pub open spec fn mention_attrs(n: DomNode) -> Seq<(Seq<char>, Seq<char>)> {
    match n {
        DomNode::Mention { attrs, .. } => attrs@.map(
            |i: int, kv: (Vec<char>, Vec<char>)| (kv.0@, kv.1@),
        ),
        _ => Seq::empty(),
    }
}

/// Flattening distributes over concatenation of sibling lists.
pub proof fn lemma_nodes_text_append(a: Seq<DomNode>, b: Seq<DomNode>)
    ensures
        nodes_text(a + b) == nodes_text(a) + nodes_text(b),
    decreases a,
{
    if a.len() == 0 {
        assert(a + b =~= b);
        assert(nodes_text(a) + nodes_text(b) =~= nodes_text(b));
    } else {
        let a1 = a.subrange(1, a.len() as int);
        lemma_nodes_text_append(a1, b);
        assert((a + b).subrange(1, (a + b).len() as int) =~= a1 + b);
        assert((a + b)[0] == a[0]);
        assert(node_text(a[0]) + (nodes_text(a1) + nodes_text(b)) =~= (node_text(a[0])
            + nodes_text(a1)) + nodes_text(b));
    }
}

/// Flattening a one-node list yields that node's text.
pub proof fn lemma_nodes_text_singleton(n: DomNode)
    ensures
        nodes_text(seq![n]) == node_text(n),
{
    let s = seq![n];
    assert(s.len() == 1);
    assert(s[0] == n);
    assert(s.subrange(1, 1) =~= Seq::<DomNode>::empty());
    assert(nodes_text(s) == node_text(n) + nodes_text(Seq::<DomNode>::empty()));
    assert(node_text(n) + Seq::<char>::empty() =~= node_text(n));
}

/// A window of a well-formed sibling list is well-formed.
pub proof fn lemma_nodes_wf_subrange(s: Seq<DomNode>, a: int, b: int)
    requires
        nodes_wf(s),
        0 <= a <= b <= s.len(),
    ensures
        nodes_wf(s.subrange(a, b)),
{
    assert forall|i: int| 0 <= i < s.subrange(a, b).len() implies node_wf(
        #[trigger] s.subrange(a, b)[i],
    ) by {
        assert(s.subrange(a, b)[i] == s[i + a]);
    }
}

/// Splits the flattened text of a list at a sibling index.
pub proof fn lemma_nodes_text_split(s: Seq<DomNode>, i: int)
    requires
        0 <= i <= s.len(),
    ensures
        nodes_text(s) == nodes_text(s.subrange(0, i)) + nodes_text(
            s.subrange(i, s.len() as int),
        ),
{
    assert(s =~= s.subrange(0, i) + s.subrange(i, s.len() as int));
    lemma_nodes_text_append(s.subrange(0, i), s.subrange(i, s.len() as int));
}

impl DomNode {
    /// Builds a text run.
    pub fn new_text(chars: Vec<char>) -> (r: DomNode)
        ensures
            r == (DomNode::Text { chars }),
    {
        DomNode::Text { chars }
    }

    /// Builds a line break.
    pub fn new_line_break() -> (r: DomNode)
        ensures
            r == DomNode::LineBreak,
    {
        DomNode::LineBreak
    }

    /// Builds a mention leaf from a url, a display label and extra
    /// key/value attributes.
    pub fn new_mention(url: Vec<char>, label: Vec<char>, attrs: Vec<(Vec<char>, Vec<char>)>) -> (r:
        DomNode)
        ensures
            r == (DomNode::Mention { url, label, attrs }),
            node_text(r) == label@,
    {
        DomNode::Mention { url, label, attrs }
    }

    /// Builds a link container around existing content.
    pub fn new_link(url: Vec<char>, children: Vec<DomNode>) -> (r: DomNode)
        ensures
            r == (DomNode::Container { kind: ContainerKind::Link { url }, children }),
    {
        DomNode::Container { kind: ContainerKind::Link { url }, children }
    }

    /// Builds a structural container.
    pub fn new_container(kind: ContainerKind, children: Vec<DomNode>) -> (r: DomNode)
        ensures
            r == (DomNode::Container { kind, children }),
    {
        DomNode::Container { kind, children }
    }
}

} // verus!
