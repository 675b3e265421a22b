use vstd::prelude::*;

use crate::model::inline::{
    duplicate_inlines, inlines_text, inlines_view, line_plain_text, GraphInline, GraphInlines,
    InlineView,
};
use crate::model::node::{
    ColumnAlignment, NodeView, ReferenceType, ReferenceView, TableView,
};
use crate::model::tree::{link_ok, tree_wf, Links, TreeView};
use crate::model::{Key, LineId, NodeId};

pub mod basic_iter;
pub mod builder;
pub mod index;
pub mod sections_builder;

verus! {

/// What a graph node holds.
pub enum GraphNodeKind {
    Empty,
    Document(Key),
    Section(LineId),
    Quote,
    BulletList,
    TaskList,
    OrderedList,
    Leaf(LineId),
    Raw(Option<String>, String),
    HorizontalRule,
    Reference(Key, String, ReferenceType),
    Table(Vec<LineId>, Vec<ColumnAlignment>, Vec<Vec<LineId>>),
}

/// A node of the graph with its links.
pub struct GraphNode {
    pub kind: GraphNodeKind,
    pub prev_id: Option<NodeId>,
    pub next_id: Option<NodeId>,
    pub child_id: Option<NodeId>,
}

/// An arena of document trees: nodes indexed by id, and the lines that sections, leaves and
/// table cells refer to.
pub struct Graph {
    pub nodes: Vec<GraphNode>,
    pub lines: Vec<GraphInlines>,
}

pub open spec fn kind_lines_ok(kind: GraphNodeKind, n_lines: nat) -> bool {
    match kind {
        GraphNodeKind::Section(l) => l < n_lines,
        GraphNodeKind::Leaf(l) => l < n_lines,
        GraphNodeKind::Table(header, _, rows) => {
            &&& forall|j: int| 0 <= j < header@.len() ==> #[trigger] header@[j] < n_lines
            &&& forall|r: int, j: int|
                0 <= r < rows@.len() && 0 <= j < rows@[r]@.len() ==> #[trigger] rows@[r]@[j]
                    < n_lines
        },
        _ => true,
    }
}

/// The links of a node only point backwards through `prev` and forwards through `next` and
/// `child`, to nodes of the graph; the node after it and its first child point back to it,
/// and are not the same node; and its lines are lines of the graph.
pub open spec fn node_ok(nodes: Seq<GraphNode>, n_lines: nat, i: int) -> bool {
    &&& (nodes[i].prev_id matches Some(p) ==> p < i)
    &&& (nodes[i].next_id matches Some(n) ==> i < n < nodes.len() && nodes[n as int].prev_id
        == Some(i as NodeId))
    &&& (nodes[i].child_id matches Some(c) ==> i < c < nodes.len() && nodes[c as int].prev_id
        == Some(i as NodeId))
    &&& (nodes[i].next_id matches Some(n) ==> nodes[i].child_id != Some(n))
    &&& kind_lines_ok(nodes[i].kind, n_lines)
}

/// The parent of node `x`: walking back through `prev`, the first node whose child is the
/// node just walked from.
pub open spec fn parent_in(nodes: Seq<GraphNode>, x: int) -> Option<NodeId>
    decreases x,
{
    if 0 <= x < nodes.len() {
        match nodes[x].prev_id {
            Some(p) => if p < x {
                if nodes[p as int].child_id == Some(x as NodeId) {
                    Some(p)
                } else {
                    parent_in(nodes, p as int)
                }
            } else {
                None
            },
            None => None,
        }
    } else {
        None
    }
}

/// Whether node `a` is an ancestor of node `x`: its parent, or an ancestor of its parent.
pub open spec fn descends(nodes: Seq<GraphNode>, x: int, a: NodeId) -> bool
    decreases x,
{
    match parent_in(nodes, x) {
        Some(p) => p == a || (p < x && descends(nodes, p as int, a)),
        None => false,
    }
}

/// Whether a node is `a` or one of its descendants.
pub open spec fn within(nodes: Seq<GraphNode>, x: Option<NodeId>, a: NodeId) -> bool {
    x matches Some(y) && (y == a || descends(nodes, y as int, a))
}

/// The parent of a node in the graph is its parent in the graph's tree view, the one that
/// pointers walk.
pub proof fn lemma_parent_in_tree(g: Graph, x: int)
    requires
        0 <= x < g.nodes@.len(),
    ensures
        crate::model::tree::parent_of(g.tree(), Some(x as NodeId)) == parent_in(g.nodes@, x),
    decreases x,
{
    let t = g.tree();
    assert(g.nodes.len() == g.nodes@.len());
    assert((x as NodeId) as int == x);
    assert(crate::model::tree::has_node(t, Some(x as NodeId)));
    assert(t.links[x].prev == g.nodes@[x].prev_id);
    if let Some(p) = g.nodes@[x].prev_id {
        if p < x {
            assert(crate::model::tree::has_node(t, Some(p)));
            assert(t.links[p as int].child == g.nodes@[p as int].child_id);
            lemma_parent_in_tree(g, p as int);
        }
    }
}

/// A parent comes before its child.
pub proof fn lemma_parent_before(nodes: Seq<GraphNode>, x: int)
    ensures
        parent_in(nodes, x) matches Some(p) ==> p < x,
    decreases x,
{
    if 0 <= x < nodes.len() {
        if let Some(p) = nodes[x].prev_id {
            if p < x && nodes[p as int].child_id != Some(x as NodeId) {
                lemma_parent_before(nodes, p as int);
            }
        }
    }
}

/// A node whose parent is `a`, or lies under `a`, lies under `a`.
pub proof fn lemma_descends_via_parent(nodes: Seq<GraphNode>, x: int, a: NodeId)
    requires
        within(nodes, parent_in(nodes, x), a),
    ensures
        descends(nodes, x, a),
{
    lemma_parent_before(nodes, x);
}

/// Lying under a node that lies under `c` is lying under `c`.
pub proof fn lemma_descends_trans(nodes: Seq<GraphNode>, x: int, a: NodeId, c: NodeId)
    requires
        descends(nodes, x, a),
        within(nodes, Some(a), c),
    ensures
        descends(nodes, x, c),
    decreases x,
{
    lemma_parent_before(nodes, x);
    let p = parent_in(nodes, x).unwrap();
    if p != a {
        lemma_descends_trans(nodes, p as int, a, c);
    }
}

/// The node after a node has the same parent.
pub proof fn lemma_next_same_parent(nodes: Seq<GraphNode>, n_lines: nat, i: int)
    requires
        0 <= i < nodes.len(),
        node_ok(nodes, n_lines, i),
        nodes[i].next_id is Some,
    ensures
        parent_in(nodes, nodes[i].next_id.unwrap() as int) == parent_in(nodes, i),
{
}

/// Parents stay as they are when a node is added at the end and an earlier node gets it as
/// its next node or as its first child where it had none.
pub proof fn lemma_parent_stable(before: Seq<GraphNode>, after: Seq<GraphNode>, x: int)
    requires
        after.len() == before.len() + 1,
        forall|i: int| 0 <= i < before.len() ==> #[trigger] after[i].prev_id == before[i].prev_id,
        forall|i: int|
            0 <= i < before.len() ==> #[trigger] after[i].child_id == before[i].child_id || (
            before[i].child_id is None && (after[i].child_id matches Some(c) && c == before.len())),
        0 <= x < before.len(),
    ensures
        parent_in(after, x) == parent_in(before, x),
    decreases x,
{
    assert(after[x].prev_id == before[x].prev_id);
    if let Some(p) = before[x].prev_id {
        if p < x {
            assert(after[p as int].child_id == before[p as int].child_id || (
                before[p as int].child_id is None && (after[p as int].child_id matches Some(c)
                    && c == before.len())));
            lemma_parent_stable(before, after, p as int);
        }
    }
}

/// Which nodes lie under which stays as it is when parents stay as they are.
pub proof fn lemma_descends_stable(before: Seq<GraphNode>, after: Seq<GraphNode>, x: int, a: NodeId)
    requires
        forall|i: int| 0 <= i < before.len() ==> #[trigger] parent_in(after, i) == parent_in(before, i),
        0 <= x < before.len(),
    ensures
        descends(after, x, a) == descends(before, x, a),
    decreases x,
{
    lemma_parent_before(before, x);
    if let Some(p) = parent_in(before, x) {
        if p != a && p < x {
            lemma_descends_stable(before, after, p as int, a);
        }
    }
}

/// The index of the first document with a key.
pub open spec fn doc_index(nodes: Seq<GraphNode>, key: Seq<char>) -> Option<int>
    decreases nodes.len(),
{
    if nodes.len() == 0 {
        None
    } else {
        match doc_index(nodes.drop_last(), key) {
            Some(i) => Some(i),
            None => if nodes.last().kind matches GraphNodeKind::Document(k) && k@ == key {
                Some(nodes.len() - 1)
            } else {
                None
            },
        }
    }
}

/// What a reference node shows, whatever text it holds: a regular reference to a document of
/// the graph whose first child is a section shows the text of that section (the document's
/// title), and otherwise its own text; a wiki link shows nothing, and a piped wiki link its
/// own text. The node keeps its key and its kind of reference.
pub proof fn law_reference_shows_title(g: Graph, i: int)
    requires
        0 <= i < g.nodes@.len(),
        g.nodes@[i].kind is Reference,
    ensures
        ({
            let key = g.nodes@[i].kind->Reference_0@;
            let text = g.nodes@[i].kind->Reference_1@;
            let t = g.nodes@[i].kind->Reference_2;
            let title: Option<Seq<char>> = match doc_index(g.nodes@, key) {
                Some(d) => match g.nodes@[d].child_id {
                    Some(c) => match g.nodes@[c as int].kind {
                        GraphNodeKind::Section(l) => Some(inlines_text(line_at(g.lines@, l as int))),
                        _ => None,
                    },
                    None => None,
                },
                None => None,
            };
            g.node_view(i) matches Some(NodeView::Reference(r)) && r.key == key && r.reference_type
                == t && r.text == match t {
                ReferenceType::Regular => match title {
                    Some(x) => x,
                    None => text,
                },
                ReferenceType::WikiLink => Seq::<char>::empty(),
                ReferenceType::WikiLinkPiped => text,
            }
        }),
{
}

pub open spec fn line_at(lines: Seq<GraphInlines>, l: int) -> Seq<InlineView> {
    inlines_view(lines[l]@)
}

impl Graph {
    pub open spec fn wf(&self) -> bool {
        forall|i: int|
            0 <= i < self.nodes@.len() ==> #[trigger] node_ok(self.nodes@, self.lines@.len(), i)
    }

    pub open spec fn len(&self) -> nat {
        self.nodes@.len()
    }

    /// The title of a document: the text of its first child when that child is a section.
    pub open spec fn spec_ref_text(&self, key: Seq<char>) -> Option<Seq<char>> {
        match doc_index(self.nodes@, key) {
            Some(d) => match self.nodes@[d].child_id {
                Some(c) => match self.nodes@[c as int].kind {
                    GraphNodeKind::Section(l) => Some(
                        inlines_text(line_at(self.lines@, l as int)),
                    ),
                    _ => None,
                },
                None => None,
            },
            None => None,
        }
    }

    /// The text a reference node shows: the title of the referenced document for a regular
    /// reference when there is one, nothing for a wiki link, and its own text otherwise.
    pub open spec fn reference_text(&self, key: Seq<char>, text: Seq<char>, t: ReferenceType) -> Seq<
        char,
    > {
        match t {
            ReferenceType::Regular => match self.spec_ref_text(key) {
                Some(title) => title,
                None => text,
            },
            ReferenceType::WikiLink => Seq::empty(),
            ReferenceType::WikiLinkPiped => text,
        }
    }

    /// The node that a pointer at node `i` hands out.
    pub open spec fn node_view(&self, i: int) -> Option<NodeView> {
        match self.nodes@[i].kind {
            GraphNodeKind::Empty => None,
            GraphNodeKind::Document(key) => Some(NodeView::Document(key@)),
            GraphNodeKind::Section(l) => Some(NodeView::Section(line_at(self.lines@, l as int))),
            GraphNodeKind::Quote => Some(NodeView::Quote),
            GraphNodeKind::BulletList => Some(NodeView::BulletList),
            GraphNodeKind::TaskList => Some(NodeView::TaskList),
            GraphNodeKind::OrderedList => Some(NodeView::OrderedList),
            GraphNodeKind::Leaf(l) => Some(NodeView::Leaf(line_at(self.lines@, l as int))),
            GraphNodeKind::Raw(lang, content) => Some(
                NodeView::Raw(
                    match lang {
                        Some(s) => Some(s@),
                        None => None,
                    },
                    content@,
                ),
            ),
            GraphNodeKind::HorizontalRule => Some(NodeView::HorizontalRule),
            GraphNodeKind::Reference(key, text, t) => Some(
                NodeView::Reference(
                    ReferenceView {
                        key: key@,
                        text: self.reference_text(key@, text@, t),
                        reference_type: t,
                    },
                ),
            ),
            GraphNodeKind::Table(header, alignment, rows) => Some(
                NodeView::Table(
                    TableView {
                        header: header@.map_values(|l: LineId| line_at(self.lines@, l as int)),
                        alignment: alignment@,
                        rows: rows@.map_values(
                            |row: Vec<LineId>|
                                row@.map_values(|l: LineId| line_at(self.lines@, l as int)),
                        ),
                    },
                ),
            ),
        }
    }

    /// The graph as a linked tree of nodes.
    pub open spec fn tree(&self) -> TreeView {
        TreeView {
            links: Seq::new(
                self.nodes@.len(),
                |i: int|
                    Links {
                        prev: self.nodes@[i].prev_id,
                        next: self.nodes@[i].next_id,
                        child: self.nodes@[i].child_id,
                    },
            ),
            nodes: Seq::new(self.nodes@.len(), |i: int| self.node_view(i)),
        }
    }

    pub proof fn lemma_tree_wf(&self)
        requires
            self.wf(),
        ensures
            tree_wf(self.tree()),
    {
        assert forall|i: int| 0 <= i < self.tree().links.len() implies #[trigger] link_ok(
            self.tree(),
            i,
        ) by {
            assert(node_ok(self.nodes@, self.lines@.len(), i));
        }
    }

    /// An empty graph.
    pub fn new() -> (g: Graph)
        ensures
            g.wf(),
            g.nodes@.len() == 0,
            g.lines@.len() == 0,
    {
        Graph { nodes: Vec::new(), lines: Vec::new() }
    }

    /// The id of the first document with a key.
    pub fn get_node_id(&self, key: &Key) -> (r: Option<NodeId>)
        ensures
            match r {
                Some(i) => doc_index(self.nodes@, key@) == Some(i as int),
                None => doc_index(self.nodes@, key@) is None,
            },
    {
        let mut i: usize = 0;
        while i < self.nodes.len()
            invariant
                i <= self.nodes@.len(),
                doc_index(self.nodes@.take(i as int), key@) is None,
            decreases self.nodes@.len() - i,
        {
            assert(self.nodes@.take(i + 1).drop_last() == self.nodes@.take(i as int));
            match &self.nodes[i].kind {
                GraphNodeKind::Document(k) => {
                    if k.same(key) {
                        proof {
                            lemma_doc_index_prefix(self.nodes@, key@, i + 1);
                        }
                        return Some(i);
                    }
                },
                _ => {},
            }
            i = i + 1;
        }
        assert(self.nodes@.take(i as int) == self.nodes@);
        None
    }

    /// The title of the document with a key, when its first child is a section.
    pub fn get_ref_text(&self, key: &Key) -> (r: Option<String>)
        requires
            self.wf(),
        ensures
            match r {
                Some(s) => self.spec_ref_text(key@) == Some(s@),
                None => self.spec_ref_text(key@) is None,
            },
    {
        match self.get_node_id(key) {
            Some(d) => {
                proof {
                    lemma_doc_index_bound(self.nodes@, key@);
                    assert(node_ok(self.nodes@, self.lines@.len(), d as int));
                }
                match self.nodes[d].child_id {
                    Some(c) => {
                        assert(node_ok(self.nodes@, self.lines@.len(), c as int));
                        match &self.nodes[c].kind {
                            GraphNodeKind::Section(l) => Some(line_plain_text(&self.lines[*l])),
                            _ => None,
                        }
                    },
                    None => None,
                }
            },
            None => None,
        }
    }

    /// A copy of a stored line.
    pub fn get_line(&self, l: LineId) -> (r: GraphInlines)
        requires
            l < self.lines@.len(),
        ensures
            inlines_view(r@) == line_at(self.lines@, l as int),
    {
        duplicate_inlines(&self.lines[l])
    }
}

pub proof fn lemma_doc_index_bound(nodes: Seq<GraphNode>, key: Seq<char>)
    ensures
        doc_index(nodes, key) matches Some(i) ==> 0 <= i < nodes.len() && (nodes[i].kind matches GraphNodeKind::Document(
            k,
        ) && k@ == key),
    decreases nodes.len(),
{
    if nodes.len() > 0 {
        lemma_doc_index_bound(nodes.drop_last(), key);
        if let Some(i) = doc_index(nodes.drop_last(), key) {
            assert(nodes.drop_last()[i] == nodes[i]);
        }
    }
}

/// Once a document with the key is found in a prefix, longer prefixes find the same one.
pub proof fn lemma_doc_index_prefix(nodes: Seq<GraphNode>, key: Seq<char>, n: int)
    requires
        0 < n <= nodes.len(),
        doc_index(nodes.take(n - 1), key) is None,
        nodes[n - 1].kind matches GraphNodeKind::Document(k) && k@ == key,
    ensures
        doc_index(nodes, key) == Some(n - 1),
    decreases nodes.len() - n,
{
    if n == nodes.len() {
        assert(nodes.take(n - 1) == nodes.drop_last());
    } else {
        assert(nodes.drop_last().take(n - 1) == nodes.take(n - 1));
        assert(nodes.drop_last()[n - 1] == nodes[n - 1]);
        lemma_doc_index_prefix(nodes.drop_last(), key, n);
    }
}

} // verus!
