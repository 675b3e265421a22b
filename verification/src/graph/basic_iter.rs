use vstd::prelude::*;

use super::{doc_index, lemma_doc_index_bound, line_at, node_ok, Graph, GraphNodeKind};
use crate::model::inline::{inlines_view, lines_view, GraphInlines};
use crate::model::node::{
    duplicate_alignment, opt_node_view, Node, NodeIter, NodePointer, NodeView, Reference,
    ReferenceType, Table,
};
use crate::model::tree::{has_node, node_at, TreeView};
use crate::model::{Key, LineId, NodeId};

verus! {

/// A pointer at one node of a graph.
pub struct GraphNodePointer<'a> {
    id: NodeId,
    graph: &'a Graph,
}

impl<'a> GraphNodePointer<'a> {
    pub fn new(graph: &'a Graph, id: NodeId) -> (r: Self)
        requires
            graph.wf(),
            id < graph.len(),
        ensures
            r.valid(),
            r.spec_tree() == graph.tree(),
            r.spec_id() == Some(id),
    {
        GraphNodePointer { id, graph }
    }
}

/// The values of the lines that a list of line ids names.
pub open spec fn cells_view(lines: Seq<GraphInlines>, ids: Seq<LineId>) -> Seq<
    Seq<crate::model::inline::InlineView>,
> {
    ids.map_values(|l: LineId| line_at(lines, l as int))
}

/// Copies of the lines that a list of line ids names.
fn cells(graph: &Graph, ids: &Vec<LineId>) -> (r: Vec<GraphInlines>)
    requires
        forall|j: int| 0 <= j < ids@.len() ==> #[trigger] ids@[j] < graph.lines@.len(),
    ensures
        lines_view(r@) == cells_view(graph.lines@, ids@),
{
    let mut r: Vec<GraphInlines> = Vec::new();
    let mut i: usize = 0;
    while i < ids.len()
        invariant
            i <= ids@.len(),
            r@.len() == i,
            forall|j: int| 0 <= j < ids@.len() ==> #[trigger] ids@[j] < graph.lines@.len(),
            forall|j: int|
                0 <= j < i ==> inlines_view(#[trigger] r@[j]@) == line_at(
                    graph.lines@,
                    ids@[j] as int,
                ),
        decreases ids@.len() - i,
    {
        r.push(graph.get_line(ids[i]));
        i = i + 1;
    }
    assert(lines_view(r@) =~= cells_view(graph.lines@, ids@));
    r
}

impl<'a> NodeIter<'a> for GraphNodePointer<'a> {
    closed spec fn valid(&self) -> bool {
        self.graph.wf() && self.id < self.graph.len()
    }

    closed spec fn spec_node(&self) -> Option<NodeView> {
        self.graph.node_view(self.id as int)
    }

    closed spec fn spec_next(&self) -> Option<Self> {
        match self.graph.nodes@[self.id as int].next_id {
            Some(n) => Some(GraphNodePointer { id: n, graph: self.graph }),
            None => None,
        }
    }

    closed spec fn spec_child(&self) -> Option<Self> {
        match self.graph.nodes@[self.id as int].child_id {
            Some(c) => Some(GraphNodePointer { id: c, graph: self.graph }),
            None => None,
        }
    }

    fn next(&self) -> (r: Option<Self>) {
        assert(node_ok(self.graph.nodes@, self.graph.lines@.len(), self.id as int));
        match self.graph.nodes[self.id].next_id {
            Some(n) => Some(GraphNodePointer { graph: self.graph, id: n }),
            None => None,
        }
    }

    fn child(&self) -> (r: Option<Self>) {
        assert(node_ok(self.graph.nodes@, self.graph.lines@.len(), self.id as int));
        match self.graph.nodes[self.id].child_id {
            Some(c) => Some(GraphNodePointer { graph: self.graph, id: c }),
            None => None,
        }
    }

    fn node(&self) -> (r: Option<Node>) {
        let graph = self.graph;
        assert(node_ok(graph.nodes@, graph.lines@.len(), self.id as int));
        let r = match &graph.nodes[self.id].kind {
            GraphNodeKind::Empty => None,
            GraphNodeKind::Document(key) => Some(Node::Document(key.copy())),
            GraphNodeKind::Section(l) => Some(Node::Section(graph.get_line(*l))),
            GraphNodeKind::Quote => Some(Node::Quote()),
            GraphNodeKind::BulletList => Some(Node::BulletList()),
            GraphNodeKind::TaskList => Some(Node::TaskList()),
            GraphNodeKind::OrderedList => Some(Node::OrderedList()),
            GraphNodeKind::Leaf(l) => Some(Node::Leaf(graph.get_line(*l))),
            GraphNodeKind::Raw(lang, content) => {
                let lang_copy = match lang {
                    Some(s) => Some(s.clone()),
                    None => None,
                };
                Some(Node::Raw(lang_copy, content.clone()))
            },
            GraphNodeKind::HorizontalRule => Some(Node::HorizontalRule()),
            GraphNodeKind::Reference(key, text, t) => {
                let shown = match t {
                    ReferenceType::Regular => match graph.get_ref_text(key) {
                        Some(title) => title,
                        None => text.clone(),
                    },
                    ReferenceType::WikiLink => String::new(),
                    ReferenceType::WikiLinkPiped => text.clone(),
                };
                Some(
                    Node::Reference(
                        Reference { key: key.copy(), text: shown, reference_type: *t },
                    ),
                )
            },
            GraphNodeKind::Table(header, alignment, rows) => {
                let header_lines = cells(graph, header);
                let mut row_lines: Vec<Vec<GraphInlines>> = Vec::new();
                let mut i: usize = 0;
                while i < rows.len()
                    invariant
                        i <= rows@.len(),
                        row_lines@.len() == i,
                        forall|r: int, j: int|
                            0 <= r < rows@.len() && 0 <= j < rows@[r]@.len() ==> #[trigger] rows@[r]@[j]
                                < graph.lines@.len(),
                        forall|j: int|
                            0 <= j < i ==> lines_view(#[trigger] row_lines@[j]@) == cells_view(
                                graph.lines@,
                                rows@[j]@,
                            ),
                    decreases rows@.len() - i,
                {
                    let row = &rows[i];
                    assert forall|j: int| 0 <= j < row@.len() implies #[trigger] row@[j]
                        < graph.lines@.len() by {
                        assert(rows@[i as int]@[j] < graph.lines@.len());
                    }
                    row_lines.push(cells(graph, row));
                    i = i + 1;
                }
                let table = Table {
                    header: header_lines,
                    alignment: duplicate_alignment(alignment),
                    rows: row_lines,
                };
                proof {
                    assert(table@.header =~= header@.map_values(
                        |l: LineId| line_at(graph.lines@, l as int),
                    ));
                    assert(table@.rows =~= rows@.map_values(
                        |row: Vec<LineId>|
                            row@.map_values(|l: LineId| line_at(graph.lines@, l as int)),
                    ));
                }
                Some(Node::Table(table))
            },
        };
        r
    }
}

impl<'a> NodePointer<'a> for GraphNodePointer<'a> {
    closed spec fn spec_tree(&self) -> TreeView {
        self.graph.tree()
    }

    closed spec fn spec_id(&self) -> Option<NodeId> {
        Some(self.id)
    }

    proof fn lemma_valid(&self) {
        self.graph.lemma_tree_wf();
    }

    fn id(&self) -> (r: Option<NodeId>) {
        Some(self.id)
    }

    fn next_id(&self) -> (r: Option<NodeId>) {
        self.graph.nodes[self.id].next_id
    }

    fn child_id(&self) -> (r: Option<NodeId>) {
        self.graph.nodes[self.id].child_id
    }

    fn prev_id(&self) -> (r: Option<NodeId>) {
        self.graph.nodes[self.id].prev_id
    }

    fn to_node(&self, id: NodeId) -> (r: Self) {
        GraphNodePointer { id, graph: self.graph }
    }

    fn to_key(&self, key: Key) -> (r: Option<Self>) {
        proof {
            lemma_doc_index_bound(self.graph.nodes@, key@);
        }
        match self.graph.get_node_id(&key) {
            Some(id) => Some(GraphNodePointer { id, graph: self.graph }),
            None => {
                proof {
                    lemma_doc_index_none(self.graph.nodes@, key@);
                }
                None
            },
        }
    }
}

/// Without a first document with a key there is no document with that key at all.
pub proof fn lemma_doc_index_none(nodes: Seq<super::GraphNode>, key: Seq<char>)
    requires
        doc_index(nodes, key) is None,
    ensures
        forall|i: int|
            0 <= i < nodes.len() ==> !(#[trigger] nodes[i].kind matches GraphNodeKind::Document(k)
                && k@ == key),
    decreases nodes.len(),
{
    if nodes.len() > 0 {
        lemma_doc_index_none(nodes.drop_last(), key);
        assert forall|i: int|
            0 <= i < nodes.len() implies !(#[trigger] nodes[i].kind matches GraphNodeKind::Document(
            k,
        ) && k@ == key) by {
            if i < nodes.len() - 1 {
                assert(nodes.drop_last()[i] == nodes[i]);
            }
        }
    }
}

} // verus!
