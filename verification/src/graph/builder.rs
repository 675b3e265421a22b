use vstd::prelude::*;

use super::{
    kind_lines_ok, lemma_next_same_parent, lemma_parent_stable, node_ok, parent_in, Graph,
    GraphNode, GraphNodeKind,
};
use crate::model::inline::GraphInlines;
use crate::model::node::{ColumnAlignment, ReferenceType};
use crate::model::{Key, LineId, NodeId};

verus! {

/// Builds a graph node by node: each new node goes after the current node, or under it
/// when `insert` is set, and becomes the current node.
pub struct GraphBuilder {
    graph: Graph,
    id: NodeId,
    insert: bool,
}

/// `new` is `old` with node `new.len() - 1` added, holding `kind`; the nodes before it keep
/// what they hold, and the lines are kept.
pub open spec fn grows_by(old: Graph, new: Graph, kind: GraphNodeKind) -> bool {
    &&& new.nodes@.len() == old.nodes@.len() + 1
    &&& new.lines@ == old.lines@
    &&& new.nodes@[old.nodes@.len() as int].kind == kind
    &&& forall|j: int| 0 <= j < old.nodes@.len() ==> #[trigger] new.nodes@[j].kind == old.nodes@[j].kind
}

/// The node that `new` added over `old` went where `old` put its next node, and every node
/// of `old` keeps its parent.
pub open spec fn placed(old: GraphBuilder, new: GraphBuilder) -> bool {
    let n = old.spec_graph().nodes@.len();
    &&& parent_in(new.spec_graph().nodes@, n as int) == old.next_parent()
    &&& forall|i: int|
        0 <= i < n ==> #[trigger] parent_in(new.spec_graph().nodes@, i) == parent_in(
            old.spec_graph().nodes@,
            i,
        )
}

/// `new` keeps every node and line of `old`, with what they hold.
pub open spec fn extends(old: Graph, new: Graph) -> bool {
    &&& old.nodes@.len() <= new.nodes@.len()
    &&& old.lines@.len() <= new.lines@.len()
    &&& forall|j: int| 0 <= j < old.lines@.len() ==> #[trigger] new.lines@[j] == old.lines@[j]
    &&& forall|j: int| 0 <= j < old.nodes@.len() ==> #[trigger] new.nodes@[j].kind == old.nodes@[j].kind
}

pub proof fn lemma_extends_refl(g: Graph)
    ensures
        extends(g, g),
{
}

pub proof fn lemma_extends_trans(a: Graph, b: Graph, c: Graph)
    requires
        extends(a, b),
        extends(b, c),
    ensures
        extends(a, c),
{
    assert forall|j: int| 0 <= j < a.nodes@.len() implies #[trigger] c.nodes@[j].kind
        == a.nodes@[j].kind by {
        assert(c.nodes@[j].kind == b.nodes@[j].kind);
    }
    assert forall|j: int| 0 <= j < a.lines@.len() implies #[trigger] c.lines@[j]
        == a.lines@[j] by {
        assert(c.lines@[j] == b.lines@[j]);
    }
}

impl GraphBuilder {
    /// The builder points into a well-formed graph, at one of its nodes.
    pub open spec fn wf(&self) -> bool {
        self.spec_graph().wf() && self.spec_id() < self.spec_graph().nodes@.len()
    }

    pub closed spec fn spec_graph(&self) -> Graph {
        self.graph
    }

    pub closed spec fn spec_id(&self) -> NodeId {
        self.id
    }

    pub closed spec fn spec_insert(&self) -> bool {
        self.insert
    }

    /// A builder at node `id` of `graph`, adding after it.
    pub fn new(graph: Graph, id: NodeId) -> (r: GraphBuilder)
        requires
            graph.wf(),
            id < graph.nodes@.len(),
        ensures
            r.wf(),
            r.spec_graph() == graph,
            r.spec_id() == id,
            !r.spec_insert(),
    {
        GraphBuilder { graph, id, insert: false }
    }

    /// Adds a document to `graph` and a builder that adds under it.
    pub fn for_document(graph: Graph, key: &Key) -> (r: GraphBuilder)
        requires
            graph.wf(),
        ensures
            r.wf(),
            grows_by(graph, r.spec_graph(), GraphNodeKind::Document(*key)),
            r.spec_id() == graph.nodes@.len(),
            r.spec_insert(),
    {
        let mut graph = graph;
        let ghost before = graph;
        let id = graph.nodes.len();
        graph.nodes.push(
            GraphNode {
                kind: GraphNodeKind::Document(key.copy()),
                prev_id: None,
                next_id: None,
                child_id: None,
            },
        );
        proof {
            assert forall|i: int| 0 <= i < graph.nodes@.len() implies #[trigger] node_ok(
                graph.nodes@,
                graph.lines@.len(),
                i,
            ) by {
                if i < id {
                    assert(node_ok(before.nodes@, before.lines@.len(), i));
                    assert(graph.nodes@[i] == before.nodes@[i]);
                }
            }
            assert(graph.nodes@[id as int].kind == GraphNodeKind::Document(*key));
        }
        GraphBuilder { graph, id, insert: true }
    }

    /// The graph built so far.
    pub fn graph(&self) -> (r: &Graph)
        ensures
            *r == self.spec_graph(),
    {
        &self.graph
    }

    /// The graph built.
    pub fn into_graph(self) -> (r: Graph)
        ensures
            r == self.spec_graph(),
    {
        self.graph
    }

    pub fn id(&self) -> (r: NodeId)
        ensures
            r == self.spec_id(),
    {
        self.id
    }

    pub fn set_id(&mut self, id: NodeId)
        requires
            old(self).wf(),
            id < old(self).spec_graph().nodes@.len(),
        ensures
            final(self).wf(),
            final(self).spec_graph() == old(self).spec_graph(),
            final(self).spec_id() == id,
            final(self).spec_insert() == old(self).spec_insert(),
    {
        self.id = id;
    }

    pub fn set_insert(&mut self, insert: bool)
        ensures
            final(self).spec_graph() == old(self).spec_graph(),
            final(self).spec_id() == old(self).spec_id(),
            final(self).spec_insert() == insert,
    {
        self.insert = insert;
    }

    /// The last node of the chain of nodes that follow node `start`.
    fn last_in_chain(&self, start: NodeId) -> (r: NodeId)
        requires
            self.graph.wf(),
            start < self.graph.nodes@.len(),
        ensures
            start <= r < self.graph.nodes@.len(),
            self.graph.nodes@[r as int].next_id is None,
            parent_in(self.graph.nodes@, r as int) == parent_in(self.graph.nodes@, start as int),
    {
        let mut cur = start;
        loop
            invariant
                self.graph.wf(),
                start <= cur < self.graph.nodes@.len(),
                parent_in(self.graph.nodes@, cur as int) == parent_in(
                    self.graph.nodes@,
                    start as int,
                ),
            decreases self.graph.nodes@.len() - cur,
        {
            assert(node_ok(self.graph.nodes@, self.graph.lines@.len(), cur as int));
            match self.graph.nodes[cur].next_id {
                Some(n) => {
                    proof {
                        lemma_next_same_parent(
                            self.graph.nodes@,
                            self.graph.lines@.len(),
                            cur as int,
                        );
                    }
                    cur = n;
                },
                None => return cur,
            }
        }
    }

    /// Where the next node goes: under the current node when inserting, beside it otherwise.
    pub open spec fn next_parent(&self) -> Option<NodeId> {
        if self.spec_insert() {
            Some(self.spec_id())
        } else {
            parent_in(self.spec_graph().nodes@, self.spec_id() as int)
        }
    }

    /// Adds a node holding `kind`: after the last node that follows the current node, or
    /// after the last child of the current node when inserting (as its first child when it
    /// has none). The new node becomes the current node, and the builder stops inserting.
    pub fn add_node(&mut self, kind: GraphNodeKind)
        requires
            old(self).wf(),
            kind_lines_ok(kind, old(self).spec_graph().lines@.len()),
        ensures
            final(self).wf(),
            grows_by(old(self).spec_graph(), final(self).spec_graph(), kind),
            final(self).spec_id() == old(self).spec_graph().nodes@.len(),
            !final(self).spec_insert(),
            placed(*old(self), *final(self)),
    {
        let ghost before = self.graph;
        let ghost parent = self.next_parent();
        let new_id = self.graph.nodes.len();
        let anchor = self.id;
        assert(node_ok(self.graph.nodes@, self.graph.lines@.len(), anchor as int));
        let prev = if self.insert {
            match self.graph.nodes[anchor].child_id {
                Some(c) => {
                    let last = self.last_in_chain(c);
                    self.graph.nodes[last].next_id = Some(new_id);
                    last
                },
                None => {
                    self.graph.nodes[anchor].child_id = Some(new_id);
                    anchor
                },
            }
        } else {
            let last = self.last_in_chain(anchor);
            self.graph.nodes[last].next_id = Some(new_id);
            last
        };
        let ghost linked = self.graph;
        assert(forall|j: int| 0 <= j < new_id ==> #[trigger] linked.nodes@[j].kind == before.nodes@[j].kind);
        self.graph.nodes.push(
            GraphNode { kind, prev_id: Some(prev), next_id: None, child_id: None },
        );
        proof {
            assert forall|i: int| 0 <= i < self.graph.nodes@.len() implies #[trigger] node_ok(
                self.graph.nodes@,
                self.graph.lines@.len(),
                i,
            ) by {
                if i < new_id {
                    assert(node_ok(before.nodes@, before.lines@.len(), i));
                    assert(self.graph.nodes@[i] == linked.nodes@[i]);
                    assert(self.graph.nodes@[i].kind == before.nodes@[i].kind);
                }
            }
            assert forall|j: int| 0 <= j < before.nodes@.len() implies #[trigger] self.graph.nodes@[j].kind
                == before.nodes@[j].kind by {
                assert(self.graph.nodes@[j] == linked.nodes@[j]);
            }
        }
        proof {
            let b = before.nodes@;
            let a = self.graph.nodes@;
            assert forall|i: int| 0 <= i < b.len() implies #[trigger] a[i].prev_id
                == b[i].prev_id && (a[i].child_id == b[i].child_id || (b[i].child_id is None && (
            a[i].child_id matches Some(c) && c == b.len()))) by {
                assert(a[i] == linked.nodes@[i]);
            }
            assert forall|i: int| 0 <= i < b.len() implies #[trigger] parent_in(a, i) == parent_in(
                b,
                i,
            ) by {
                lemma_parent_stable(b, a, i);
            }
            assert(node_ok(a, self.graph.lines@.len(), prev as int));
            if prev != anchor || !old(self).insert {
                lemma_parent_stable(b, a, prev as int);
            }
            assert(parent_in(a, new_id as int) == parent);
        }
        self.id = new_id;
        self.insert = false;
    }

    /// Stores a line and returns its id.
    pub fn add_line(&mut self, inlines: GraphInlines) -> (r: LineId)
        requires
            old(self).wf(),
        ensures
            final(self).wf(),
            extends(old(self).spec_graph(), final(self).spec_graph()),
            final(self).spec_graph().nodes@ == old(self).spec_graph().nodes@,
            final(self).spec_graph().lines@ == old(self).spec_graph().lines@.push(inlines),
            r == old(self).spec_graph().lines@.len(),
            final(self).spec_id() == old(self).spec_id(),
            final(self).spec_insert() == old(self).spec_insert(),
    {
        let ghost before = self.graph;
        let r = self.graph.lines.len();
        self.graph.lines.push(inlines);
        proof {
            assert forall|i: int| 0 <= i < self.graph.nodes@.len() implies #[trigger] node_ok(
                self.graph.nodes@,
                self.graph.lines@.len(),
                i,
            ) by {
                assert(node_ok(before.nodes@, before.lines@.len(), i));
                lemma_kind_lines_grow(
                    self.graph.nodes@[i].kind,
                    before.lines@.len(),
                    self.graph.lines@.len(),
                );
            }
        }
        r
    }

    pub fn section(&mut self, inlines: GraphInlines)
        requires
            old(self).wf(),
        ensures
            final(self).wf(),
            final(self).spec_graph().lines@ == old(self).spec_graph().lines@.push(inlines),
            old(self).spec_graph().lines@.len() <= usize::MAX,
            final(self).spec_graph().nodes@.len() == old(self).spec_graph().nodes@.len() + 1,
            final(self).spec_graph().nodes@[old(self).spec_graph().nodes@.len() as int].kind
                == GraphNodeKind::Section(old(self).spec_graph().lines@.len() as LineId),
            extends(old(self).spec_graph(), final(self).spec_graph()),
            final(self).spec_id() == old(self).spec_graph().nodes@.len(),
            !final(self).spec_insert(),
            placed(*old(self), *final(self)),
    {
        let l = self.add_line(inlines);
        self.add_node(GraphNodeKind::Section(l));
    }

    pub fn leaf(&mut self, inlines: GraphInlines)
        requires
            old(self).wf(),
        ensures
            final(self).wf(),
            final(self).spec_graph().lines@ == old(self).spec_graph().lines@.push(inlines),
            old(self).spec_graph().lines@.len() <= usize::MAX,
            final(self).spec_graph().nodes@.len() == old(self).spec_graph().nodes@.len() + 1,
            final(self).spec_graph().nodes@[old(self).spec_graph().nodes@.len() as int].kind
                == GraphNodeKind::Leaf(old(self).spec_graph().lines@.len() as LineId),
            extends(old(self).spec_graph(), final(self).spec_graph()),
            final(self).spec_id() == old(self).spec_graph().nodes@.len(),
            !final(self).spec_insert(),
            placed(*old(self), *final(self)),
    {
        let l = self.add_line(inlines);
        self.add_node(GraphNodeKind::Leaf(l));
    }

    pub fn raw(&mut self, text: &String, lang: Option<String>)
        requires
            old(self).wf(),
        ensures
            final(self).wf(),
            grows_by(old(self).spec_graph(), final(self).spec_graph(),
                GraphNodeKind::Raw(lang, *text)),
            final(self).spec_id() == old(self).spec_graph().nodes@.len(),
            !final(self).spec_insert(),
            placed(*old(self), *final(self)),
    {
        self.add_node(GraphNodeKind::Raw(lang, text.clone()));
    }

    pub fn quote(&mut self)
        requires
            old(self).wf(),
        ensures
            final(self).wf(),
            grows_by(old(self).spec_graph(), final(self).spec_graph(), GraphNodeKind::Quote),
            final(self).spec_id() == old(self).spec_graph().nodes@.len(),
            !final(self).spec_insert(),
            placed(*old(self), *final(self)),
    {
        self.add_node(GraphNodeKind::Quote);
    }

    pub fn bullet_list(&mut self)
        requires
            old(self).wf(),
        ensures
            final(self).wf(),
            grows_by(old(self).spec_graph(), final(self).spec_graph(), GraphNodeKind::BulletList),
            final(self).spec_id() == old(self).spec_graph().nodes@.len(),
            !final(self).spec_insert(),
            placed(*old(self), *final(self)),
    {
        self.add_node(GraphNodeKind::BulletList);
    }

    pub fn task_list(&mut self)
        requires
            old(self).wf(),
        ensures
            final(self).wf(),
            grows_by(old(self).spec_graph(), final(self).spec_graph(), GraphNodeKind::TaskList),
            final(self).spec_id() == old(self).spec_graph().nodes@.len(),
            !final(self).spec_insert(),
            placed(*old(self), *final(self)),
    {
        self.add_node(GraphNodeKind::TaskList);
    }

    pub fn ordered_list(&mut self)
        requires
            old(self).wf(),
        ensures
            final(self).wf(),
            grows_by(old(self).spec_graph(), final(self).spec_graph(), GraphNodeKind::OrderedList),
            final(self).spec_id() == old(self).spec_graph().nodes@.len(),
            !final(self).spec_insert(),
            placed(*old(self), *final(self)),
    {
        self.add_node(GraphNodeKind::OrderedList);
    }

    pub fn horizontal_rule(&mut self)
        requires
            old(self).wf(),
        ensures
            final(self).wf(),
            grows_by(old(self).spec_graph(), final(self).spec_graph(), GraphNodeKind::HorizontalRule),
            final(self).spec_id() == old(self).spec_graph().nodes@.len(),
            !final(self).spec_insert(),
            placed(*old(self), *final(self)),
    {
        self.add_node(GraphNodeKind::HorizontalRule);
    }

    pub fn reference_with_text(&mut self, key: &Key, text: &String, t: ReferenceType)
        requires
            old(self).wf(),
        ensures
            final(self).wf(),
            final(self).spec_graph().nodes@.len() == old(self).spec_graph().nodes@.len() + 1,
            grows_by(
                old(self).spec_graph(),
                final(self).spec_graph(),
                GraphNodeKind::Reference(*key, *text, t),
            ),
            final(self).spec_id() == old(self).spec_graph().nodes@.len(),
            !final(self).spec_insert(),
            placed(*old(self), *final(self)),
    {
        self.add_node(GraphNodeKind::Reference(key.copy(), text.clone(), t));
    }

    pub fn table(
        &mut self,
        header: Vec<LineId>,
        alignment: Vec<ColumnAlignment>,
        rows: Vec<Vec<LineId>>,
    )
        requires
            old(self).wf(),
            kind_lines_ok(
                GraphNodeKind::Table(header, alignment, rows),
                old(self).spec_graph().lines@.len(),
            ),
        ensures
            final(self).wf(),
            grows_by(
                old(self).spec_graph(),
                final(self).spec_graph(),
                GraphNodeKind::Table(header, alignment, rows),
            ),
            final(self).spec_id() == old(self).spec_graph().nodes@.len(),
            !final(self).spec_insert(),
            placed(*old(self), *final(self)),
    {
        self.add_node(GraphNodeKind::Table(header, alignment, rows));
    }
}

pub proof fn lemma_kind_lines_grow(kind: GraphNodeKind, a: nat, b: nat)
    requires
        kind_lines_ok(kind, a),
        a <= b,
    ensures
        kind_lines_ok(kind, b),
{
    if let GraphNodeKind::Table(header, _, rows) = kind {
        assert forall|j: int| 0 <= j < header@.len() implies #[trigger] header@[j] < b by {
            assert(header@[j] < a);
        }
        assert forall|r: int, j: int|
            0 <= r < rows@.len() && 0 <= j < rows@[r]@.len() implies #[trigger] rows@[r]@[j]
            < b by {
            assert(rows@[r]@[j] < a);
        }
    }
}

pub proof fn lemma_grows_extends(old: Graph, new: Graph, kind: GraphNodeKind)
    requires
        grows_by(old, new, kind),
    ensures
        extends(old, new),
{
}

} // verus!
