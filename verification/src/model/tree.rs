use vstd::prelude::*;

use crate::model::node::NodeView;
use crate::model::NodeId;

verus! {

/// The links of one node: the node before it (its previous sibling, or its parent when it is
/// a first child), the node after it, and its first child.
pub struct Links {
    pub prev: Option<NodeId>,
    pub next: Option<NodeId>,
    pub child: Option<NodeId>,
}

/// The mathematical value of a linked tree of nodes, indexed by node id.
pub struct TreeView {
    pub links: Seq<Links>,
    pub nodes: Seq<Option<NodeView>>,
}

/// Links only point backwards through `prev` and forwards through `next` and `child`, and
/// always to a node of the tree.
pub open spec fn link_ok(t: TreeView, i: int) -> bool {
    &&& (t.links[i].prev matches Some(p) ==> p < i)
    &&& (t.links[i].next matches Some(n) ==> i < n < t.links.len())
    &&& (t.links[i].child matches Some(c) ==> i < c < t.links.len())
}

pub open spec fn tree_wf(t: TreeView) -> bool {
    &&& t.nodes.len() == t.links.len()
    &&& forall|i: int| 0 <= i < t.links.len() ==> #[trigger] link_ok(t, i)
}

pub open spec fn has_node(t: TreeView, id: Option<NodeId>) -> bool {
    id matches Some(i) && i < t.links.len()
}

pub open spec fn node_at(t: TreeView, id: Option<NodeId>) -> Option<NodeView> {
    if has_node(t, id) {
        t.nodes[id.unwrap() as int]
    } else {
        None
    }
}

pub open spec fn prev_of(t: TreeView, id: Option<NodeId>) -> Option<NodeId> {
    if has_node(t, id) {
        t.links[id.unwrap() as int].prev
    } else {
        None
    }
}

pub open spec fn next_of(t: TreeView, id: Option<NodeId>) -> Option<NodeId> {
    if has_node(t, id) {
        t.links[id.unwrap() as int].next
    } else {
        None
    }
}

pub open spec fn child_of(t: TreeView, id: Option<NodeId>) -> Option<NodeId> {
    if has_node(t, id) {
        t.links[id.unwrap() as int].child
    } else {
        None
    }
}

pub open spec fn is_document_at(t: TreeView, id: Option<NodeId>) -> bool {
    node_at(t, id) matches Some(NodeView::Document(_))
}

pub open spec fn is_section_at(t: TreeView, id: Option<NodeId>) -> bool {
    node_at(t, id) matches Some(NodeView::Section(_))
}

/// A list in the sense of `get_list`: an ordered or a bullet list.
pub open spec fn is_list_at(t: TreeView, id: Option<NodeId>) -> bool {
    ||| node_at(t, id) matches Some(NodeView::OrderedList)
    ||| node_at(t, id) matches Some(NodeView::BulletList)
}

/// The rank of a node for termination: its id, or 0 for no node.
pub open spec fn rank(id: Option<NodeId>) -> nat {
    match id {
        Some(i) => i as nat,
        None => 0,
    }
}

/// The parent of a node: walking back through `prev`, the first node whose child is the node
/// just walked from.
pub open spec fn parent_of(t: TreeView, id: Option<NodeId>) -> Option<NodeId>
    decreases rank(id),
{
    match prev_of(t, id) {
        Some(p) => if rank(Some(p)) < rank(id) {
            if child_of(t, Some(p)) == id && id is Some {
                Some(p)
            } else {
                parent_of(t, Some(p))
            }
        } else {
            None
        },
        None => None,
    }
}

/// The document that a node belongs to: walking back through `prev`, the first document.
pub open spec fn document_of(t: TreeView, id: Option<NodeId>) -> Option<NodeId>
    decreases rank(id),
{
    if is_document_at(t, id) {
        id
    } else {
        match prev_of(t, id) {
            Some(p) => if rank(Some(p)) < rank(id) {
                document_of(t, Some(p))
            } else {
                None
            },
            None => None,
        }
    }
}

/// Whether a node is a list or has a list among its ancestors below the document.
pub open spec fn in_list(t: TreeView, id: Option<NodeId>) -> bool
    decreases rank(id),
{
    if is_list_at(t, id) {
        true
    } else if is_document_at(t, id) {
        false
    } else {
        match parent_of(t, id) {
            Some(p) => if rank(Some(p)) < rank(id) {
                in_list(t, Some(p))
            } else {
                false
            },
            None => false,
        }
    }
}

/// The nearest list that holds a node (the node itself when it is one).
pub open spec fn list_of(t: TreeView, id: Option<NodeId>) -> Option<NodeId>
    decreases rank(id),
{
    if is_list_at(t, id) {
        id
    } else if is_document_at(t, id) {
        None
    } else {
        match parent_of(t, id) {
            Some(p) => if rank(Some(p)) < rank(id) {
                list_of(t, Some(p))
            } else {
                None
            },
            None => None,
        }
    }
}

/// The outermost list that holds a node: a list whose parent is in no list.
pub open spec fn top_level_list_of(t: TreeView, id: Option<NodeId>) -> Option<NodeId>
    decreases rank(id),
{
    if is_list_at(t, id) && !(parent_of(t, id) matches Some(p) && in_list(t, Some(p))) {
        id
    } else if is_document_at(t, id) {
        None
    } else {
        match parent_of(t, id) {
            Some(p) => if rank(Some(p)) < rank(id) {
                top_level_list_of(t, Some(p))
            } else {
                None
            },
            None => None,
        }
    }
}

/// The nearest section outside lists that holds a node (the node itself when it is one).
pub open spec fn section_of(t: TreeView, id: Option<NodeId>) -> Option<NodeId>
    decreases rank(id),
{
    if is_section_at(t, id) && !in_list(t, id) {
        id
    } else if is_document_at(t, id) {
        None
    } else {
        match parent_of(t, id) {
            Some(p) => if rank(Some(p)) < rank(id) {
                section_of(t, Some(p))
            } else {
                None
            },
            None => None,
        }
    }
}

/// Whether `s` is the node `id` or one of its ancestors.
pub open spec fn at_or_above(t: TreeView, id: Option<NodeId>, s: NodeId) -> bool
    decreases rank(id),
{
    id == Some(s) || match parent_of(t, id) {
        Some(p) => rank(Some(p)) < rank(id) && at_or_above(t, Some(p), s),
        None => false,
    }
}

/// The section that holds a node is a section that no list holds, and it is the node itself
/// or one of its ancestors: a section of a list item is never the answer.
pub proof fn law_section_of(t: TreeView, id: Option<NodeId>)
    ensures
        section_of(t, id) matches Some(s) ==> is_section_at(t, Some(s)) && !in_list(t, Some(s))
            && at_or_above(t, id, s),
    decreases rank(id),
{
    if !(is_section_at(t, id) && !in_list(t, id)) && !is_document_at(t, id) {
        if let Some(p) = parent_of(t, id) {
            if rank(Some(p)) < rank(id) {
                law_section_of(t, Some(p));
            }
        }
    }
}

/// An ancestor comes before the node: its rank is no larger.
proof fn lemma_at_or_above_rank(t: TreeView, id: Option<NodeId>, s: NodeId)
    requires
        at_or_above(t, id, s),
    ensures
        rank(Some(s)) <= rank(id),
    decreases rank(id),
{
    if id != Some(s) {
        let p = parent_of(t, id).unwrap();
        lemma_at_or_above_rank(t, Some(p), s);
    }
}

/// The section that holds a node is the nearest one: no node strictly between the node and
/// that section is a section that no list holds.
pub proof fn law_section_of_nearest(t: TreeView, id: Option<NodeId>, m: NodeId)
    requires
        section_of(t, id) is Some,
        at_or_above(t, id, m),
        m != section_of(t, id).unwrap(),
        at_or_above(t, Some(m), section_of(t, id).unwrap()),
    ensures
        !(is_section_at(t, Some(m)) && !in_list(t, Some(m))),
    decreases rank(id),
{
    let s = section_of(t, id).unwrap();
    if id != Some(m) {
        let p = parent_of(t, id).unwrap();
        lemma_at_or_above_rank(t, Some(p), m);
        lemma_at_or_above_rank(t, Some(m), s);
        if is_section_at(t, id) && !in_list(t, id) {
            assert(s == id.unwrap());
            assert(false);
        }
        law_section_of_nearest(t, Some(p), m);
    }
}

/// The distance of a node from the end of the tree, for termination of forward walks.
pub open spec fn rest(t: TreeView, id: Option<NodeId>) -> nat {
    match id {
        Some(i) => if i < t.links.len() {
            (t.links.len() - i) as nat
        } else {
            0
        },
        None => 0,
    }
}

/// The sections among a node and the nodes after it, in order.
pub open spec fn next_sections(t: TreeView, id: Option<NodeId>) -> Seq<NodeId>
    decreases rest(t, id),
{
    let here: Seq<NodeId> = if is_section_at(t, id) {
        seq![id.unwrap()]
    } else {
        Seq::empty()
    };
    match next_of(t, id) {
        Some(n) => if rest(t, Some(n)) < rest(t, id) {
            here + next_sections(t, Some(n))
        } else {
            here
        },
        None => here,
    }
}

/// A node and the nodes after it, in order.
pub open spec fn next_nodes(t: TreeView, id: Option<NodeId>) -> Seq<NodeId>
    decreases rest(t, id),
{
    let here: Seq<NodeId> = match id {
        Some(i) => seq![i],
        None => Seq::empty(),
    };
    match next_of(t, id) {
        Some(n) => if rest(t, Some(n)) < rest(t, id) {
            here + next_nodes(t, Some(n))
        } else {
            here
        },
        None => here,
    }
}

/// A node, then everything under it, then everything under the nodes after it, depth first.
pub open spec fn all_sub_nodes(t: TreeView, id: Option<NodeId>) -> Seq<NodeId>
    decreases rest(t, id),
{
    let here: Seq<NodeId> = seq![
        match id {
            Some(i) => i,
            None => 0,
        },
    ];
    let below: Seq<NodeId> = match child_of(t, id) {
        Some(c) => if rest(t, Some(c)) < rest(t, id) {
            all_sub_nodes(t, Some(c))
        } else {
            Seq::empty()
        },
        None => Seq::empty(),
    };
    let after: Seq<NodeId> = match next_of(t, id) {
        Some(n) => if rest(t, Some(n)) < rest(t, id) {
            all_sub_nodes(t, Some(n))
        } else {
            Seq::empty()
        },
        None => Seq::empty(),
    };
    here + below + after
}

/// Walking back over the sections that come before a node at its level, the first of them.
pub open spec fn first_section_at_same_level(t: TreeView, id: Option<NodeId>) -> Option<NodeId>
    decreases rank(id),
{
    match prev_of(t, id) {
        Some(p) => if rank(Some(p)) < rank(id) && is_section_at(t, Some(p)) && next_of(
            t,
            Some(p),
        ) == id && id is Some {
            first_section_at_same_level(t, Some(p))
        } else {
            id
        },
        None => id,
    }
}

/// What is left to walk of `all_sub_nodes` for a stack of nodes whose top is the last.
pub open spec fn pending_nodes(t: TreeView, stack: Seq<NodeId>) -> Seq<NodeId>
    decreases stack.len(),
{
    if stack.len() == 0 {
        Seq::empty()
    } else {
        all_sub_nodes(t, Some(stack.last())) + pending_nodes(t, stack.drop_last())
    }
}

pub proof fn lemma_prev_lt(t: TreeView, id: Option<NodeId>)
    requires
        tree_wf(t),
    ensures
        prev_of(t, id) matches Some(p) ==> p < rank(id) && has_node(t, Some(p)),
        next_of(t, id) matches Some(n) ==> rest(t, Some(n)) < rest(t, id) && has_node(t, Some(n)),
        child_of(t, id) matches Some(c) ==> rest(t, Some(c)) < rest(t, id) && has_node(
            t,
            Some(c),
        ),
{
    if has_node(t, id) {
        assert(link_ok(t, id.unwrap() as int));
    }
}

/// The parent of a node comes before it and is a node of the tree.
pub proof fn lemma_parent_lt(t: TreeView, id: Option<NodeId>)
    requires
        tree_wf(t),
    ensures
        parent_of(t, id) matches Some(p) ==> p < rank(id) && has_node(t, Some(p)),
    decreases rank(id),
{
    lemma_prev_lt(t, id);
    match prev_of(t, id) {
        Some(p) => {
            if !(child_of(t, Some(p)) == id && id is Some) {
                lemma_parent_lt(t, Some(p));
            }
        },
        None => {},
    }
}

/// The document of a node is a document node of the tree.
pub proof fn lemma_document_of(t: TreeView, id: Option<NodeId>)
    requires
        tree_wf(t),
    ensures
        document_of(t, id) matches Some(d) ==> has_node(t, Some(d)) && is_document_at(t, Some(d)),
    decreases rank(id),
{
    lemma_prev_lt(t, id);
    if !is_document_at(t, id) {
        match prev_of(t, id) {
            Some(p) => lemma_document_of(t, Some(p)),
            None => {},
        }
    }
}

} // verus!
