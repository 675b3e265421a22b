use vstd::prelude::*;

use crate::model::inline::{
    duplicate_inlines, inlines_text, inlines_view, line_plain_text, lines_view, GraphInline,
    GraphInlines, InlineView, LinkType,
};
use crate::model::tree::{
    all_sub_nodes, child_of, document_of, first_section_at_same_level, has_node, in_list,
    is_document_at, is_section_at, lemma_document_of, lemma_parent_lt, lemma_prev_lt, list_of,
    next_nodes, next_of, next_sections, node_at, parent_of, prev_of, rank, rest, section_of,
    top_level_list_of, tree_wf, pending_nodes, TreeView,
};
use crate::model::{Key, NodeId};

verus! {

/// A node of a document graph, as handed out by a node pointer.
#[derive(Clone, Debug, PartialEq)]
pub enum Node {
    Document(Key),
    Section(GraphInlines),
    Quote(),
    BulletList(),
    TaskList(),
    OrderedList(),
    Leaf(GraphInlines),
    Raw(Option<String>, String),
    HorizontalRule(),
    Reference(Reference),
    Table(Table),
}

/// How a block reference to another document was written.
#[derive(Clone, Copy, Debug, PartialEq, Eq, Structural)]
pub enum ReferenceType {
    Regular,
    WikiLink,
    WikiLinkPiped,
}

/// A block that refers to another document.
#[derive(Clone, Debug, PartialEq)]
pub struct Reference {
    pub key: Key,
    pub text: String,
    pub reference_type: ReferenceType,
}

/// A table: its header cells, the alignment of its columns, and its rows of cells.
#[derive(Clone, Debug, PartialEq)]
pub struct Table {
    pub header: Vec<GraphInlines>,
    pub alignment: Vec<ColumnAlignment>,
    pub rows: Vec<Vec<GraphInlines>>,
}

#[derive(Debug, Clone, PartialEq, Eq, Copy, Structural)]
pub enum ColumnAlignment {
    Unaligned,
    Left,
    Center,
    Right,
}

/// The mathematical value of a [`Reference`].
pub struct ReferenceView {
    pub key: Seq<char>,
    pub text: Seq<char>,
    pub reference_type: ReferenceType,
}

/// The mathematical value of a [`Table`].
pub struct TableView {
    pub header: Seq<Seq<InlineView>>,
    pub alignment: Seq<ColumnAlignment>,
    pub rows: Seq<Seq<Seq<InlineView>>>,
}

/// The mathematical value of a [`Node`].
pub enum NodeView {
    Document(Seq<char>),
    Section(Seq<InlineView>),
    Quote,
    BulletList,
    TaskList,
    OrderedList,
    Leaf(Seq<InlineView>),
    Raw(Option<Seq<char>>, Seq<char>),
    HorizontalRule,
    Reference(ReferenceView),
    Table(TableView),
}

pub open spec fn opt_string_view(s: Option<String>) -> Option<Seq<char>> {
    match s {
        Some(s) => Some(s@),
        None => None,
    }
}

pub open spec fn rows_view(rows: Seq<Vec<Vec<GraphInline>>>) -> Seq<Seq<Seq<InlineView>>> {
    rows.map_values(|r: Vec<Vec<GraphInline>>| lines_view(r@))
}

impl View for Reference {
    type V = ReferenceView;

    open spec fn view(&self) -> ReferenceView {
        ReferenceView { key: self.key@, text: self.text@, reference_type: self.reference_type }
    }
}

impl View for Table {
    type V = TableView;

    open spec fn view(&self) -> TableView {
        TableView {
            header: lines_view(self.header@),
            alignment: self.alignment@,
            rows: rows_view(self.rows@),
        }
    }
}

impl View for Node {
    type V = NodeView;

    open spec fn view(&self) -> NodeView {
        match self {
            Node::Document(key) => NodeView::Document(key@),
            Node::Section(inlines) => NodeView::Section(inlines_view(inlines@)),
            Node::Quote() => NodeView::Quote,
            Node::BulletList() => NodeView::BulletList,
            Node::TaskList() => NodeView::TaskList,
            Node::OrderedList() => NodeView::OrderedList,
            Node::Leaf(inlines) => NodeView::Leaf(inlines_view(inlines@)),
            Node::Raw(lang, content) => NodeView::Raw(opt_string_view(*lang), content@),
            Node::HorizontalRule() => NodeView::HorizontalRule,
            Node::Reference(reference) => NodeView::Reference(reference@),
            Node::Table(table) => NodeView::Table(table@),
        }
    }
}

pub open spec fn opt_node_view(n: Option<Node>) -> Option<NodeView> {
    match n {
        Some(n) => Some(n@),
        None => None,
    }
}

/// The plain text of a node: the text of its line for sections and leaves, the text of a
/// reference, the content of a raw block, and nothing for the other nodes.
pub open spec fn node_text(n: NodeView) -> Seq<char> {
    match n {
        NodeView::Section(inlines) => inlines_text(inlines),
        NodeView::Leaf(inlines) => inlines_text(inlines),
        NodeView::Reference(reference) => reference.text,
        NodeView::Raw(_, content) => content,
        _ => Seq::empty(),
    }
}

/// The inlines of a node: the line of a section or a leaf, the text of a reference as one
/// string, and nothing for the other nodes.
pub open spec fn node_inlines(n: Option<NodeView>) -> Seq<InlineView> {
    match n {
        Some(NodeView::Section(inlines)) => inlines,
        Some(NodeView::Leaf(inlines)) => inlines,
        Some(NodeView::Reference(reference)) => seq![InlineView::Str(reference.text)],
        _ => Seq::empty(),
    }
}

pub open spec fn link_type_of(t: ReferenceType) -> LinkType {
    match t {
        ReferenceType::Regular => LinkType::Regular,
        ReferenceType::WikiLink => LinkType::WikiLink,
        ReferenceType::WikiLinkPiped => LinkType::WikiLinkPiped,
    }
}

impl Node {
    pub fn plain_text(&self) -> (r: String)
        ensures
            r@ == node_text(self@),
    {
        match self {
            Node::Section(inlines) => line_plain_text(inlines),
            Node::Leaf(inlines) => line_plain_text(inlines),
            Node::Reference(reference) => reference.text.clone(),
            Node::Raw(_, content) => content.clone(),
            _ => String::new(),
        }
    }

    pub fn reference_key(&self) -> (r: Option<Key>)
        ensures
            match self@ {
                NodeView::Reference(reference) => r matches Some(k) && k@ == reference.key,
                _ => r is None,
            },
    {
        match self {
            Node::Reference(reference) => Some(reference.key.copy()),
            _ => None,
        }
    }

    pub fn is_reference(&self) -> (r: bool)
        ensures
            r == (self@ is Reference),
    {
        match self {
            Node::Reference(_) => true,
            _ => false,
        }
    }
}

impl ReferenceType {
    pub fn to_link_type(&self) -> (r: LinkType)
        ensures
            r == link_type_of(*self),
    {
        match self {
            ReferenceType::Regular => LinkType::Regular,
            ReferenceType::WikiLink => LinkType::WikiLink,
            ReferenceType::WikiLinkPiped => LinkType::WikiLinkPiped,
        }
    }
}

/// A copy of a sequence of lines with the same values.
pub fn duplicate_lines(lines: &Vec<GraphInlines>) -> (r: Vec<GraphInlines>)
    ensures
        lines_view(r@) == lines_view(lines@),
{
    let mut r: Vec<GraphInlines> = Vec::new();
    let mut i: usize = 0;
    while i < lines.len()
        invariant
            i <= lines.len(),
            r@.len() == i,
            forall|j: int| 0 <= j < i ==> inlines_view(#[trigger] r@[j]@) == inlines_view(lines@[j]@),
        decreases lines.len() - i,
    {
        r.push(duplicate_inlines(&lines[i]));
        i = i + 1;
    }
    assert(lines_view(r@) =~= lines_view(lines@));
    r
}

/// A copy of table rows with the same values.
pub fn duplicate_rows(rows: &Vec<Vec<GraphInlines>>) -> (r: Vec<Vec<GraphInlines>>)
    ensures
        rows_view(r@) == rows_view(rows@),
{
    let mut r: Vec<Vec<GraphInlines>> = Vec::new();
    let mut i: usize = 0;
    while i < rows.len()
        invariant
            i <= rows.len(),
            r@.len() == i,
            forall|j: int| 0 <= j < i ==> lines_view(#[trigger] r@[j]@) == lines_view(rows@[j]@),
        decreases rows.len() - i,
    {
        r.push(duplicate_lines(&rows[i]));
        i = i + 1;
    }
    assert(rows_view(r@) =~= rows_view(rows@));
    r
}

/// A copy of column alignments.
pub fn duplicate_alignment(a: &Vec<ColumnAlignment>) -> (r: Vec<ColumnAlignment>)
    ensures
        r@ == a@,
{
    let mut r: Vec<ColumnAlignment> = Vec::new();
    let mut i: usize = 0;
    while i < a.len()
        invariant
            i <= a.len(),
            r@ == a@.take(i as int),
        decreases a.len() - i,
    {
        r.push(a[i]);
        assert(a@.take(i + 1) == a@.take(i as int).push(a@[i as int]));
        i = i + 1;
    }
    assert(a@.take(a.len() as int) == a@);
    r
}

/// Something that walks a document tree: a node, the node after it and its first child.
pub trait NodeIter<'a>: Sized {
    /// The iterator points into a well-formed tree.
    spec fn valid(&self) -> bool;

    spec fn spec_node(&self) -> Option<NodeView>;

    spec fn spec_next(&self) -> Option<Self>;

    spec fn spec_child(&self) -> Option<Self>;

    fn next(&self) -> (r: Option<Self>)
        requires
            self.valid(),
        ensures
            r == self.spec_next(),
            r matches Some(n) ==> n.valid(),
    ;

    fn child(&self) -> (r: Option<Self>)
        requires
            self.valid(),
        ensures
            r == self.spec_child(),
            r matches Some(n) ==> n.valid(),
    ;

    fn node(&self) -> (r: Option<Node>)
        requires
            self.valid(),
        ensures
            opt_node_view(r) == self.spec_node(),
    ;

    fn plain_text(&self) -> (r: String)
        requires
            self.valid(),
        ensures
            r@ == inlines_text(node_inlines(self.spec_node())),
    {
        let inlines = self.inlines();
        line_plain_text(&inlines)
    }

    fn ref_type(&self) -> (r: Option<ReferenceType>)
        requires
            self.valid(),
        ensures
            r == match self.spec_node() {
                Some(NodeView::Reference(reference)) => Some(reference.reference_type),
                _ => None,
            },
    {
        match self.node() {
            Some(Node::Reference(reference)) => Some(reference.reference_type),
            _ => None,
        }
    }

    fn lang(&self) -> (r: Option<String>)
        requires
            self.valid(),
        ensures
            opt_string_view(r) == match self.spec_node() {
                Some(NodeView::Raw(lang, _)) => lang,
                _ => None,
            },
    {
        match self.node() {
            Some(Node::Raw(lang, _)) => lang,
            _ => None,
        }
    }

    fn table_header(&self) -> (r: Option<Vec<GraphInlines>>)
        requires
            self.valid(),
        ensures
            match self.spec_node() {
                Some(NodeView::Table(table)) => r matches Some(h) && lines_view(h@)
                    == table.header,
                _ => r is None,
            },
    {
        match self.node() {
            Some(Node::Table(table)) => Some(duplicate_lines(&table.header)),
            _ => None,
        }
    }

    fn table_alignment(&self) -> (r: Option<Vec<ColumnAlignment>>)
        requires
            self.valid(),
        ensures
            match self.spec_node() {
                Some(NodeView::Table(table)) => r matches Some(a) && a@ == table.alignment,
                _ => r is None,
            },
    {
        match self.node() {
            Some(Node::Table(table)) => Some(duplicate_alignment(&table.alignment)),
            _ => None,
        }
    }

    fn table_rows(&self) -> (r: Option<Vec<Vec<GraphInlines>>>)
        requires
            self.valid(),
        ensures
            match self.spec_node() {
                Some(NodeView::Table(table)) => r matches Some(rows) && rows_view(rows@)
                    == table.rows,
                _ => r is None,
            },
    {
        match self.node() {
            Some(Node::Table(table)) => Some(duplicate_rows(&table.rows)),
            _ => None,
        }
    }

    fn content(&self) -> (r: Option<String>)
        requires
            self.valid(),
        ensures
            opt_string_view(r) == match self.spec_node() {
                Some(NodeView::Raw(_, content)) => Some(content),
                _ => None,
            },
    {
        match self.node() {
            Some(Node::Raw(_, content)) => Some(content),
            _ => None,
        }
    }

    fn ref_text(&self) -> (r: Option<String>)
        requires
            self.valid(),
        ensures
            opt_string_view(r) == match self.spec_node() {
                Some(NodeView::Reference(reference)) => Some(reference.text),
                _ => None,
            },
    {
        match self.node() {
            Some(Node::Reference(reference)) => Some(reference.text),
            _ => None,
        }
    }

    fn ref_key2(&self) -> (r: Option<Key>)
        requires
            self.valid(),
        ensures
            match self.spec_node() {
                Some(NodeView::Reference(reference)) => r matches Some(k) && k@ == reference.key,
                _ => r is None,
            },
    {
        match self.node() {
            Some(Node::Reference(reference)) => Some(reference.key),
            _ => None,
        }
    }

    fn inlines(&self) -> (r: GraphInlines)
        requires
            self.valid(),
        ensures
            inlines_view(r@) == node_inlines(self.spec_node()),
    {
        match self.node() {
            Some(Node::Section(inlines)) => inlines,
            Some(Node::Leaf(inlines)) => inlines,
            Some(Node::Reference(reference)) => {
                let r = vec![GraphInline::Str(reference.text)];
                assert(inlines_view(r@) =~= node_inlines(self.spec_node()));
                r
            },
            _ => {
                let r: GraphInlines = Vec::new();
                assert(inlines_view(r@) =~= node_inlines(self.spec_node()));
                r
            },
        }
    }

    fn is_list(&self) -> (r: bool)
        requires
            self.valid(),
        ensures
            r == (self.spec_node() matches Some(NodeView::OrderedList) || self.spec_node() matches Some(
                NodeView::BulletList,
            )),
    {
        self.is_ordered_list() || self.is_bullet_list()
    }

    fn is_document(&self) -> (r: bool)
        requires
            self.valid(),
        ensures
            r == (self.spec_node() matches Some(NodeView::Document(_))),
    {
        match self.node() {
            Some(Node::Document(_)) => true,
            _ => false,
        }
    }

    fn is_section(&self) -> (r: bool)
        requires
            self.valid(),
        ensures
            r == (self.spec_node() matches Some(NodeView::Section(_))),
    {
        match self.node() {
            Some(Node::Section(_)) => true,
            _ => false,
        }
    }

    fn is_ordered_list(&self) -> (r: bool)
        requires
            self.valid(),
        ensures
            r == (self.spec_node() matches Some(NodeView::OrderedList)),
    {
        match self.node() {
            Some(Node::OrderedList()) => true,
            _ => false,
        }
    }

    fn is_bullet_list(&self) -> (r: bool)
        requires
            self.valid(),
        ensures
            r == (self.spec_node() matches Some(NodeView::BulletList)),
    {
        match self.node() {
            Some(Node::BulletList()) => true,
            _ => false,
        }
    }

    fn is_reference(&self) -> (r: bool)
        requires
            self.valid(),
        ensures
            r == (self.spec_node() matches Some(NodeView::Reference(_))),
    {
        match self.node() {
            Some(Node::Reference(_)) => true,
            _ => false,
        }
    }

    fn is_horizontal_rule(&self) -> (r: bool)
        requires
            self.valid(),
        ensures
            r == (self.spec_node() matches Some(NodeView::HorizontalRule)),
    {
        match self.node() {
            Some(Node::HorizontalRule()) => true,
            _ => false,
        }
    }

    fn is_raw(&self) -> (r: bool)
        requires
            self.valid(),
        ensures
            r == (self.spec_node() matches Some(NodeView::Raw(_, _))),
    {
        match self.node() {
            Some(Node::Raw(_, _)) => true,
            _ => false,
        }
    }

    fn is_leaf(&self) -> (r: bool)
        requires
            self.valid(),
        ensures
            r == (self.spec_node() matches Some(NodeView::Leaf(_))),
    {
        match self.node() {
            Some(Node::Leaf(_)) => true,
            _ => false,
        }
    }

    fn is_quote(&self) -> (r: bool)
        requires
            self.valid(),
        ensures
            r == (self.spec_node() matches Some(NodeView::Quote)),
    {
        match self.node() {
            Some(Node::Quote()) => true,
            _ => false,
        }
    }
}


/// A node iterator that knows node ids and can move to any node of its tree.
pub trait NodePointer<'a>: NodeIter<'a> {
    /// The tree that the pointer points into.
    spec fn spec_tree(&self) -> TreeView;

    spec fn spec_id(&self) -> Option<NodeId>;

    /// A valid pointer points into a well-formed tree, at one of its nodes, and its node is
    /// that node of the tree.
    proof fn lemma_valid(&self)
        requires
            self.valid(),
        ensures
            tree_wf(self.spec_tree()),
            self.spec_id() is Some ==> has_node(self.spec_tree(), self.spec_id()),
            self.spec_node() == node_at(self.spec_tree(), self.spec_id()),
    ;

    fn id(&self) -> (r: Option<NodeId>)
        requires
            self.valid(),
        ensures
            r == self.spec_id(),
    ;

    fn next_id(&self) -> (r: Option<NodeId>)
        requires
            self.valid(),
        ensures
            r == next_of(self.spec_tree(), self.spec_id()),
    ;

    fn child_id(&self) -> (r: Option<NodeId>)
        requires
            self.valid(),
        ensures
            r == child_of(self.spec_tree(), self.spec_id()),
    ;

    fn prev_id(&self) -> (r: Option<NodeId>)
        requires
            self.valid(),
        ensures
            r == prev_of(self.spec_tree(), self.spec_id()),
    ;

    fn to_node(&self, id: NodeId) -> (r: Self)
        requires
            self.valid(),
            id < self.spec_tree().links.len(),
        ensures
            r.valid(),
            r.spec_tree() == self.spec_tree(),
            r.spec_id() == Some(id),
    ;

    fn to_key(&self, key: Key) -> (r: Option<Self>)
        requires
            self.valid(),
        ensures
            match r {
                Some(p) => p.valid() && p.spec_tree() == self.spec_tree() && has_node(
                    self.spec_tree(),
                    p.spec_id(),
                ) && node_at(self.spec_tree(), p.spec_id()) == Some(NodeView::Document(key@)),
                None => forall|i: NodeId|
                    #![trigger node_at(self.spec_tree(), Some(i))]
                    node_at(self.spec_tree(), Some(i)) != Some(NodeView::Document(key@)),
            },
    ;

    fn at(&self, id: NodeId) -> (r: bool)
        requires
            self.valid(),
        ensures
            r == (self.spec_id() == Some(id)),
    {
        match self.id() {
            Some(i) => i == id,
            None => false,
        }
    }

    /// The key of the document that the node belongs to.
    fn node_key(&self) -> (r: Key)
        requires
            self.valid(),
            document_of(self.spec_tree(), self.spec_id()) is Some,
        ensures
            node_at(self.spec_tree(), document_of(self.spec_tree(), self.spec_id()))
                == Some(NodeView::Document(r@)),
    {
        proof {
            self.lemma_valid();
            lemma_document_of(self.spec_tree(), self.spec_id());
        }
        match self.to_document() {
            Some(d) => {
                proof {
                    d.lemma_valid();
                }
                match d.document_key() {
                    Some(k) => k,
                    None => {
                        assert(false);
                        Key::new("")
                    },
                }
            },
            None => {
                assert(false);
                Key::new("")
            },
        }
    }

    fn is_header(&self) -> (r: bool)
        requires
            self.valid(),
        ensures
            r == (!in_list(self.spec_tree(), self.spec_id()) && is_section_at(
                self.spec_tree(),
                self.spec_id(),
            )),
    {
        proof {
            self.lemma_valid();
        }
        !self.is_in_list() && self.is_section()
    }

    fn to_prev(&self) -> (r: Option<Self>)
        requires
            self.valid(),
        ensures
            match r {
                Some(q) => q.valid() && q.spec_tree() == self.spec_tree() && q.spec_id() == prev_of(
                    self.spec_tree(),
                    self.spec_id(),
                ) && q.spec_id() is Some,
                None => prev_of(self.spec_tree(), self.spec_id()) is None,
            },
    {
        proof {
            self.lemma_valid();
            lemma_prev_lt(self.spec_tree(), self.spec_id());
        }
        match self.prev_id() {
            Some(id) => Some(self.to_node(id)),
            None => None,
        }
    }

    fn to_next(&self) -> (r: Option<Self>)
        requires
            self.valid(),
        ensures
            match r {
                Some(q) => q.valid() && q.spec_tree() == self.spec_tree() && q.spec_id() == next_of(
                    self.spec_tree(),
                    self.spec_id(),
                ) && q.spec_id() is Some,
                None => next_of(self.spec_tree(), self.spec_id()) is None,
            },
    {
        proof {
            self.lemma_valid();
            lemma_prev_lt(self.spec_tree(), self.spec_id());
        }
        match self.next_id() {
            Some(id) => Some(self.to_node(id)),
            None => None,
        }
    }

    fn to_child(&self) -> (r: Option<Self>)
        requires
            self.valid(),
        ensures
            match r {
                Some(q) => q.valid() && q.spec_tree() == self.spec_tree() && q.spec_id()
                    == child_of(self.spec_tree(), self.spec_id()) && q.spec_id() is Some,
                None => child_of(self.spec_tree(), self.spec_id()) is None,
            },
    {
        proof {
            self.lemma_valid();
            lemma_prev_lt(self.spec_tree(), self.spec_id());
        }
        match self.child_id() {
            Some(id) => Some(self.to_node(id)),
            None => None,
        }
    }

    /// The ids of the sections among this node and the nodes after it.
    fn get_next_sections(&self) -> (r: Vec<NodeId>)
        requires
            self.valid(),
        ensures
            r@ == next_sections(self.spec_tree(), self.spec_id()),
    {
        let ghost t = self.spec_tree();
        let mut sections: Vec<NodeId> = Vec::new();
        proof {
            self.lemma_valid();
            lemma_prev_lt(t, self.spec_id());
        }
        if self.is_section() {
            match self.id() {
                Some(id) => sections.push(id),
                None => {},
            }
        }
        let mut cur = match self.to_next() {
            Some(next) => next,
            None => {
                return sections;
            },
        };
        loop
            invariant
                t == self.spec_tree(),
                tree_wf(t),
                cur.valid(),
                cur.spec_tree() == t,
                cur.spec_id() is Some,
                sections@ + next_sections(t, cur.spec_id()) == next_sections(t, self.spec_id()),
            decreases rest(t, cur.spec_id()),
        {
            proof {
                cur.lemma_valid();
                lemma_prev_lt(t, cur.spec_id());
            }
            let ghost before = sections@;
            if cur.is_section() {
                match cur.id() {
                    Some(id) => sections.push(id),
                    None => {},
                }
            }
            match cur.to_next() {
                Some(next) => {
                    assert(sections@ + next_sections(t, next.spec_id()) =~= before
                        + next_sections(t, cur.spec_id()));
                    cur = next;
                },
                None => {
                    assert(sections@ =~= before + next_sections(t, cur.spec_id()));
                    return sections;
                },
            }
        }
    }

    fn ref_key(&self) -> (r: Option<Key>)
        requires
            self.valid(),
        ensures
            match self.spec_node() {
                Some(NodeView::Reference(reference)) => r matches Some(k) && k@ == reference.key,
                _ => r is None,
            },
    {
        match self.node() {
            Some(Node::Reference(reference)) => Some(reference.key),
            _ => None,
        }
    }

    fn document_key(&self) -> (r: Option<Key>)
        requires
            self.valid(),
        ensures
            match self.spec_node() {
                Some(NodeView::Document(key)) => r matches Some(k) && k@ == key,
                _ => r is None,
            },
    {
        match self.node() {
            Some(Node::Document(key)) => Some(key),
            _ => None,
        }
    }

    /// A section that comes first in its document.
    fn is_primary_section(&self) -> (r: bool)
        requires
            self.valid(),
        ensures
            r == (is_section_at(self.spec_tree(), self.spec_id()) && is_document_at(
                self.spec_tree(),
                prev_of(self.spec_tree(), self.spec_id()),
            )),
    {
        proof {
            self.lemma_valid();
        }
        if !self.is_section() {
            return false;
        }
        match self.to_prev() {
            Some(p) => {
                proof {
                    p.lemma_valid();
                }
                p.is_document()
            },
            None => false,
        }
    }

    fn to_parent(&self) -> (r: Option<Self>)
        requires
            self.valid(),
        ensures
            match r {
                Some(q) => q.valid() && q.spec_tree() == self.spec_tree() && q.spec_id()
                    == parent_of(self.spec_tree(), self.spec_id()) && q.spec_id() is Some,
                None => parent_of(self.spec_tree(), self.spec_id()) is None,
            },
    {
        let ghost t = self.spec_tree();
        proof {
            self.lemma_valid();
            lemma_prev_lt(t, self.spec_id());
        }
        let mut cur = match self.to_prev() {
            Some(prev) => {
                match self.id() {
                    Some(id) => {
                        if prev.is_parent_of(id) {
                            return Some(prev);
                        }
                    },
                    None => {},
                }
                prev
            },
            None => {
                return None;
            },
        };
        loop
            invariant
                t == self.spec_tree(),
                tree_wf(t),
                cur.valid(),
                cur.spec_tree() == t,
                cur.spec_id() is Some,
                parent_of(t, cur.spec_id()) == parent_of(t, self.spec_id()),
            decreases rank(cur.spec_id()),
        {
            proof {
                cur.lemma_valid();
                lemma_prev_lt(t, cur.spec_id());
            }
            match cur.to_prev() {
                Some(prev) => {
                    match cur.id() {
                        Some(id) => {
                            if prev.is_parent_of(id) {
                                return Some(prev);
                            }
                        },
                        None => {},
                    }
                    cur = prev;
                },
                None => {
                    return None;
                },
            }
        }
    }

    fn to_self(&self) -> (r: Option<Self>)
        requires
            self.valid(),
        ensures
            match r {
                Some(q) => q.valid() && q.spec_tree() == self.spec_tree() && q.spec_id()
                    == self.spec_id() && q.spec_id() is Some,
                None => self.spec_id() is None,
            },
    {
        proof {
            self.lemma_valid();
        }
        match self.id() {
            Some(id) => Some(self.to_node(id)),
            None => None,
        }
    }

    fn get_list(&self) -> (r: Option<Self>)
        requires
            self.valid(),
        ensures
            match r {
                Some(q) => q.valid() && q.spec_tree() == self.spec_tree() && q.spec_id()
                    == list_of(self.spec_tree(), self.spec_id()) && q.spec_id() is Some,
                None => list_of(self.spec_tree(), self.spec_id()) is None,
            },
    {
        let ghost t = self.spec_tree();
        proof {
            self.lemma_valid();
            lemma_parent_lt(t, self.spec_id());
        }
        if self.is_ordered_list() || self.is_bullet_list() {
            return self.to_self();
        }
        if self.is_document() {
            return None;
        }
        let mut cur = match self.to_parent() {
            Some(p) => p,
            None => {
                return None;
            },
        };
        loop
            invariant
                t == self.spec_tree(),
                tree_wf(t),
                cur.valid(),
                cur.spec_tree() == t,
                cur.spec_id() is Some,
                list_of(t, cur.spec_id()) == list_of(t, self.spec_id()),
            decreases rank(cur.spec_id()),
        {
            proof {
                cur.lemma_valid();
                lemma_parent_lt(t, cur.spec_id());
            }
            if cur.is_ordered_list() || cur.is_bullet_list() {
                return cur.to_self();
            }
            if cur.is_document() {
                return None;
            }
            cur = match cur.to_parent() {
                Some(p) => p,
                None => {
                    return None;
                },
            };
        }
    }

    fn get_top_level_list(&self) -> (r: Option<Self>)
        requires
            self.valid(),
        ensures
            match r {
                Some(q) => q.valid() && q.spec_tree() == self.spec_tree() && q.spec_id()
                    == top_level_list_of(self.spec_tree(), self.spec_id()) && q.spec_id() is Some,
                None => top_level_list_of(self.spec_tree(), self.spec_id()) is None,
            },
    {
        let ghost t = self.spec_tree();
        proof {
            self.lemma_valid();
            lemma_parent_lt(t, self.spec_id());
        }
        let parent = self.to_parent();
        if self.is_list() {
            let parent_in_list = match &parent {
                Some(q) => q.is_in_list(),
                None => false,
            };
            if !parent_in_list {
                return self.to_self();
            }
        }
        if self.is_document() {
            return None;
        }
        let mut cur = match parent {
            Some(p) => p,
            None => {
                return None;
            },
        };
        loop
            invariant
                t == self.spec_tree(),
                tree_wf(t),
                cur.valid(),
                cur.spec_tree() == t,
                cur.spec_id() is Some,
                top_level_list_of(t, cur.spec_id()) == top_level_list_of(t, self.spec_id()),
            decreases rank(cur.spec_id()),
        {
            proof {
                cur.lemma_valid();
                lemma_parent_lt(t, cur.spec_id());
            }
            let parent = cur.to_parent();
            if cur.is_list() {
                let parent_in_list = match &parent {
                    Some(q) => q.is_in_list(),
                    None => false,
                };
                if !parent_in_list {
                    return cur.to_self();
                }
            }
            if cur.is_document() {
                return None;
            }
            cur = match parent {
                Some(p) => p,
                None => {
                    return None;
                },
            };
        }
    }

    fn to_document(&self) -> (r: Option<Self>)
        requires
            self.valid(),
        ensures
            match r {
                Some(q) => q.valid() && q.spec_tree() == self.spec_tree() && q.spec_id()
                    == document_of(self.spec_tree(), self.spec_id()) && q.spec_id() is Some,
                None => document_of(self.spec_tree(), self.spec_id()) is None,
            },
    {
        let ghost t = self.spec_tree();
        proof {
            self.lemma_valid();
            lemma_prev_lt(t, self.spec_id());
        }
        if self.is_document() {
            return self.to_self();
        }
        let mut cur = match self.to_prev() {
            Some(p) => p,
            None => {
                return None;
            },
        };
        loop
            invariant
                t == self.spec_tree(),
                tree_wf(t),
                cur.valid(),
                cur.spec_tree() == t,
                cur.spec_id() is Some,
                document_of(t, cur.spec_id()) == document_of(t, self.spec_id()),
            decreases rank(cur.spec_id()),
        {
            proof {
                cur.lemma_valid();
                lemma_prev_lt(t, cur.spec_id());
            }
            if cur.is_document() {
                return cur.to_self();
            }
            cur = match cur.to_prev() {
                Some(p) => p,
                None => {
                    return None;
                },
            };
        }
    }

    fn is_parent_of(&self, other: NodeId) -> (r: bool)
        requires
            self.valid(),
        ensures
            r == (child_of(self.spec_tree(), self.spec_id()) == Some(other)),
    {
        match self.child_id() {
            Some(c) => c == other,
            None => false,
        }
    }

    /// The ids of the children of the node, in order.
    fn get_sub_nodes(&self) -> (r: Vec<NodeId>)
        requires
            self.valid(),
        ensures
            r@ == match child_of(self.spec_tree(), self.spec_id()) {
                Some(c) => next_nodes(self.spec_tree(), Some(c)),
                None => Seq::empty(),
            },
    {
        match self.to_child() {
            Some(child) => child.get_next_nodes(),
            None => Vec::new(),
        }
    }

    fn get_all_sub_nodes(&self) -> (r: Vec<NodeId>)
        requires
            self.valid(),
        ensures
            r@ == all_sub_nodes(self.spec_tree(), self.spec_id()),
    {
        let ghost t = self.spec_tree();
        proof {
            self.lemma_valid();
            lemma_prev_lt(t, self.spec_id());
        }
        let first: NodeId = match self.id() {
            Some(id) => id,
            None => 0,
        };
        let mut nodes: Vec<NodeId> = vec![first];
        let mut stack: Vec<NodeId> = Vec::new();
        match self.next_id() {
            Some(n) => stack.push(n),
            None => {},
        }
        match self.child_id() {
            Some(c) => stack.push(c),
            None => {},
        }
        assert(nodes@ + pending_nodes(t, stack@) =~= all_sub_nodes(t, self.spec_id())) by {
            reveal_with_fuel(pending_nodes, 3);
        }
        while stack.len() > 0
            invariant
                tree_wf(t),
                self.valid(),
                self.spec_tree() == t,
                forall|i: int| 0 <= i < stack@.len() ==> #[trigger] stack@[i] < t.links.len(),
                nodes@ + pending_nodes(t, stack@) == all_sub_nodes(t, self.spec_id()),
            decreases all_sub_nodes(t, self.spec_id()).len() - nodes@.len(),
        {
            let ghost before = stack@;
            let x = stack.pop().unwrap();
            let ghost base = stack@;
            assert(base == before.drop_last());
            let p = self.to_node(x);
            proof {
                p.lemma_valid();
                lemma_prev_lt(t, p.spec_id());
            }
            nodes.push(x);
            let ghost with_next = stack@;
            match p.next_id() {
                Some(n) => {
                    stack.push(n);
                    proof {
                        assert(stack@.drop_last() =~= base);
                        assert(pending_nodes(t, stack@) == all_sub_nodes(t, Some(n))
                            + pending_nodes(t, base));
                    }
                },
                None => {},
            }
            proof {
                assert(pending_nodes(t, stack@) == match next_of(t, Some(x)) {
                    Some(n) => all_sub_nodes(t, Some(n)),
                    None => Seq::empty(),
                } + pending_nodes(t, base)) by {
                    if next_of(t, Some(x)) is None {
                        assert(stack@ == base);
                        assert(Seq::<NodeId>::empty() + pending_nodes(t, base) =~= pending_nodes(
                            t,
                            base,
                        ));
                    }
                }
            }
            let ghost mid = stack@;
            match p.child_id() {
                Some(c) => {
                    stack.push(c);
                    proof {
                        assert(stack@.drop_last() =~= mid);
                        assert(pending_nodes(t, stack@) == all_sub_nodes(t, Some(c))
                            + pending_nodes(t, mid));
                    }
                },
                None => {},
            }
            proof {
                let below: Seq<NodeId> = match child_of(t, Some(x)) {
                    Some(c) => all_sub_nodes(t, Some(c)),
                    None => Seq::empty(),
                };
                let after: Seq<NodeId> = match next_of(t, Some(x)) {
                    Some(n) => all_sub_nodes(t, Some(n)),
                    None => Seq::empty(),
                };
                assert(pending_nodes(t, stack@) =~= below + after + pending_nodes(t, base));
                assert(all_sub_nodes(t, Some(x)) =~= seq![x] + below + after);
                assert(pending_nodes(t, before) == all_sub_nodes(t, Some(x)) + pending_nodes(
                    t,
                    base,
                ));
                assert(nodes@ + pending_nodes(t, stack@) =~= all_sub_nodes(t, self.spec_id()));
            }
        }
        assert(pending_nodes(t, stack@) =~= Seq::<NodeId>::empty());
        nodes
    }

    /// The ids of this node and the nodes after it.
    fn get_next_nodes(&self) -> (r: Vec<NodeId>)
        requires
            self.valid(),
        ensures
            r@ == next_nodes(self.spec_tree(), self.spec_id()),
    {
        let ghost t = self.spec_tree();
        let mut nodes: Vec<NodeId> = Vec::new();
        proof {
            self.lemma_valid();
            lemma_prev_lt(t, self.spec_id());
        }
        match self.id() {
            Some(id) => nodes.push(id),
            None => {},
        }
        let mut cur = match self.to_next() {
            Some(next) => next,
            None => {
                return nodes;
            },
        };
        loop
            invariant
                t == self.spec_tree(),
                tree_wf(t),
                cur.valid(),
                cur.spec_tree() == t,
                cur.spec_id() is Some,
                nodes@ + next_nodes(t, cur.spec_id()) == next_nodes(t, self.spec_id()),
            decreases rest(t, cur.spec_id()),
        {
            proof {
                cur.lemma_valid();
                lemma_prev_lt(t, cur.spec_id());
            }
            let ghost before = nodes@;
            match cur.id() {
                Some(id) => nodes.push(id),
                None => {},
            }
            match cur.to_next() {
                Some(next) => {
                    assert(nodes@ + next_nodes(t, next.spec_id()) =~= before + next_nodes(
                        t,
                        cur.spec_id(),
                    ));
                    cur = next;
                },
                None => {
                    assert(nodes@ =~= before + next_nodes(t, cur.spec_id()));
                    return nodes;
                },
            }
        }
    }

    /// The sections among the children of a section.
    fn get_sub_sections(&self) -> (r: Vec<NodeId>)
        requires
            self.valid(),
            is_section_at(self.spec_tree(), self.spec_id()),
        ensures
            r@ == match child_of(self.spec_tree(), self.spec_id()) {
                Some(c) => next_sections(self.spec_tree(), Some(c)),
                None => Seq::empty(),
            },
    {
        match self.to_child() {
            Some(child) => child.get_next_sections(),
            None => Vec::new(),
        }
    }

    fn to_first_section_at_the_same_level(&self) -> (r: Self)
        requires
            self.valid(),
            self.spec_id() is Some,
        ensures
            r.valid(),
            r.spec_tree() == self.spec_tree(),
            r.spec_id() == first_section_at_same_level(self.spec_tree(), self.spec_id()),
    {
        let ghost t = self.spec_tree();
        proof {
            self.lemma_valid();
        }
        let id = match self.id() {
            Some(id) => id,
            None => {
                assert(false);
                0
            },
        };
        let mut cur = self.to_node(id);
        loop
            invariant
                t == self.spec_tree(),
                tree_wf(t),
                cur.valid(),
                cur.spec_tree() == t,
                cur.spec_id() is Some,
                first_section_at_same_level(t, cur.spec_id()) == first_section_at_same_level(
                    t,
                    self.spec_id(),
                ),
            decreases rank(cur.spec_id()),
        {
            proof {
                cur.lemma_valid();
                lemma_prev_lt(t, cur.spec_id());
            }
            let cur_id = match cur.id() {
                Some(i) => i,
                None => {
                    assert(false);
                    0
                },
            };
            match cur.to_prev() {
                Some(prev) => {
                    proof {
                        prev.lemma_valid();
                    }
                    if prev.is_section() && prev.is_prev_of(cur_id) {
                        cur = prev;
                    } else {
                        return cur;
                    }
                },
                None => {
                    return cur;
                },
            }
        }
    }

    fn is_prev_of(&self, other: NodeId) -> (r: bool)
        requires
            self.valid(),
        ensures
            r == (next_of(self.spec_tree(), self.spec_id()) == Some(other)),
    {
        match self.next_id() {
            Some(n) => n == other,
            None => false,
        }
    }

    fn is_in_list(&self) -> (r: bool)
        requires
            self.valid(),
        ensures
            r == in_list(self.spec_tree(), self.spec_id()),
    {
        let ghost t = self.spec_tree();
        proof {
            self.lemma_valid();
            lemma_parent_lt(t, self.spec_id());
        }
        if self.is_ordered_list() || self.is_bullet_list() {
            return true;
        }
        if self.is_document() {
            return false;
        }
        let mut cur = match self.to_parent() {
            Some(p) => p,
            None => {
                return false;
            },
        };
        loop
            invariant
                t == self.spec_tree(),
                tree_wf(t),
                cur.valid(),
                cur.spec_tree() == t,
                cur.spec_id() is Some,
                in_list(t, cur.spec_id()) == in_list(t, self.spec_id()),
            decreases rank(cur.spec_id()),
        {
            proof {
                cur.lemma_valid();
                lemma_parent_lt(t, cur.spec_id());
            }
            if cur.is_ordered_list() || cur.is_bullet_list() {
                return true;
            }
            if cur.is_document() {
                return false;
            }
            cur = match cur.to_parent() {
                Some(p) => p,
                None => {
                    return false;
                },
            };
        }
    }

    fn get_section(&self) -> (r: Option<Self>)
        requires
            self.valid(),
        ensures
            match r {
                Some(q) => q.valid() && q.spec_tree() == self.spec_tree() && q.spec_id()
                    == section_of(self.spec_tree(), self.spec_id()) && q.spec_id() is Some,
                None => section_of(self.spec_tree(), self.spec_id()) is None,
            },
    {
        let ghost t = self.spec_tree();
        proof {
            self.lemma_valid();
            lemma_parent_lt(t, self.spec_id());
        }
        if self.is_section() && !self.is_in_list() {
            return self.to_self();
        }
        if self.is_document() {
            return None;
        }
        let mut cur = match self.to_parent() {
            Some(p) => p,
            None => {
                return None;
            },
        };
        loop
            invariant
                t == self.spec_tree(),
                tree_wf(t),
                cur.valid(),
                cur.spec_tree() == t,
                cur.spec_id() is Some,
                section_of(t, cur.spec_id()) == section_of(t, self.spec_id()),
            decreases rank(cur.spec_id()),
        {
            proof {
                cur.lemma_valid();
                lemma_parent_lt(t, cur.spec_id());
            }
            if cur.is_section() && !cur.is_in_list() {
                return cur.to_self();
            }
            if cur.is_document() {
                return None;
            }
            cur = match cur.to_parent() {
                Some(p) => p,
                None => {
                    return None;
                },
            };
        }
    }
}

} // verus!
