use vstd::prelude::*;

use super::{line_at, node_ok, Graph, GraphNodeKind};
use crate::model::inline::{inlines_ref_keys, line_ref_keys};
use crate::model::{Key, NodeId};

verus! {

/// The nodes that refer to one key.
struct RefEntry {
    key: Key,
    ids: Vec<NodeId>,
}

/// The ids that the entries hold for a key.
spec fn refs_in(entries: Seq<RefEntry>, key: Seq<char>) -> Set<NodeId>
    decreases entries.len(),
{
    if entries.len() == 0 {
        Set::empty()
    } else {
        refs_in(entries.drop_last(), key).union(
            if entries.last().key@ == key {
                entries.last().ids@.to_set()
            } else {
                Set::empty()
            },
        )
    }
}

/// Each key has at most one entry, and an entry holds each id once.
spec fn entries_wf(entries: Seq<RefEntry>) -> bool {
    &&& forall|i: int, j: int|
        0 <= i < j < entries.len() ==> #[trigger] entries[i].key@ != #[trigger] entries[j].key@
    &&& forall|i: int| 0 <= i < entries.len() ==> (#[trigger] entries[i]).ids@.no_duplicates()
}

/// With one entry per key, the ids of a key are those of its entry.
proof fn lemma_refs_in_entry(entries: Seq<RefEntry>, key: Seq<char>, i: int)
    requires
        entries_wf(entries),
        0 <= i < entries.len(),
        entries[i].key@ == key,
    ensures
        refs_in(entries, key) == entries[i].ids@.to_set(),
    decreases entries.len(),
{
    if i == entries.len() - 1 {
        lemma_refs_in_absent(entries.drop_last(), key);
        assert(refs_in(entries, key) =~= entries[i].ids@.to_set());
    } else {
        assert(entries.drop_last()[i] == entries[i]);
        lemma_refs_in_entry(entries.drop_last(), key, i);
        assert(entries.last().key@ != key);
        assert(refs_in(entries, key) =~= entries[i].ids@.to_set());
    }
}

/// A key without an entry has no ids.
proof fn lemma_refs_in_absent(entries: Seq<RefEntry>, key: Seq<char>)
    requires
        forall|j: int| 0 <= j < entries.len() ==> #[trigger] entries[j].key@ != key,
    ensures
        refs_in(entries, key) == Set::<NodeId>::empty(),
    decreases entries.len(),
{
    if entries.len() > 0 {
        assert forall|j: int| 0 <= j < entries.drop_last().len() implies #[trigger] entries.drop_last()[j].key@
            != key by {
            assert(entries.drop_last()[j] == entries[j]);
        }
        lemma_refs_in_absent(entries.drop_last(), key);
        assert(refs_in(entries, key) =~= Set::<NodeId>::empty());
    }
}

/// The ids that the entries hold for a key, given that only the entry at `i` changed.
proof fn lemma_refs_in_update(
    old_entries: Seq<RefEntry>,
    new_entries: Seq<RefEntry>,
    i: int,
    key: Seq<char>,
)
    requires
        old_entries.len() == new_entries.len(),
        0 <= i < old_entries.len(),
        forall|j: int| 0 <= j < old_entries.len() && j != i ==> old_entries[j] == new_entries[j],
        old_entries[i].key@ == new_entries[i].key@,
    ensures
        old_entries[i].key@ != key ==> refs_in(new_entries, key) == refs_in(old_entries, key),
    decreases old_entries.len(),
{
    if old_entries[i].key@ != key {
        if i < old_entries.len() - 1 {
            lemma_refs_in_update(old_entries.drop_last(), new_entries.drop_last(), i, key);
            assert(refs_in(new_entries, key) =~= refs_in(old_entries, key));
        } else {
            assert(old_entries.drop_last() =~= new_entries.drop_last());
            assert(refs_in(new_entries, key) =~= refs_in(old_entries, key));
        }
    }
}

/// The position of the entry of a key.
fn find_entry(entries: &Vec<RefEntry>, key: &Key) -> (r: Option<usize>)
    ensures
        match r {
            Some(i) => i < entries@.len() && entries@[i as int].key@ == key@,
            None => forall|j: int| 0 <= j < entries@.len() ==> #[trigger] entries@[j].key@ != key@,
        },
{
    let mut i: usize = 0;
    while i < entries.len()
        invariant
            i <= entries@.len(),
            forall|j: int| 0 <= j < i ==> #[trigger] entries@[j].key@ != key@,
        decreases entries@.len() - i,
    {
        if entries[i].key.same(key) {
            return Some(i);
        }
        i = i + 1;
    }
    None
}

/// Whether a list of ids holds an id.
fn holds_id(ids: &Vec<NodeId>, id: NodeId) -> (r: bool)
    ensures
        r == ids@.contains(id),
{
    let mut i: usize = 0;
    while i < ids.len()
        invariant
            i <= ids@.len(),
            forall|j: int| 0 <= j < i ==> ids@[j] != id,
        decreases ids@.len() - i,
    {
        if ids[i] == id {
            return true;
        }
        i = i + 1;
    }
    false
}

/// Records that node `id` refers to `key`.
fn insert_ref(entries: &mut Vec<RefEntry>, key: &Key, id: NodeId)
    requires
        entries_wf(old(entries)@),
    ensures
        entries_wf(final(entries)@),
        forall|k: Seq<char>|
            #[trigger] refs_in(final(entries)@, k) == if k == key@ {
                refs_in(old(entries)@, k).insert(id)
            } else {
                refs_in(old(entries)@, k)
            },
{
    let ghost before = entries@;
    match find_entry(entries, key) {
        Some(i) => {
            proof {
                lemma_refs_in_entry(before, key@, i as int);
            }
            if !holds_id(&entries[i].ids, id) {
                let mut entry = entries.remove(i);
                entry.ids.push(id);
                entries.insert(i, entry);
                proof {
                    assert forall|j: int| 0 <= j < before.len() && j != i implies before[j]
                        == entries@[j] by {
                        if j < i {
                        } else {
                        }
                    }
                    assert(entries@[i as int].ids@ == before[i as int].ids@.push(id));
                    assert forall|a: int, b: int|
                        0 <= a < b < entries@.len() implies #[trigger] entries@[a].key@
                        != #[trigger] entries@[b].key@ by {
                        assert(before[a].key@ != before[b].key@);
                    }
                    assert forall|a: int|
                        0 <= a < entries@.len() implies (#[trigger] entries@[a]).ids@.no_duplicates() by {
                        if a != i {
                            assert(before[a].ids@.no_duplicates());
                        } else {
                            assert(before[a].ids@.no_duplicates());
                        }
                    }
                    lemma_refs_in_entry(entries@, key@, i as int);
                    assert forall|k: Seq<char>|
                        #[trigger] refs_in(entries@, k) == if k == key@ {
                            refs_in(before, k).insert(id)
                        } else {
                            refs_in(before, k)
                        } by {
                        if k == key@ {
                            before[i as int].ids@.lemma_push_to_set_commute(id);
                        } else {
                            lemma_refs_in_update(before, entries@, i as int, k);
                        }
                    }
                }
            } else {
                proof {
                    assert forall|k: Seq<char>|
                        #[trigger] refs_in(entries@, k) == if k == key@ {
                            refs_in(before, k).insert(id)
                        } else {
                            refs_in(before, k)
                        } by {
                        if k == key@ {
                            assert(refs_in(before, k).insert(id) =~= refs_in(before, k));
                        }
                    }
                }
            }
        },
        None => {
            let entry = RefEntry { key: key.copy(), ids: vec![id] };
            entries.push(entry);
            proof {
                assert(entries@.drop_last() == before);
                assert forall|k: Seq<char>|
                    #[trigger] refs_in(entries@, k) == if k == key@ {
                        refs_in(before, k).insert(id)
                    } else {
                        refs_in(before, k)
                    } by {
                    if k == key@ {
                        lemma_refs_in_absent(before, k);
                        assert(entries@.last().ids@.to_set() =~= set![id]);
                        assert(refs_in(entries@, k) =~= refs_in(before, k).insert(id));
                    } else {
                        assert(refs_in(entries@, k) =~= refs_in(before, k));
                    }
                }
                assert(entries@.last().ids@.no_duplicates());
            }
        },
    }
}

/// The ids recorded for a key, each once.
fn refs_to(entries: &Vec<RefEntry>, key: &Key) -> (r: Vec<NodeId>)
    requires
        entries_wf(entries@),
    ensures
        r@.to_set() == refs_in(entries@, key@),
        r@.no_duplicates(),
{
    match find_entry(entries, key) {
        Some(i) => {
            proof {
                lemma_refs_in_entry(entries@, key@, i as int);
            }
            let ids = &entries[i].ids;
            let mut r: Vec<NodeId> = Vec::new();
            let mut j: usize = 0;
            while j < ids.len()
                invariant
                    j <= ids@.len(),
                    r@ == ids@.take(j as int),
                decreases ids@.len() - j,
            {
                r.push(ids[j]);
                assert(ids@.take(j + 1) == ids@.take(j as int).push(ids@[j as int]));
                j = j + 1;
            }
            assert(ids@.take(ids@.len() as int) == ids@);
            assert(entries@[i as int].ids@.no_duplicates());
            r
        },
        None => {
            proof {
                lemma_refs_in_absent(entries@, key@);
            }
            let r: Vec<NodeId> = Vec::new();
            assert(r@.to_set() =~= Set::<NodeId>::empty());
            r
        },
    }
}

/// Indexing follows the first child of sections, documents, quotes and lists.
pub open spec fn follows_child(kind: GraphNodeKind) -> bool {
    match kind {
        GraphNodeKind::Section(_) => true,
        GraphNodeKind::Document(_) => true,
        GraphNodeKind::Quote => true,
        GraphNodeKind::BulletList => true,
        GraphNodeKind::TaskList => true,
        GraphNodeKind::OrderedList => true,
        _ => false,
    }
}

/// Indexing follows the next node of every node but documents, tables and empty nodes.
pub open spec fn follows_next(kind: GraphNodeKind) -> bool {
    match kind {
        GraphNodeKind::Document(_) => false,
        GraphNodeKind::Table(_, _, _) => false,
        GraphNodeKind::Empty => false,
        _ => true,
    }
}

/// Indexing records references, sections and leaves.
pub open spec fn is_recorded(kind: GraphNodeKind) -> bool {
    match kind {
        GraphNodeKind::Reference(_, _, _) => true,
        GraphNodeKind::Section(_) => true,
        GraphNodeKind::Leaf(_) => true,
        _ => false,
    }
}

/// The nodes that indexing from node `i` visits and records: references, sections and leaves
/// reached through the links that each kind of node is followed by.
pub open spec fn indexed_nodes(g: Graph, i: int) -> Set<NodeId>
    decreases g.nodes@.len() - i,
{
    if 0 <= i < g.nodes@.len() {
        let node = g.nodes@[i];
        let own: Set<NodeId> = if is_recorded(node.kind) {
            set![i as NodeId]
        } else {
            Set::empty()
        };
        let below: Set<NodeId> = match node.child_id {
            Some(c) => if follows_child(node.kind) && i < c < g.nodes@.len() {
                indexed_nodes(g, c as int)
            } else {
                Set::empty()
            },
            None => Set::empty(),
        };
        let after: Set<NodeId> = match node.next_id {
            Some(n) => if follows_next(node.kind) && i < n < g.nodes@.len() {
                indexed_nodes(g, n as int)
            } else {
                Set::empty()
            },
            None => Set::empty(),
        };
        own.union(below).union(after)
    } else {
        Set::empty()
    }
}

/// What indexing from a node reaches: the node itself when it is a reference, a section or
/// a leaf; everything reached from its first child when it is a section, a document, a quote
/// or a list; and everything reached from the node after it, unless it is a document, a
/// table or an empty node. So indexing a document reaches, among others, every reference
/// that follows another reference or a section, a leaf, a quote or a list.
pub proof fn law_indexing_reaches(g: Graph, i: int)
    requires
        g.wf(),
        0 <= i < g.nodes@.len(),
    ensures
        g.nodes@[i].kind is Reference || g.nodes@[i].kind is Section || g.nodes@[i].kind is Leaf
            ==> indexed_nodes(g, i).contains(i as NodeId),
        (g.nodes@[i].kind is Section || g.nodes@[i].kind is Document || g.nodes@[i].kind is Quote
            || g.nodes@[i].kind is BulletList || g.nodes@[i].kind is TaskList
            || g.nodes@[i].kind is OrderedList) && g.nodes@[i].child_id is Some ==> indexed_nodes(
            g,
            g.nodes@[i].child_id.unwrap() as int,
        ).subset_of(indexed_nodes(g, i)),
        !(g.nodes@[i].kind is Document || g.nodes@[i].kind is Table || g.nodes@[i].kind is Empty)
            && g.nodes@[i].next_id is Some ==> indexed_nodes(
            g,
            g.nodes@[i].next_id.unwrap() as int,
        ).subset_of(indexed_nodes(g, i)),
{
    assert(node_ok(g.nodes@, g.lines@.len(), i));
}

/// After indexing from a node, each reference block that indexing reaches is recorded for
/// the key it refers to, with what was recorded before.
pub proof fn law_indexed_reference_recorded(
    before: RefIndex,
    after: RefIndex,
    g: Graph,
    i: int,
    x: NodeId,
)
    requires
        forall|k: Seq<char>| #[trigger]
            after.block_refs(k) == before.block_refs(k).union(
                indexed_nodes(g, i).filter(|j: NodeId| is_block_ref(g, j, k)),
            ),
        indexed_nodes(g, i).contains(x),
        x < g.nodes@.len(),
        g.nodes@[x as int].kind is Reference,
    ensures
        after.block_refs(g.nodes@[x as int].kind->Reference_0@).contains(x),
{
    let k = g.nodes@[x as int].kind->Reference_0@;
    assert(is_block_ref(g, x, k));
    assert(after.block_refs(k) == before.block_refs(k).union(
        indexed_nodes(g, i).filter(|j: NodeId| is_block_ref(g, j, k)),
    ));
}

/// Node `j` is a reference block to `key`.
pub open spec fn is_block_ref(g: Graph, j: NodeId, key: Seq<char>) -> bool {
    &&& j < g.nodes@.len()
    &&& g.nodes@[j as int].kind matches GraphNodeKind::Reference(k, _, _) && k@ == key
}

/// Node `j` is a section or a leaf whose line refers to `key`.
pub open spec fn is_inline_ref(g: Graph, j: NodeId, key: Seq<char>) -> bool {
    j < g.nodes@.len() && match g.nodes@[j as int].kind {
        GraphNodeKind::Section(l) => inlines_ref_keys(line_at(g.lines@, l as int)).contains(key),
        GraphNodeKind::Leaf(l) => inlines_ref_keys(line_at(g.lines@, l as int)).contains(key),
        _ => false,
    }
}

/// An index of the nodes that refer to each document: reference blocks, and sections or
/// leaves whose text links to it.
pub struct RefIndex {
    block_references: Vec<RefEntry>,
    inline_references: Vec<RefEntry>,
}

impl RefIndex {
    /// Each key has at most one entry in each part, and an entry holds each id once.
    pub closed spec fn wf(&self) -> bool {
        entries_wf(self.block_references@) && entries_wf(self.inline_references@)
    }

    /// The reference blocks recorded for a key.
    pub closed spec fn block_refs(&self, key: Seq<char>) -> Set<NodeId> {
        refs_in(self.block_references@, key)
    }

    /// The sections and leaves recorded as linking to a key.
    pub closed spec fn inline_refs(&self, key: Seq<char>) -> Set<NodeId> {
        refs_in(self.inline_references@, key)
    }

    /// An empty index.
    pub fn new() -> (r: RefIndex)
        ensures
            r.wf(),
            forall|k: Seq<char>| #[trigger] r.block_refs(k) == Set::<NodeId>::empty(),
            forall|k: Seq<char>| #[trigger] r.inline_refs(k) == Set::<NodeId>::empty(),
    {
        RefIndex { block_references: Vec::new(), inline_references: Vec::new() }
    }

    /// Adds everything that `other` records.
    pub fn merge(&mut self, other: RefIndex)
        requires
            old(self).wf(),
        ensures
            final(self).wf(),
            forall|k: Seq<char>| #[trigger]
                final(self).block_refs(k) == old(self).block_refs(k).union(other.block_refs(k)),
            forall|k: Seq<char>| #[trigger]
                final(self).inline_refs(k) == old(self).inline_refs(k).union(other.inline_refs(k)),
    {
        merge_entries(&mut self.block_references, &other.block_references);
        merge_entries(&mut self.inline_references, &other.inline_references);
    }

    /// The reference blocks that refer to a key, each once.
    pub fn get_block_references_to(&self, key: &Key) -> (r: Vec<NodeId>)
        requires
            self.wf(),
        ensures
            r@.to_set() == self.block_refs(key@),
            r@.no_duplicates(),
    {
        refs_to(&self.block_references, key)
    }

    /// The sections and leaves that link to a key, each once.
    pub fn get_inline_references_to(&self, key: &Key) -> (r: Vec<NodeId>)
        requires
            self.wf(),
        ensures
            r@.to_set() == self.inline_refs(key@),
            r@.no_duplicates(),
    {
        refs_to(&self.inline_references, key)
    }

    /// Records the references among the nodes that indexing from `node_id` visits.
    pub fn index_node(&mut self, graph: &Graph, node_id: NodeId)
        requires
            old(self).wf(),
            graph.wf(),
            node_id < graph.len(),
        ensures
            final(self).wf(),
            forall|k: Seq<char>| #[trigger]
                final(self).block_refs(k) == old(self).block_refs(k).union(
                    indexed_nodes(*graph, node_id as int).filter(|j: NodeId| is_block_ref(*graph, j, k)),
                ),
            forall|k: Seq<char>| #[trigger]
                final(self).inline_refs(k) == old(self).inline_refs(k).union(
                    indexed_nodes(*graph, node_id as int).filter(|j: NodeId| is_inline_ref(*graph, j, k)),
                ),
        decreases graph.len() - node_id,
    {
        proof {
            assert(node_ok(graph.nodes@, graph.lines@.len(), node_id as int));
        }
        let ghost old_self = *self;
        let node = &graph.nodes[node_id];
        let ghost g = *graph;
        let ghost i = node_id as int;
        let ghost own: Set<NodeId> = if is_recorded(node.kind) {
            set![node_id]
        } else {
            Set::empty()
        };
        let ghost below: Set<NodeId> = match node.child_id {
            Some(c) => if follows_child(node.kind) {
                indexed_nodes(g, c as int)
            } else {
                Set::empty()
            },
            None => Set::empty(),
        };
        let ghost after: Set<NodeId> = match node.next_id {
            Some(n) => if follows_next(node.kind) {
                indexed_nodes(g, n as int)
            } else {
                Set::empty()
            },
            None => Set::empty(),
        };
        assert(indexed_nodes(g, i) == own.union(below).union(after));
        let mut follow_child = false;
        let mut follow_next = true;
        match &node.kind {
            GraphNodeKind::Reference(key, _, _) => {
                insert_ref(&mut self.block_references, key, node_id);
            },
            GraphNodeKind::Section(l) => {
                self.index_line(graph, node_id, *l);
                follow_child = true;
            },
            GraphNodeKind::Leaf(l) => {
                self.index_line(graph, node_id, *l);
            },
            GraphNodeKind::Document(_) => {
                follow_child = true;
                follow_next = false;
            },
            GraphNodeKind::Quote => {
                follow_child = true;
            },
            GraphNodeKind::BulletList => {
                follow_child = true;
            },
            GraphNodeKind::TaskList => {
                follow_child = true;
            },
            GraphNodeKind::OrderedList => {
                follow_child = true;
            },
            GraphNodeKind::Empty => {
                follow_next = false;
            },
            GraphNodeKind::Raw(_, _) => {},
            GraphNodeKind::HorizontalRule => {},
            GraphNodeKind::Table(_, _, _) => {
                follow_next = false;
            },
        }
        assert(follow_child == follows_child(node.kind));
        assert(follow_next == follows_next(node.kind));
        let ghost step1 = *self;
        proof {
            assert forall|k: Seq<char>| #[trigger]
                step1.block_refs(k) == old_self.block_refs(k).union(
                    own.filter(|j: NodeId| is_block_ref(g, j, k)),
                ) by {
                assert(step1.block_refs(k) =~= old_self.block_refs(k).union(
                    own.filter(|j: NodeId| is_block_ref(g, j, k)),
                ));
            }
            assert forall|k: Seq<char>| #[trigger]
                step1.inline_refs(k) == old_self.inline_refs(k).union(
                    own.filter(|j: NodeId| is_inline_ref(g, j, k)),
                ) by {
                assert(step1.inline_refs(k) =~= old_self.inline_refs(k).union(
                    own.filter(|j: NodeId| is_inline_ref(g, j, k)),
                ));
            }
        }
        if follow_child {
            match node.child_id {
                Some(c) => self.index_node(graph, c),
                None => {},
            }
        }
        let ghost step2 = *self;
        if follow_next {
            match node.next_id {
                Some(n) => self.index_node(graph, n),
                None => {},
            }
        }
        proof {
            assert forall|k: Seq<char>| #[trigger]
                self.block_refs(k) == old_self.block_refs(k).union(
                    indexed_nodes(g, i).filter(|j: NodeId| is_block_ref(g, j, k)),
                ) by {
                assert(step2.block_refs(k) =~= step1.block_refs(k).union(
                    below.filter(|j: NodeId| is_block_ref(g, j, k)),
                ));
                assert(self.block_refs(k) =~= step2.block_refs(k).union(
                    after.filter(|j: NodeId| is_block_ref(g, j, k)),
                ));
                assert(self.block_refs(k) =~= old_self.block_refs(k).union(
                    indexed_nodes(g, i).filter(|j: NodeId| is_block_ref(g, j, k)),
                ));
            }
            assert forall|k: Seq<char>| #[trigger]
                self.inline_refs(k) == old_self.inline_refs(k).union(
                    indexed_nodes(g, i).filter(|j: NodeId| is_inline_ref(g, j, k)),
                ) by {
                assert(step2.inline_refs(k) =~= step1.inline_refs(k).union(
                    below.filter(|j: NodeId| is_inline_ref(g, j, k)),
                ));
                assert(self.inline_refs(k) =~= step2.inline_refs(k).union(
                    after.filter(|j: NodeId| is_inline_ref(g, j, k)),
                ));
                assert(self.inline_refs(k) =~= old_self.inline_refs(k).union(
                    indexed_nodes(g, i).filter(|j: NodeId| is_inline_ref(g, j, k)),
                ));
            }
        }
    }

    /// Records that node `node_id` links to each key that line `l` refers to.
    fn index_line(&mut self, graph: &Graph, node_id: NodeId, l: usize)
        requires
            old(self).wf(),
            l < graph.lines@.len(),
        ensures
            final(self).wf(),
            forall|k: Seq<char>| #[trigger]
                final(self).block_refs(k) == old(self).block_refs(k),
            forall|k: Seq<char>| #[trigger]
                final(self).inline_refs(k) == if inlines_ref_keys(
                    line_at(graph.lines@, l as int),
                ).contains(k) {
                    old(self).inline_refs(k).insert(node_id)
                } else {
                    old(self).inline_refs(k)
                },
    {
        let keys = line_ref_keys(&graph.lines[l]);
        let ghost all_keys = keys@.map_values(|k: Key| k@);
        let ghost start = *self;
        let mut i: usize = 0;
        while i < keys.len()
            invariant
                i <= keys@.len(),
                self.wf(),
                all_keys == keys@.map_values(|k: Key| k@),
                forall|k: Seq<char>| #[trigger] self.block_refs(k) == start.block_refs(k),
                forall|k: Seq<char>| #[trigger]
                    self.inline_refs(k) == if all_keys.take(i as int).contains(k) {
                        start.inline_refs(k).insert(node_id)
                    } else {
                        start.inline_refs(k)
                    },
            decreases keys@.len() - i,
        {
            let ghost prev = *self;
            insert_ref(&mut self.inline_references, &keys[i], node_id);
            proof {
                assert(all_keys[i as int] == keys@[i as int]@);
                assert(self.block_references@ == prev.block_references@);
                assert forall|k: Seq<char>| #[trigger] self.block_refs(k) == start.block_refs(k) by {
                    assert(prev.block_refs(k) == start.block_refs(k));
                }
                assert(all_keys.take(i + 1) == all_keys.take(i as int).push(all_keys[i as int]));
                assert forall|k: Seq<char>| #[trigger]
                    self.inline_refs(k) == if all_keys.take(i + 1).contains(k) {
                        start.inline_refs(k).insert(node_id)
                    } else {
                        start.inline_refs(k)
                    } by {
                    assert(prev.inline_refs(k) == if all_keys.take(i as int).contains(k) {
                        start.inline_refs(k).insert(node_id)
                    } else {
                        start.inline_refs(k)
                    });
                    if all_keys.take(i + 1).contains(k) {
                        if !all_keys.take(i as int).contains(k) {
                            assert(k == all_keys[i as int]);
                        }
                        assert(self.inline_refs(k) =~= start.inline_refs(k).insert(node_id));
                    } else {
                        assert(all_keys.take(i + 1)[i as int] == all_keys[i as int]);
                        assert(k != keys@[i as int]@);
                    }
                }
            }
            i = i + 1;
        }
        assert(all_keys.take(keys@.len() as int) == all_keys);
    }
}

/// Adds the ids of every entry of `other` to `entries`.
fn merge_entries(entries: &mut Vec<RefEntry>, other: &Vec<RefEntry>)
    requires
        entries_wf(old(entries)@),
    ensures
        entries_wf(final(entries)@),
        forall|k: Seq<char>| #[trigger]
            refs_in(final(entries)@, k) == refs_in(old(entries)@, k).union(refs_in(other@, k)),
{
    let ghost start = entries@;
    let mut i: usize = 0;
    while i < other.len()
        invariant
            i <= other@.len(),
            entries_wf(entries@),
            forall|k: Seq<char>| #[trigger]
                refs_in(entries@, k) == refs_in(start, k).union(refs_in(other@.take(i as int), k)),
        decreases other@.len() - i,
    {
        let entry = &other[i];
        let ghost before = entries@;
        let mut j: usize = 0;
        while j < entry.ids.len()
            invariant
                j <= entry.ids@.len(),
                entries_wf(entries@),
                forall|k: Seq<char>| #[trigger]
                    refs_in(entries@, k) == refs_in(before, k).union(
                        if k == entry.key@ {
                            entry.ids@.take(j as int).to_set()
                        } else {
                            Set::empty()
                        },
                    ),
            decreases entry.ids@.len() - j,
        {
            insert_ref(entries, &entry.key, entry.ids[j]);
            proof {
                assert forall|k: Seq<char>| #[trigger]
                    refs_in(entries@, k) == refs_in(before, k).union(
                        if k == entry.key@ {
                            entry.ids@.take(j + 1).to_set()
                        } else {
                            Set::empty()
                        },
                    ) by {
                    if k == entry.key@ {
                        assert(entry.ids@.take(j + 1) == entry.ids@.take(j as int).push(
                            entry.ids@[j as int],
                        ));
                        entry.ids@.take(j as int).lemma_push_to_set_commute(entry.ids@[j as int]);
                        assert(refs_in(entries@, k) =~= refs_in(before, k).union(
                            entry.ids@.take(j + 1).to_set(),
                        ));
                    } else {
                        assert(refs_in(entries@, k) =~= refs_in(before, k).union(Set::empty()));
                    }
                }
            }
            j = j + 1;
        }
        proof {
            assert(entry.ids@.take(entry.ids@.len() as int) == entry.ids@);
            assert(other@.take(i + 1).drop_last() == other@.take(i as int));
            assert forall|k: Seq<char>| #[trigger]
                refs_in(entries@, k) == refs_in(start, k).union(refs_in(other@.take(i + 1), k)) by {
                assert(refs_in(entries@, k) =~= refs_in(start, k).union(
                    refs_in(other@.take(i + 1), k),
                ));
            }
        }
        i = i + 1;
    }
    assert(other@.take(other@.len() as int) == other@);
}

} // verus!
