use vstd::prelude::*;

use itertools::Itertools;
use std::ops::Range;

use super::builder::{extends, lemma_extends_trans, GraphBuilder};
use super::builder::placed;
use super::{
    GraphNode, descends, node_ok, lemma_descends_stable, lemma_descends_via_parent, line_at, parent_in, within, Graph,
    GraphNodeKind,
};
use crate::model::document::{
    block_line_range, block_ok, block_section_text, blocks_ok, graph_inlines_seq, is_ref_block,
    filled, filled_items, filled_seq, filled_task_items, key_parent, lemma_blocks_ok,
    lemma_filled_items, lemma_filled_seq, lemma_filled_task_items, lemma_items_ok,
    lemma_plain_divs_items, lemma_plain_divs_seq,
    lemma_plain_divs_task_items, lemma_task_items_ok, list_headed, plain_divs, plain_divs_items,
    plain_divs_seq, plain_divs_task_items, rel_link_key, to_graph_inlines, DocumentBlock,
    DocumentBlocks, DocumentInline,
};
use crate::model::inline::{inlines_view, GraphInline, InlineView};
use crate::model::node::duplicate_alignment;
use crate::model::{Key, LineId, LineRange, NodeId};

verus! {

/// For each node made from a block, the lines of the source that the block spans.
pub type NodesMap = Vec<(NodeId, LineRange)>;

/// Turns the blocks of a document into sections: the blocks before the first header go in
/// place, and each header starts a section that holds the blocks up to the next header of
/// the same or a higher level.
pub struct SectionsBuilder {
    builder: GraphBuilder,
    nodes_map: NodesMap,
    key: Key,
}

/// Block `b` is a header of level `level` or a higher level (a smaller number).
pub open spec fn is_header_upto(b: DocumentBlock, level: u8) -> bool {
    b matches DocumentBlock::Header(h) && h.level <= level
}

pub open spec fn is_header(b: DocumentBlock) -> bool {
    b is Header
}

pub open spec fn header_level(b: DocumentBlock) -> u8 {
    match b {
        DocumentBlock::Header(h) => h.level,
        _ => 0,
    }
}

/// A division whose first block is a list, at any depth: it makes no node of its own.
pub open spec fn div_list_headed(b: DocumentBlock) -> bool {
    b is Div && list_headed(b)
}

/// The fewest nodes that the blocks `start..end` of a section give: one for each block, but
/// none for a list that heads the section, whose items make the sections.
pub open spec fn section_weight(blocks: Seq<DocumentBlock>, start: int, end: int) -> int {
    if start < end {
        if list_headed(blocks[start]) {
            end - start - 1
        } else {
            end - start
        }
    } else {
        0
    }
}

/// The fewest nodes that the sections of list items give.
pub open spec fn items_weight(items: Seq<Vec<DocumentBlock>>) -> int
    decreases items.len(),
{
    if items.len() == 0 {
        0
    } else {
        items_weight(items.drop_last()) + section_weight(
            items.last()@,
            0,
            items.last()@.len() as int,
        )
    }
}

/// The fewest nodes that the sections of task items give.
pub open spec fn task_items_weight(items: Seq<(bool, Vec<DocumentBlock>)>) -> int
    decreases items.len(),
{
    if items.len() == 0 {
        0
    } else {
        task_items_weight(items.drop_last()) + section_weight(
            items.last().1@,
            0,
            items.last().1@.len() as int,
        )
    }
}

/// The first header in `start..end`.
pub open spec fn spec_first_header(content: Seq<DocumentBlock>, start: int, end: int) -> Option<
    int,
>
    decreases end - start,
{
    if start >= end || start >= content.len() {
        None
    } else if is_header(content[start]) {
        Some(start)
    } else {
        spec_first_header(content, start + 1, end)
    }
}

/// The ranges between consecutive positions, and from the last position to `end` when it
/// comes before `end`.
pub open spec fn spec_ranges(positions: Seq<usize>, end: usize) -> Seq<(usize, usize)> {
    if positions.len() == 0 {
        Seq::empty()
    } else {
        let inner = Seq::new(
            (positions.len() - 1) as nat,
            |i: int| (positions[i], positions[i + 1]),
        );
        if positions.last() < end {
            inner.push((positions.last(), end))
        } else {
            inner
        }
    }
}

pub open spec fn range_pairs(r: Seq<Range<usize>>) -> Seq<(usize, usize)> {
    r.map_values(|x: Range<usize>| (x.start, x.end))
}

/// Whether a block is a header of level `level` or a higher level.
pub fn header_upto(b: &DocumentBlock, level: u8) -> (r: bool)
    ensures
        r == is_header_upto(*b, level),
{
    match b {
        DocumentBlock::Header(h) => h.level <= level,
        _ => false,
    }
}

/// The positions, in increasing order, of the headers of level `level` or a higher level.
///
/// Calls `Itertools::positions` of itertools with a closure that asks `header_upto`, then
/// `Itertools::collect_vec`. Trusted: the result holds, in increasing order, exactly the
/// indices whose block passes `header_upto`, as the documentation of `positions` states.
#[verifier::external_body]
fn header_positions(content: &DocumentBlocks, level: u8) -> (r: Vec<usize>)
    ensures
        forall|i: int|
            0 <= i < r@.len() ==> #[trigger] r@[i] < content@.len() && is_header_upto(
                content@[r@[i] as int],
                level,
            ),
        forall|i: int, j: int| 0 <= i < j < r@.len() ==> #[trigger] r@[i] < #[trigger] r@[j],
        forall|k: int|
            0 <= k < content@.len() && #[trigger] is_header_upto(content@[k], level) ==> r@.contains(
                k as usize,
            ),
{
    content.iter().positions(|x| header_upto(x, level)).collect_vec()
}

/// The positions that lie in `lo..=hi`, in the same order.
fn positions_between(all: Vec<usize>, lo: usize, hi: usize) -> (r: Vec<usize>)
    ensures
        r@ == all@.filter(|x: usize| lo <= x && x <= hi),
{
    let mut r: Vec<usize> = Vec::new();
    let mut i: usize = 0;
    while i < all.len()
        invariant
            i <= all@.len(),
            r@ == all@.take(i as int).filter(|x: usize| lo <= x && x <= hi),
        decreases all@.len() - i,
    {
        let x = all[i];
        proof {
            assert(all@.take(i + 1) == all@.take(i as int).push(x));
            all@.take(i as int).lemma_filter_push(x, |x: usize| lo <= x && x <= hi);
        }
        if lo <= x && x <= hi {
            r.push(x);
        }
        i = i + 1;
    }
    assert(all@.take(all@.len() as int) == all@);
    r
}

fn ranges(positions: Vec<usize>, end: usize) -> (r: Vec<Range<usize>>)
    ensures
        range_pairs(r@) == spec_ranges(positions@, end),
{
    let mut ranges: Vec<Range<usize>> = Vec::new();
    if positions.len() == 0 {
        assert(range_pairs(ranges@) =~= spec_ranges(positions@, end));
        return ranges;
    }
    let ghost inner = Seq::new(
        (positions@.len() - 1) as nat,
        |i: int| (positions@[i], positions@[i + 1]),
    );
    let mut i: usize = 0;
    while i < positions.len() - 1
        invariant
            positions@.len() > 0,
            i <= positions@.len() - 1,
            ranges@.len() == i,
            inner == Seq::new(
                (positions@.len() - 1) as nat,
                |i: int| (positions@[i], positions@[i + 1]),
            ),
            range_pairs(ranges@) == inner.take(i as int),
        decreases positions@.len() - 1 - i,
    {
        let ghost before = ranges@;
        ranges.push(positions[i]..positions[i + 1]);
        proof {
            assert(ranges@ == before.push(ranges@.last()));
            assert forall|a: int| 0 <= a < i + 1 implies #[trigger] range_pairs(ranges@)[a]
                == inner.take(i + 1)[a] by {
                if a < i {
                    assert(ranges@[a] == before[a]);
                    assert(range_pairs(before)[a] == inner.take(i as int)[a]);
                }
            }
            assert(range_pairs(ranges@) =~= inner.take(i + 1));
        }
        i = i + 1;
    }
    assert(inner.take(i as int) == inner);
    if positions[positions.len() - 1] < end {
        let ghost before = ranges@;
        ranges.push(positions[positions.len() - 1]..end);
        proof {
            assert(ranges@ == before.push(ranges@.last()));
            assert forall|a: int| 0 <= a < ranges@.len() implies #[trigger] range_pairs(ranges@)[a]
                == spec_ranges(positions@, end)[a] by {
                if a < before.len() {
                    assert(ranges@[a] == before[a]);
                    assert(range_pairs(before)[a] == inner[a]);
                }
            }
            assert(range_pairs(ranges@) =~= spec_ranges(positions@, end));
        }
    }
    ranges
}

/// Ranges between consecutive increasing positions, the last up to `end`, cut the span from
/// the first position to `end` into contiguous, non-empty ranges, in order.
pub proof fn law_ranges_partition(positions: Seq<usize>, end: usize)
    requires
        positions.len() > 0,
        forall|i: int, j: int| 0 <= i < j < positions.len() ==> positions[i] < positions[j],
        positions.last() <= end,
        positions[0] < end,
    ensures
        spec_ranges(positions, end).len() > 0,
        spec_ranges(positions, end)[0].0 == positions[0],
        spec_ranges(positions, end).last().1 == end,
        forall|i: int|
            0 <= i < spec_ranges(positions, end).len() ==> #[trigger] spec_ranges(
                positions,
                end,
            )[i].0 < spec_ranges(positions, end)[i].1,
        forall|i: int|
            0 <= i < spec_ranges(positions, end).len() - 1 ==> #[trigger] spec_ranges(
                positions,
                end,
            )[i].1 == spec_ranges(positions, end)[i + 1].0,
{
    let r = spec_ranges(positions, end);
    let n = positions.len();
    if positions.last() < end {
        assert(r.len() == n);
    } else {
        assert(n >= 2);
        assert(r.len() == n - 1);
    }
}

/// The index of the first header in a range.
pub fn first_header(range: Range<usize>, content: &DocumentBlocks) -> (r: Option<usize>)
    requires
        range.end <= content@.len() || exists|i: int|
            range.start <= i < range.end && i < content@.len() && #[trigger] is_header(
                content@[i],
            ),
    ensures
        match r {
            Some(i) => spec_first_header(content@, range.start as int, range.end as int) == Some(
                i as int,
            ),
            None => spec_first_header(content@, range.start as int, range.end as int) is None,
        },
{
    let mut i = range.start;
    while i < range.end
        invariant
            range.start <= i,
            range.end <= content@.len() || exists|j: int|
                i <= j < range.end && j < content@.len() && #[trigger] is_header(content@[j]),
            spec_first_header(content@, i as int, range.end as int) == spec_first_header(
                content@,
                range.start as int,
                range.end as int,
            ),
        decreases range.end - i,
    {
        match &content[i] {
            DocumentBlock::Header(_) => {
                return Some(i);
            },
            _ => {},
        }
        i = i + 1;
    }
    None
}

/// The level of the first header in a range.
pub fn first_header_level(range: Range<usize>, content: &DocumentBlocks) -> (r: Option<u8>)
    requires
        range.end <= content@.len() || exists|i: int|
            range.start <= i < range.end && i < content@.len() && #[trigger] is_header(
                content@[i],
            ),
    ensures
        match spec_first_header(content@, range.start as int, range.end as int) {
            Some(i) => r == Some(header_level(content@[i])),
            None => r is None,
        },
{
    let mut i = range.start;
    while i < range.end
        invariant
            range.start <= i,
            range.end <= content@.len() || exists|j: int|
                i <= j < range.end && j < content@.len() && #[trigger] is_header(content@[j]),
            spec_first_header(content@, i as int, range.end as int) == spec_first_header(
                content@,
                range.start as int,
                range.end as int,
            ),
        decreases range.end - i,
    {
        match &content[i] {
            DocumentBlock::Header(header) => {
                return Some(header.level);
            },
            _ => {},
        }
        i = i + 1;
    }
    None
}

/// The first header of a range is a header, no block before it in the range is one, and the
/// level that `first_header_level` gives is its level.
pub proof fn law_first_header(content: Seq<DocumentBlock>, start: int, end: int)
    ensures
        match spec_first_header(content, start, end) {
            Some(i) => start <= i < end && i < content.len() && is_header(content[i]) && forall|
                j: int,
            |
                start <= j < i ==> !is_header(#[trigger] content[j]),
            None => forall|j: int|
                start <= j < end && j < content.len() ==> !is_header(#[trigger] content[j]),
        },
    decreases end - start,
{
    if start < end && start < content.len() && !is_header(content[start]) {
        law_first_header(content, start + 1, end);
    }
}

/// What a step of building keeps: a well-formed builder, the nodes and lines built so far,
/// the key, and the recorded ranges.
pub open spec fn keeps(old: SectionsBuilder, new: SectionsBuilder) -> bool {
    &&& new.wf()
    &&& extends(old.spec_graph(), new.spec_graph())
    &&& new.spec_key() == old.spec_key()
    &&& old.spec_nodes_map().len() <= new.spec_nodes_map().len()
    &&& forall|i: int|
        0 <= i < old.spec_nodes_map().len() ==> #[trigger] new.spec_nodes_map()[i]
            == old.spec_nodes_map()[i]
    &&& forall|i: int|
        0 <= i < old.spec_graph().nodes@.len() ==> #[trigger] parent_in(
            new.spec_graph().nodes@,
            i,
        ) == parent_in(old.spec_graph().nodes@, i)
}

pub proof fn lemma_keeps_trans(a: SectionsBuilder, b: SectionsBuilder, c: SectionsBuilder)
    requires
        keeps(a, b),
        keeps(b, c),
    ensures
        keeps(a, c),
{
    lemma_extends_trans(a.spec_graph(), b.spec_graph(), c.spec_graph());
    assert forall|i: int| 0 <= i < a.spec_nodes_map().len() implies #[trigger] c.spec_nodes_map()[i]
        == a.spec_nodes_map()[i] by {
        assert(c.spec_nodes_map()[i] == b.spec_nodes_map()[i]);
    }
    assert forall|i: int| 0 <= i < a.spec_graph().nodes@.len() implies #[trigger] parent_in(
        c.spec_graph().nodes@,
        i,
    ) == parent_in(a.spec_graph().nodes@, i) by {
        assert(parent_in(c.spec_graph().nodes@, i) == parent_in(b.spec_graph().nodes@, i));
    }
}

/// `new` is `old` with one node added as the current node, holding a new line with the
/// value `line` (a section, or a leaf when `leaf` is set), and with `range` recorded for it.
pub open spec fn adds_line_node(
    old: SectionsBuilder,
    new: SectionsBuilder,
    line: Seq<InlineView>,
    range: LineRange,
    leaf: bool,
) -> bool {
    let og = old.spec_graph();
    let ng = new.spec_graph();
    let n = og.nodes@.len();
    let l = og.lines@.len();
    &&& ng.nodes@.len() == n + 1
    &&& ng.lines@.len() == l + 1
    &&& l <= usize::MAX
    &&& line_at(ng.lines@, l as int) == line
    &&& ng.nodes@[n as int].kind == if leaf {
        GraphNodeKind::Leaf(l as LineId)
    } else {
        GraphNodeKind::Section(l as LineId)
    }
    &&& new.spec_nodes_map() == old.spec_nodes_map().push((n as NodeId, range))
    &&& new.spec_builder().spec_id() == n
}

/// `new` is `old` with one node added as the current node, holding `kind`, and with `range`
/// recorded for it.
pub open spec fn adds_node(
    old: SectionsBuilder,
    new: SectionsBuilder,
    kind: GraphNodeKind,
    range: LineRange,
) -> bool {
    let n = old.spec_graph().nodes@.len();
    &&& new.spec_graph().nodes@.len() == n + 1
    &&& new.spec_graph().nodes@[n as int].kind == kind
    &&& new.spec_nodes_map() == old.spec_nodes_map().push((n as NodeId, range))
    &&& new.spec_builder().spec_id() == n
}

/// Whether `new` starts with a node holding `kind` after the nodes of `old`, and its builder is
/// back at that node.
pub open spec fn opens_node(old: SectionsBuilder, new: SectionsBuilder, kind: GraphNodeKind) -> bool {
    let n = old.spec_graph().nodes@.len();
    &&& new.spec_graph().nodes@.len() > n
    &&& new.spec_graph().nodes@[n as int].kind == kind
    &&& new.spec_builder().spec_id() == n
}

/// The nodes that `after` added over `before` all lie under node `c`.
pub open spec fn added_under(before: SectionsBuilder, after: SectionsBuilder, c: NodeId) -> bool {
    forall|x: int|
        before.spec_graph().nodes@.len() <= x < after.spec_graph().nodes@.len() ==> #[trigger] descends(
            after.spec_graph().nodes@,
            x,
            c,
        )
}

/// The next node of the builder goes under `c` or under a node that lies under `c`.
pub open spec fn adds_under(b: SectionsBuilder, c: NodeId) -> bool {
    within(b.spec_graph().nodes@, b.spec_builder().next_parent(), c)
}

/// The builder is at a node that lies under `c`: the next node goes under that node or
/// beside it.
pub open spec fn adds_deep_under(b: SectionsBuilder, c: NodeId) -> bool {
    let nodes = b.spec_graph().nodes@;
    let id = b.spec_builder().spec_id();
    if b.spec_builder().spec_insert() {
        descends(nodes, id as int, c)
    } else {
        within(nodes, parent_in(nodes, id as int), c)
    }
}

proof fn lemma_deep_adds(b: SectionsBuilder, c: NodeId)
    requires
        adds_deep_under(b, c),
    ensures
        adds_under(b, c),
        descends(b.spec_graph().nodes@, b.spec_builder().spec_id() as int, c),
{
    if !b.spec_builder().spec_insert() {
        lemma_descends_via_parent(b.spec_graph().nodes@, b.spec_builder().spec_id() as int, c);
    }
}

proof fn lemma_at_node_under(b: SectionsBuilder, c: NodeId)
    requires
        descends(b.spec_graph().nodes@, b.spec_builder().spec_id() as int, c),
    ensures
        adds_deep_under(b, c),
{
}

/// A node kept by `after` that lay under `c` in `before` still does.
proof fn lemma_under_kept(before: SectionsBuilder, after: SectionsBuilder, x: int, c: NodeId)
    requires
        keeps(before, after),
        0 <= x < before.spec_graph().nodes@.len(),
        descends(before.spec_graph().nodes@, x, c),
    ensures
        descends(after.spec_graph().nodes@, x, c),
{
    lemma_descends_stable(before.spec_graph().nodes@, after.spec_graph().nodes@, x, c);
}

proof fn lemma_added_under_trans(
    a: SectionsBuilder,
    b: SectionsBuilder,
    d: SectionsBuilder,
    c: NodeId,
)
    requires
        keeps(a, b),
        keeps(b, d),
        added_under(a, b, c),
        added_under(b, d, c),
    ensures
        added_under(a, d, c),
{
    assert forall|x: int|
        a.spec_graph().nodes@.len() <= x < d.spec_graph().nodes@.len() implies #[trigger] descends(
        d.spec_graph().nodes@,
        x,
        c,
    ) by {
        if x < b.spec_graph().nodes@.len() {
            lemma_under_kept(b, d, x, c);
        }
    }
}

/// Nodes added under a node that lies under `c` lie under `c`.
proof fn lemma_added_under_lift(
    before: SectionsBuilder,
    after: SectionsBuilder,
    h: NodeId,
    c: NodeId,
)
    requires
        added_under(before, after, h),
        within(after.spec_graph().nodes@, Some(h), c),
    ensures
        added_under(before, after, c),
{
    assert forall|x: int|
        before.spec_graph().nodes@.len() <= x < after.spec_graph().nodes@.len() implies #[trigger] descends(
        after.spec_graph().nodes@,
        x,
        c,
    ) by {
        crate::graph::lemma_descends_trans(after.spec_graph().nodes@, x, h, c);
    }
}

/// A node placed by a builder that adds under `c` lies under `c`, and the builder, now at
/// that node, adds below `c`.
proof fn lemma_placed_under(before: SectionsBuilder, after: SectionsBuilder, c: NodeId)
    requires
        before.wf(),
        placed(before.spec_builder(), after.spec_builder()),
        after.spec_graph().nodes@.len() == before.spec_graph().nodes@.len() + 1,
        after.spec_builder().spec_id() == before.spec_graph().nodes@.len(),
        !after.spec_builder().spec_insert(),
        adds_under(before, c),
    ensures
        descends(after.spec_graph().nodes@, before.spec_graph().nodes@.len() as int, c),
        adds_deep_under(after, c),
        added_under(before, after, c),
{
    let b = before.spec_graph().nodes@;
    let a = after.spec_graph().nodes@;
    let n = b.len() as int;
    let id = before.spec_builder().spec_id();
    let p = before.spec_builder().next_parent().unwrap();
    crate::graph::lemma_parent_before(b, id as int);
    assert(p < n);
    if p != c {
        lemma_descends_stable(b, a, p as int, c);
    }
}

/// After `after`, the builder stands at a child of `p` and adds the next node beside it, and
/// every node that `after` added over `before` lies under `p`.
pub open spec fn settled_under(before: SectionsBuilder, after: SectionsBuilder, p: NodeId) -> bool {
    &&& !after.spec_builder().spec_insert()
    &&& parent_in(after.spec_graph().nodes@, after.spec_builder().spec_id() as int) == Some(p)
    &&& added_under(before, after, p)
}

/// The integers `start..end`, in order.
pub open spec fn index_range(start: int, end: int) -> Seq<int> {
    Seq::new(
        if start < end {
            (end - start) as nat
        } else {
            0
        },
        |k: int| start + k,
    )
}

/// Whether block `i` of `start..end` starts a part of what `process_blocks` builds: each
/// block before the first header does, and so does each header of the first header's level
/// or a higher one; every other block belongs to the section of the header before it.
pub open spec fn is_part_head(content: Seq<DocumentBlock>, start: int, end: int, i: int) -> bool {
    match spec_first_header(content, start, end) {
        None => true,
        Some(h) => i < h || is_header_upto(content[i], header_level(content[h])),
    }
}

/// The blocks of `start..end` that start parts, in order.
pub open spec fn part_heads(content: Seq<DocumentBlock>, start: int, end: int) -> Seq<int> {
    index_range(start, end).filter(|i: int| is_part_head(content, start, end, i))
}

/// Where part `j` ends: where the next part starts, or at `end` for the last part.
pub open spec fn part_end(tops: Seq<NodeId>, j: int, end: int) -> int {
    if j + 1 < tops.len() {
        tops[j + 1] as int
    } else {
        end
    }
}

/// Whether the nodes `n0..end` fall into parts that start at `tops`, one after the other:
/// each part starts with a child of `p`, and its other nodes lie under that first node.
pub open spec fn parts_under(nodes: Seq<GraphNode>, n0: int, end: int, tops: Seq<NodeId>, p: NodeId) -> bool {
    &&& tops.len() == 0 ==> n0 == end
    &&& tops.len() > 0 ==> tops[0] == n0
    &&& forall|j: int| 0 <= j < tops.len() ==> n0 <= #[trigger] tops[j] < end
    &&& forall|j: int, k: int| 0 <= j < k < tops.len() ==> #[trigger] tops[j] < #[trigger] tops[k]
    &&& forall|j: int| 0 <= j < tops.len() ==> parent_in(nodes, #[trigger] tops[j] as int) == Some(p)
    &&& forall|j: int, x: int|
        #![trigger descends(nodes, x, tops[j])]
        0 <= j < tops.len() && tops[j] < x < part_end(tops, j, end) ==> descends(nodes, x, tops[j])
}

/// A step that adds, after the nodes of `before`, a child of `p` with other nodes under it,
/// adds one more part.
proof fn lemma_parts_extend(
    before: SectionsBuilder,
    after: SectionsBuilder,
    n0: int,
    tops: Seq<NodeId>,
    p: NodeId,
)
    requires
        keeps(before, after),
        before.spec_graph().nodes@.len() <= usize::MAX,
        parts_under(before.spec_graph().nodes@, n0, before.spec_graph().nodes@.len() as int, tops, p),
        before.spec_graph().nodes@.len() < after.spec_graph().nodes@.len(),
        parent_in(after.spec_graph().nodes@, before.spec_graph().nodes@.len() as int) == Some(p),
        forall|x: int|
            before.spec_graph().nodes@.len() < x < after.spec_graph().nodes@.len() ==> #[trigger] descends(
                after.spec_graph().nodes@,
                x,
                before.spec_graph().nodes@.len() as NodeId,
            ),
    ensures
        parts_under(
            after.spec_graph().nodes@,
            n0,
            after.spec_graph().nodes@.len() as int,
            tops.push(before.spec_graph().nodes@.len() as NodeId),
            p,
        ),
{
    let b = before.spec_graph().nodes@;
    let a = after.spec_graph().nodes@;
    let t = b.len() as NodeId;
    let nt = tops.push(t);
    assert forall|j: int| 0 <= j < nt.len() implies parent_in(a, #[trigger] nt[j] as int) == Some(p) by {
        if j < tops.len() {
            assert(nt[j] == tops[j]);
            assert(parent_in(a, tops[j] as int) == parent_in(b, tops[j] as int));
        }
    }
    assert forall|j: int, x: int|
        #![trigger descends(a, x, nt[j])]
        0 <= j < nt.len() && nt[j] < x < part_end(nt, j, a.len() as int) implies descends(a, x, nt[j]) by {
        if j < tops.len() {
            assert(nt[j] == tops[j]);
            assert(part_end(nt, j, a.len() as int) == part_end(tops, j, b.len() as int));
            assert(descends(b, x, tops[j]));
            lemma_under_kept(before, after, x, tops[j]);
        }
    }
    assert forall|j: int, k: int| 0 <= j < k < nt.len() implies #[trigger] nt[j] < #[trigger] nt[k] by {
        if k < tops.len() {
            assert(nt[j] == tops[j] && nt[k] == tops[k]);
        } else {
            assert(nt[j] == tops[j]);
        }
    }
}

/// Two increasing sequences with the same elements are equal.
proof fn lemma_sorted_eq(a: Seq<int>, b: Seq<int>)
    requires
        forall|i: int, j: int| 0 <= i < j < a.len() ==> #[trigger] a[i] < #[trigger] a[j],
        forall|i: int, j: int| 0 <= i < j < b.len() ==> #[trigger] b[i] < #[trigger] b[j],
        forall|x: int| a.contains(x) <==> b.contains(x),
    ensures
        a == b,
    decreases a.len(),
{
    if a.len() == 0 {
        if b.len() > 0 {
            assert(b.contains(b[0]));
        }
        assert(a =~= b);
    } else {
        assert(a.contains(a[0]));
        let kb = choose|k: int| 0 <= k < b.len() && b[k] == a[0];
        assert(b.contains(b[0]));
        let ka = choose|k: int| 0 <= k < a.len() && a[k] == b[0];
        if kb > 0 {
            assert(b[0] < b[kb]);
        }
        if ka > 0 {
            assert(a[0] < a[ka]);
        }
        assert(a[0] == b[0]);
        let ra = a.drop_first();
        let rb = b.drop_first();
        assert forall|x: int| ra.contains(x) <==> rb.contains(x) by {
            if ra.contains(x) {
                let i = choose|i: int| 0 <= i < ra.len() && ra[i] == x;
                assert(a[i + 1] == x);
                assert(a[0] < a[i + 1]);
                assert(a.contains(x));
                let k = choose|k: int| 0 <= k < b.len() && b[k] == x;
                assert(k != 0);
                assert(rb[k - 1] == x);
            }
            if rb.contains(x) {
                let i = choose|i: int| 0 <= i < rb.len() && rb[i] == x;
                assert(b[i + 1] == x);
                assert(b[0] < b[i + 1]);
                assert(b.contains(x));
                let k = choose|k: int| 0 <= k < a.len() && a[k] == x;
                assert(k != 0);
                assert(ra[k - 1] == x);
            }
        }
        assert forall|i: int, j: int| 0 <= i < j < ra.len() implies #[trigger] ra[i] < #[trigger] ra[j] by {
            assert(a[i + 1] < a[j + 1]);
        }
        assert forall|i: int, j: int| 0 <= i < j < rb.len() implies #[trigger] rb[i] < #[trigger] rb[j] by {
            assert(b[i + 1] < b[j + 1]);
        }
        lemma_sorted_eq(ra, rb);
        assert forall|i: int| 0 <= i < a.len() implies a[i] == b[i] by {
            if i > 0 {
                assert(a[i] == ra[i - 1]);
                assert(b[i] == rb[i - 1]);
            }
        }
        assert(a =~= b);
    }
}

/// Keeping the elements of an increasing sequence that pass a test leaves it increasing.
proof fn lemma_filter_increasing_int(s: Seq<int>, p: spec_fn(int) -> bool)
    requires
        forall|i: int, j: int| 0 <= i < j < s.len() ==> #[trigger] s[i] < #[trigger] s[j],
    ensures
        forall|i: int, j: int|
            0 <= i < j < s.filter(p).len() ==> #[trigger] s.filter(p)[i] < #[trigger] s.filter(
                p,
            )[j],
    decreases s.len(),
{
    if s.len() > 0 {
        lemma_filter_increasing_int(s.drop_last(), p);
        s.drop_last().lemma_filter_push(s.last(), p);
        assert(s.drop_last().push(s.last()) == s);
        let f = s.drop_last().filter(p);
        lemma_filter_elements(s.drop_last(), p);
        assert forall|a: int| 0 <= a < f.len() implies #[trigger] f[a] < s.last() by {
            let k = choose|k: int| 0 <= k < s.drop_last().len() && s.drop_last()[k] == f[a];
            assert(s.drop_last()[k] == s[k]);
            assert(s[k] < s[s.len() - 1]);
        }
    }
}

/// What a filter holds: the elements of the sequence that pass the test.
proof fn lemma_filter_contains_iff<A>(s: Seq<A>, p: spec_fn(A) -> bool, x: A)
    ensures
        s.filter(p).contains(x) <==> s.contains(x) && p(x),
{
    if s.filter(p).contains(x) {
        s.lemma_filter_contains_rev(p, x);
        let i = choose|i: int| 0 <= i < s.filter(p).len() && s.filter(p)[i] == x;
        s.lemma_filter_pred(p, i);
    }
    if s.contains(x) && p(x) {
        let i = choose|i: int| 0 <= i < s.len() && s[i] == x;
        s.lemma_filter_contains(p, i);
    }
}

proof fn lemma_index_range_contains(start: int, end: int, x: int)
    ensures
        index_range(start, end).contains(x) <==> start <= x < end,
{
    if start <= x < end {
        assert(index_range(start, end)[x - start] == x);
    }
}

/// The blocks that start parts are the blocks before the first header, then the headers of
/// the first header's level or a higher one (given in increasing order as `sections`).
proof fn lemma_part_heads(
    content: Seq<DocumentBlock>,
    start: int,
    end: int,
    pre_end: int,
    sections: Seq<int>,
)
    requires
        start < end,
        match spec_first_header(content, start, end) {
            None => pre_end == end && sections.len() == 0,
            Some(h) => pre_end == h,
        },
        forall|i: int, j: int|
            0 <= i < j < sections.len() ==> #[trigger] sections[i] < #[trigger] sections[j],
        forall|x: int|
            sections.contains(x) <==> (spec_first_header(content, start, end) matches Some(h) && h
                <= x < end && is_header_upto(content[x], header_level(content[h]))),
    ensures
        part_heads(content, start, end) == index_range(start, pre_end) + sections,
{
    law_first_header(content, start, end);
    let r = index_range(start, end);
    let f = |i: int| is_part_head(content, start, end, i);
    let t = index_range(start, pre_end) + sections;
    let pre = index_range(start, pre_end);
    assert forall|i: int, j: int| 0 <= i < j < r.len() implies #[trigger] r[i] < #[trigger] r[j] by {
    }
    lemma_filter_increasing_int(r, f);
    assert forall|i: int, j: int| 0 <= i < j < t.len() implies #[trigger] t[i] < #[trigger] t[j] by {
        if j < pre.len() {
        } else if i < pre.len() {
            assert(sections.contains(t[j]));
        } else {
            assert(t[i] == sections[i - pre.len()]);
            assert(t[j] == sections[j - pre.len()]);
        }
    }
    assert forall|x: int| r.filter(f).contains(x) <==> t.contains(x) by {
        lemma_filter_contains_iff(r, f, x);
        lemma_index_range_contains(start, end, x);
        lemma_index_range_contains(start, pre_end, x);
        if t.contains(x) {
            let k = choose|k: int| 0 <= k < t.len() && t[k] == x;
            if k < pre.len() {
                assert(pre.contains(x));
            } else {
                assert(sections[k - pre.len()] == x);
                assert(sections.contains(x));
            }
        }
        if pre.contains(x) {
            let k = choose|k: int| 0 <= k < pre.len() && pre[k] == x;
            assert(t[k] == x);
        }
        if sections.contains(x) {
            let k = choose|k: int| 0 <= k < sections.len() && sections[k] == x;
            assert(t[pre.len() + k] == x);
        }
    }
    lemma_sorted_eq(r.filter(f), t);
}

/// The parts that `process_blocks` built, one for each block before the first header and
/// one for each section, are one for each block that starts a part.
proof fn lemma_sections_law(
    b: SectionsBuilder,
    content: Seq<DocumentBlock>,
    start: usize,
    end: usize,
    lo: usize,
    level: u8,
    all_pos: Seq<usize>,
    pos: Seq<usize>,
    tops: Seq<NodeId>,
    n0: int,
    c: NodeId,
)
    requires
        start < end <= content.len(),
        spec_first_header(content, start as int, end as int) == Some(lo as int),
        level == header_level(content[lo as int]),
        forall|i: int|
            0 <= i < all_pos.len() ==> #[trigger] all_pos[i] < content.len() && is_header_upto(
                content[all_pos[i] as int],
                level,
            ),
        forall|k: int|
            0 <= k < content.len() && #[trigger] is_header_upto(content[k], level) ==> all_pos.contains(
                k as usize,
            ),
        forall|q: int| 0 <= q < pos.len() ==> all_pos.contains(#[trigger] pos[q]) && lo <= pos[q],
        forall|q: int| 0 <= q < pos.len() ==> #[trigger] pos[q] <= end,
        forall|x: usize| lo <= x < end && #[trigger] all_pos.contains(x) ==> pos.contains(x),
        forall|a: int, d: int| 0 <= a < d < pos.len() ==> #[trigger] pos[a] < #[trigger] pos[d],
        pos.len() > 0,
        parts_under(b.spec_graph().nodes@, n0, b.spec_graph().nodes@.len() as int, tops, c),
        tops.len() == (lo - start) + spec_ranges(pos, end).len(),
        forall|j: int|
            (lo - start) <= j < tops.len() ==> (#[trigger] b.spec_graph().nodes@[tops[j] as int]).kind is Section,
        parts_made(
            b,
            tops,
            content,
            index_range(start as int, lo as int) + pos.take(spec_ranges(pos, end).len() as int).map_values(
                |x: usize| x as int,
            ),
        ),
    ensures
        exists|tops: Seq<NodeId>|
            {
                &&& #[trigger] parts_under(
                    b.spec_graph().nodes@,
                    n0,
                    b.spec_graph().nodes@.len() as int,
                    tops,
                    c,
                )
                &&& tops.len() == part_heads(content, start as int, end as int).len()
                &&& forall|j: int|
                    0 <= j < tops.len() && is_header(
                        content[part_heads(content, start as int, end as int)[j]],
                    ) ==> (#[trigger] b.spec_graph().nodes@[tops[j] as int]).kind is Section
                &&& parts_made(b, tops, content, part_heads(content, start as int, end as int))
            },
{
    law_first_header(content, start as int, end as int);
    let m = spec_ranges(pos, end).len() as int;
    if pos.last() < end {
        assert(m == pos.len());
    } else {
        assert(m == pos.len() - 1);
        assert(pos.last() == end);
    }
    let sections = pos.take(m).map_values(|x: usize| x as int);
    assert forall|i: int, j: int| 0 <= i < j < sections.len() implies #[trigger] sections[i]
        < #[trigger] sections[j] by {
        assert(pos[i] < pos[j]);
    }
    assert forall|x: int|
        sections.contains(x) <==> (spec_first_header(content, start as int, end as int) matches Some(
            h,
        ) && h <= x < end && is_header_upto(content[x], header_level(content[h]))) by {
        if sections.contains(x) {
            let q = choose|q: int| 0 <= q < sections.len() && sections[q] == x;
            assert(all_pos.contains(pos[q]));
            let i = choose|i: int| 0 <= i < all_pos.len() && all_pos[i] == pos[q];
            assert(is_header_upto(content[all_pos[i] as int], level));
            if q < pos.len() - 1 {
                assert(pos[q] < pos[pos.len() - 1]);
            }
        }
        if lo <= x < end && is_header_upto(content[x], level) {
            assert(all_pos.contains(x as usize));
            assert(pos.contains(x as usize));
            let q = choose|q: int| 0 <= q < pos.len() && pos[q] == x as usize;
            if q == pos.len() - 1 && !(pos.last() < end) {
                assert(false);
            }
            assert(sections[q] == x);
        }
    }
    lemma_part_heads(content, start as int, end as int, lo as int, sections);
    let heads = part_heads(content, start as int, end as int);
    let pre = index_range(start as int, lo as int);
    assert forall|j: int|
        0 <= j < tops.len() && is_header(content[heads[j]]) implies (#[trigger] b.spec_graph().nodes@[tops[j] as int]).kind is Section by {
        if j < pre.len() {
            assert(heads[j] == start + j);
        }
    }
    assert(heads =~= pre + sections);
    assert(parts_made(b, tops, content, heads));
    assert(parts_under(b.spec_graph().nodes@, n0, b.spec_graph().nodes@.len() as int, tops, c));
}

/// The line, and the lines of the source, of the section that a block heads (when no list
/// heads it): the text of a paragraph, plain block or header, the first block's for a
/// division, and the plain text of any other block.
pub open spec fn head_line(b: DocumentBlock, parent: Seq<char>) -> (Seq<InlineView>, LineRange)
    decreases b,
{
    match b {
        DocumentBlock::Para(p) => (graph_inlines_seq(p.inlines@, parent), p.line_range),
        DocumentBlock::Plain(p) => (graph_inlines_seq(p.inlines@, parent), p.line_range),
        DocumentBlock::Header(h) => (graph_inlines_seq(h.inlines@, parent), h.line_range),
        DocumentBlock::Div(d) => if d.blocks@.len() > 0 {
            head_line(d.blocks@[0], parent)
        } else {
            (seq![InlineView::Str(block_section_text(b))], block_line_range(b))
        },
        _ => (seq![InlineView::Str(block_section_text(b))], block_line_range(b)),
    }
}

/// The blocks whose sections a block that heads a section makes beside each other: the block
/// itself, but for a list those of its items, and for a division headed by a list those of
/// its first block.
pub open spec fn head_blocks(b: DocumentBlock) -> Seq<DocumentBlock>
    decreases b,
{
    if !list_headed(b) {
        seq![b]
    } else {
        match b {
            DocumentBlock::BulletList(l) => items_head_blocks(l.items@),
            DocumentBlock::OrderedList(l) => items_head_blocks(l.items@),
            DocumentBlock::Div(d) => head_blocks(d.blocks@[0]),
            _ => seq![b],
        }
    }
}

/// The blocks whose sections list items make beside each other: those of the first block of
/// each item.
pub open spec fn items_head_blocks(items: Seq<Vec<DocumentBlock>>) -> Seq<DocumentBlock>
    decreases items,
{
    if items.len() == 0 {
        Seq::empty()
    } else {
        items_head_blocks(items.drop_last()) + if items.last()@.len() > 0 {
            head_blocks(items.last()@[0])
        } else {
            Seq::empty()
        }
    }
}

/// The blocks whose sections task items make beside each other.
pub open spec fn task_items_head_blocks(items: Seq<(bool, Vec<DocumentBlock>)>) -> Seq<DocumentBlock>
    decreases items,
{
    if items.len() == 0 {
        Seq::empty()
    } else {
        task_items_head_blocks(items.drop_last()) + if items.last().1@.len() > 0 {
            head_blocks(items.last().1@[0])
        } else {
            Seq::empty()
        }
    }
}

/// Node `x` of `b` is the section that `block` heads: it holds the block's line, and the
/// lines of the source that the block spans are recorded for it.
pub open spec fn sectioned_by(b: SectionsBuilder, x: int, block: DocumentBlock) -> bool {
    let nodes = b.spec_graph().nodes@;
    let line = head_line(block, key_parent(b.spec_key()@));
    &&& 0 <= x < nodes.len()
    &&& nodes[x].kind matches GraphNodeKind::Section(l) && line_at(b.spec_graph().lines@, l as int)
        == line.0
    &&& b.spec_nodes_map().contains((x as NodeId, line.1))
}

/// Node `x` of `b` is the node that `block` makes among other blocks: a header or a division
/// (not headed by a list) makes a section, a paragraph or a plain block a leaf (a reference
/// for a paragraph of one local link), a code or raw block a raw node, a list or quote a node
/// of its kind, a rule a rule, and a table a table of its cells' lines; the lines of the
/// source that the block spans are recorded for it, but for a list.
pub open spec fn made_by(b: SectionsBuilder, x: int, block: DocumentBlock) -> bool {
    let nodes = b.spec_graph().nodes@;
    let lines = b.spec_graph().lines@;
    let parent = key_parent(b.spec_key()@);
    let map = b.spec_nodes_map();
    let kind = nodes[x].kind;
    &&& 0 <= x < nodes.len()
    &&& match block {
        DocumentBlock::Header(_) | DocumentBlock::Div(_) => sectioned_by(b, x, block),
        DocumentBlock::Plain(p) => kind matches GraphNodeKind::Leaf(l) && line_at(lines, l as int)
            == graph_inlines_seq(p.inlines@, parent) && map.contains((x as NodeId, p.line_range)),
        DocumentBlock::Para(p) => map.contains((x as NodeId, p.line_range)) && (if is_ref_block(
            block,
        ) {
            let link = p.inlines@[0]->Link_0;
            kind matches GraphNodeKind::Reference(k, text, t) && k@ == rel_link_key(
                link.url@,
                parent,
            ) && text@ == crate::model::document::doc_inlines_text(link.inlines@) && t
                == crate::model::document::reference_type_of(link.link_type)
        } else {
            kind matches GraphNodeKind::Leaf(l) && line_at(lines, l as int) == graph_inlines_seq(
                p.inlines@,
                parent,
            )
        }),
        DocumentBlock::CodeBlock(c) => kind == GraphNodeKind::Raw(c.lang, c.text) && map.contains(
            (x as NodeId, c.line_range),
        ),
        DocumentBlock::RawBlock(r) => kind == GraphNodeKind::Raw(Some(r.format), r.text)
            && map.contains((x as NodeId, r.line_range)),
        DocumentBlock::HorizontalRule(h) => kind == GraphNodeKind::HorizontalRule && map.contains(
            (x as NodeId, h.line_range),
        ),
        DocumentBlock::BulletList(_) => kind == GraphNodeKind::BulletList,
        DocumentBlock::OrderedList(_) => kind == GraphNodeKind::OrderedList,
        DocumentBlock::TaskList(_) => kind == GraphNodeKind::TaskList,
        DocumentBlock::BlockQuote(q) => kind == GraphNodeKind::Quote && map.contains(
            (x as NodeId, q.line_range),
        ),
        DocumentBlock::Table(t) => map.contains((x as NodeId, t.line_range)) && (
        kind matches GraphNodeKind::Table(h, a, r) && a@ == t.alignment@ && h@.len()
            == t.header@.len() && (forall|j: int|
            0 <= j < h@.len() ==> line_at(lines, #[trigger] h@[j] as int) == graph_inlines_seq(
                t.header@[j]@,
                parent,
            )) && r@.len() == t.rows@.len() && (forall|i: int|
            0 <= i < r@.len() ==> (#[trigger] r@[i])@.len() == t.rows@[i]@.len()) && (forall|
            i: int,
            j: int,
        |
            0 <= i < r@.len() && 0 <= j < r@[i]@.len() ==> line_at(lines, #[trigger] r@[i]@[j] as int)
                == graph_inlines_seq(t.rows@[i]@[j]@, parent))),
    }
}

/// The nodes `tops` of `b` are the sections of the blocks `heads`, one for one, in order.
pub open spec fn sections_of(b: SectionsBuilder, tops: Seq<NodeId>, heads: Seq<DocumentBlock>) -> bool {
    &&& tops.len() == heads.len()
    &&& forall|j: int| 0 <= j < tops.len() ==> sectioned_by(b, #[trigger] tops[j] as int, heads[j])
}

proof fn lemma_sections_of_kept(
    a: SectionsBuilder,
    c: SectionsBuilder,
    tops: Seq<NodeId>,
    heads: Seq<DocumentBlock>,
)
    requires
        a.wf(),
        keeps(a, c),
        sections_of(a, tops, heads),
    ensures
        sections_of(c, tops, heads),
{
    assert forall|j: int| 0 <= j < tops.len() implies sectioned_by(c, #[trigger] tops[j] as int, heads[j]) by {
        lemma_sectioned_kept(a, c, tops[j] as int, heads[j]);
    }
}

proof fn lemma_sections_of_concat(
    b: SectionsBuilder,
    t1: Seq<NodeId>,
    h1: Seq<DocumentBlock>,
    t2: Seq<NodeId>,
    h2: Seq<DocumentBlock>,
)
    requires
        sections_of(b, t1, h1),
        sections_of(b, t2, h2),
    ensures
        sections_of(b, t1 + t2, h1 + h2),
{
    let t = t1 + t2;
    let h = h1 + h2;
    assert forall|j: int| 0 <= j < t.len() implies sectioned_by(b, #[trigger] t[j] as int, h[j]) by {
        if j < t1.len() {
            assert(t[j] == t1[j] && h[j] == h1[j]);
        } else {
            assert(t[j] == t2[j - t1.len()] && h[j] == h2[j - t1.len()]);
        }
    }
}

/// The nodes `tops` of `b` are what the blocks of `content` at `heads` make, one for one.
pub open spec fn parts_made(
    b: SectionsBuilder,
    tops: Seq<NodeId>,
    content: Seq<DocumentBlock>,
    heads: Seq<int>,
) -> bool {
    &&& tops.len() == heads.len()
    &&& forall|j: int| 0 <= j < tops.len() ==> made_by(b, #[trigger] tops[j] as int, content[heads[j]])
}

proof fn lemma_parts_made_kept(
    a: SectionsBuilder,
    c: SectionsBuilder,
    tops: Seq<NodeId>,
    content: Seq<DocumentBlock>,
    heads: Seq<int>,
)
    requires
        a.wf(),
        keeps(a, c),
        parts_made(a, tops, content, heads),
    ensures
        parts_made(c, tops, content, heads),
{
    assert forall|j: int| 0 <= j < tops.len() implies made_by(c, #[trigger] tops[j] as int, content[heads[j]]) by {
        lemma_made_kept(a, c, tops[j] as int, content[heads[j]]);
    }
}

proof fn lemma_parts_made_push(
    b: SectionsBuilder,
    tops: Seq<NodeId>,
    content: Seq<DocumentBlock>,
    heads: Seq<int>,
    t: NodeId,
    h: int,
)
    requires
        parts_made(b, tops, content, heads),
        made_by(b, t as int, content[h]),
    ensures
        parts_made(b, tops.push(t), content, heads.push(h)),
{
    assert forall|j: int| 0 <= j < tops.len() + 1 implies made_by(
        b,
        #[trigger] tops.push(t)[j] as int,
        content[heads.push(h)[j]],
    ) by {
        if j < tops.len() {
            assert(tops.push(t)[j] == tops[j] && heads.push(h)[j] == heads[j]);
        }
    }
}

/// The reference node that a paragraph of one local link makes keeps the link's kind: its
/// reference type turns back into the link's type.
pub proof fn law_reference_node_keeps_link_kind(b: SectionsBuilder, x: int, block: DocumentBlock)
    requires
        made_by(b, x, block),
        is_ref_block(block),
    ensures
        b.spec_graph().nodes@[x].kind matches GraphNodeKind::Reference(_, _, t)
            && crate::model::node::link_type_of(t) == block->Para_0.inlines@[0]->Link_0.link_type,
{
    crate::model::document::law_reference_type_keeps_link_kind(
        block->Para_0.inlines@[0]->Link_0.link_type,
    );
}

/// A recorded pair stays recorded.
proof fn lemma_map_kept(a: SectionsBuilder, c: SectionsBuilder, v: (NodeId, LineRange))
    requires
        keeps(a, c),
        a.spec_nodes_map().contains(v),
    ensures
        c.spec_nodes_map().contains(v),
{
    let i = choose|i: int| 0 <= i < a.spec_nodes_map().len() && a.spec_nodes_map()[i] == v;
    assert(c.spec_nodes_map()[i] == v);
}

/// A section stays what it was as building goes on.
proof fn lemma_sectioned_kept(a: SectionsBuilder, c: SectionsBuilder, x: int, block: DocumentBlock)
    requires
        a.wf(),
        keeps(a, c),
        sectioned_by(a, x, block),
    ensures
        sectioned_by(c, x, block),
{
    assert(node_ok(a.spec_graph().nodes@, a.spec_graph().lines@.len(), x));
    lemma_map_kept(a, c, (x as NodeId, head_line(block, key_parent(a.spec_key()@)).1));
}

/// A node stays what it was as building goes on.
proof fn lemma_made_kept(a: SectionsBuilder, c: SectionsBuilder, x: int, block: DocumentBlock)
    requires
        a.wf(),
        keeps(a, c),
        made_by(a, x, block),
    ensures
        made_by(c, x, block),
{
    let an = a.spec_graph().nodes@;
    let al = a.spec_graph().lines@;
    let cl = c.spec_graph().lines@;
    assert(node_ok(an, al.len(), x));
    assert(c.spec_graph().nodes@[x].kind == an[x].kind);
    match block {
        DocumentBlock::Header(_) | DocumentBlock::Div(_) => lemma_sectioned_kept(a, c, x, block),
        DocumentBlock::Plain(p) => lemma_map_kept(a, c, (x as NodeId, p.line_range)),
        DocumentBlock::Para(p) => lemma_map_kept(a, c, (x as NodeId, p.line_range)),
        DocumentBlock::CodeBlock(cb) => lemma_map_kept(a, c, (x as NodeId, cb.line_range)),
        DocumentBlock::RawBlock(r) => lemma_map_kept(a, c, (x as NodeId, r.line_range)),
        DocumentBlock::HorizontalRule(h) => lemma_map_kept(a, c, (x as NodeId, h.line_range)),
        DocumentBlock::BlockQuote(q) => lemma_map_kept(a, c, (x as NodeId, q.line_range)),
        DocumentBlock::Table(t) => {
            lemma_map_kept(a, c, (x as NodeId, t.line_range));
            if let GraphNodeKind::Table(h, al2, r) = an[x].kind {
                assert forall|j: int| 0 <= j < h@.len() implies cl[#[trigger] h@[j] as int]
                    == al[h@[j] as int] by {
                    assert(h@[j] < al.len());
                }
                assert forall|i: int, j: int|
                    0 <= i < r@.len() && 0 <= j < r@[i]@.len() implies cl[#[trigger] r@[i]@[j] as int]
                    == al[r@[i]@[j] as int] by {
                    assert(r@[i]@[j] < al.len());
                }
            }
        },
        _ => {},
    }
}

/// Parts built one after the other make the parts of the whole run.
proof fn lemma_parts_concat(
    a: SectionsBuilder,
    b: SectionsBuilder,
    d: SectionsBuilder,
    t1: Seq<NodeId>,
    t2: Seq<NodeId>,
    p: NodeId,
)
    requires
        keeps(b, d),
        parts_under(b.spec_graph().nodes@, a.spec_graph().nodes@.len() as int, b.spec_graph().nodes@.len() as int, t1, p),
        parts_under(d.spec_graph().nodes@, b.spec_graph().nodes@.len() as int, d.spec_graph().nodes@.len() as int, t2, p),
    ensures
        parts_under(d.spec_graph().nodes@, a.spec_graph().nodes@.len() as int, d.spec_graph().nodes@.len() as int, t1 + t2, p),
{
    let bn = b.spec_graph().nodes@;
    let dn = d.spec_graph().nodes@;
    let t = t1 + t2;
    let m = b.spec_graph().nodes@.len() as int;
    let e = d.spec_graph().nodes@.len() as int;
    assert forall|j: int| 0 <= j < t.len() implies parent_in(dn, #[trigger] t[j] as int) == Some(p) by {
        if j < t1.len() {
            assert(t[j] == t1[j]);
            assert(parent_in(dn, t1[j] as int) == parent_in(bn, t1[j] as int));
        } else {
            assert(t[j] == t2[j - t1.len()]);
        }
    }
    assert forall|j: int, x: int|
        #![trigger descends(dn, x, t[j])]
        0 <= j < t.len() && t[j] < x < part_end(t, j, e) implies descends(dn, x, t[j]) by {
        if j < t1.len() {
            assert(t[j] == t1[j]);
            if j + 1 < t1.len() {
                assert(part_end(t, j, e) == part_end(t1, j, m));
            } else if t2.len() > 0 {
                assert(t[j + 1] == t2[0]);
                assert(part_end(t, j, e) == m);
            } else {
                assert(m == e);
            }
            assert(descends(bn, x, t1[j]));
            lemma_under_kept(b, d, x, t1[j]);
        } else {
            let i = j - t1.len();
            assert(t[j] == t2[i]);
            if i + 1 < t2.len() {
                assert(t[j + 1] == t2[i + 1]);
            }
            assert(part_end(t, j, e) == part_end(t2, i, e));
            assert(descends(dn, x, t2[i]));
        }
    }
    assert forall|j: int, k: int| 0 <= j < k < t.len() implies #[trigger] t[j] < #[trigger] t[k] by {
        if k < t1.len() {
            assert(t[j] == t1[j] && t[k] == t1[k]);
        } else if j < t1.len() {
            assert(t[j] == t1[j] && t[k] == t2[k - t1.len()]);
        } else {
            assert(t[j] == t2[j - t1.len()] && t[k] == t2[k - t1.len()]);
        }
    }
    assert forall|j: int| 0 <= j < t.len() implies a.spec_graph().nodes@.len() <= #[trigger] t[j] < e by {
        if j < t1.len() {
            assert(t[j] == t1[j]);
        } else {
            assert(t[j] == t2[j - t1.len()]);
        }
    }
    if t1.len() == 0 && t2.len() > 0 {
        assert(t[0] == t2[0]);
    }
    if t1.len() > 0 {
        assert(t[0] == t1[0]);
    }
}

/// Nodes added under the first node of the last part join that part.
proof fn lemma_parts_grow_last(b: SectionsBuilder, d: SectionsBuilder, n0: int, tops: Seq<NodeId>, p: NodeId)
    requires
        keeps(b, d),
        tops.len() > 0,
        parts_under(b.spec_graph().nodes@, n0, b.spec_graph().nodes@.len() as int, tops, p),
        added_under(b, d, tops.last()),
    ensures
        parts_under(d.spec_graph().nodes@, n0, d.spec_graph().nodes@.len() as int, tops, p),
{
    let bn = b.spec_graph().nodes@;
    let dn = d.spec_graph().nodes@;
    let m = bn.len() as int;
    let e = dn.len() as int;
    assert forall|j: int| 0 <= j < tops.len() implies parent_in(dn, #[trigger] tops[j] as int) == Some(p) by {
        assert(parent_in(dn, tops[j] as int) == parent_in(bn, tops[j] as int));
    }
    assert forall|j: int, x: int|
        #![trigger descends(dn, x, tops[j])]
        0 <= j < tops.len() && tops[j] < x < part_end(tops, j, e) implies descends(dn, x, tops[j]) by {
        if x < m {
            assert(descends(bn, x, tops[j]));
            lemma_under_kept(b, d, x, tops[j]);
        } else {
            assert(j == tops.len() - 1);
        }
    }
}

/// Every recorded node is one of the first `n` nodes.
pub open spec fn map_ok(m: Seq<(NodeId, LineRange)>, n: nat) -> bool {
    forall|i: int| 0 <= i < m.len() ==> #[trigger] m[i].0 < n
}

pub proof fn lemma_map_ok_grow(m: Seq<(NodeId, LineRange)>, a: nat, b: nat)
    requires
        map_ok(m, a),
        a <= b,
    ensures
        map_ok(m, b),
{
}

fn clone_lang(lang: &Option<String>) -> (r: Option<String>)
    ensures
        r == *lang,
{
    match lang {
        Some(s) => Some(s.clone()),
        None => None,
    }
}

impl SectionsBuilder {
    pub closed spec fn spec_builder(&self) -> GraphBuilder {
        self.builder
    }

    pub closed spec fn spec_nodes_map(&self) -> Seq<(NodeId, LineRange)> {
        self.nodes_map@
    }

    pub closed spec fn spec_key(&self) -> Key {
        self.key
    }

    pub open spec fn spec_graph(&self) -> Graph {
        self.spec_builder().spec_graph()
    }

    /// The builder is well formed and every recorded node is a node of the graph.
    pub open spec fn wf(&self) -> bool {
        &&& self.spec_builder().wf()
        &&& map_ok(self.spec_nodes_map(), self.spec_graph().nodes@.len())
    }

    /// The nodes built so far with the lines of their blocks.
    pub fn nodes_map(&self) -> (r: NodesMap)
        ensures
            r@ == self.spec_nodes_map(),
    {
        let mut r: NodesMap = Vec::new();
        let mut i: usize = 0;
        while i < self.nodes_map.len()
            invariant
                i <= self.nodes_map@.len(),
                r@ == self.nodes_map@.take(i as int),
            decreases self.nodes_map@.len() - i,
        {
            r.push(self.nodes_map[i]);
            assert(self.nodes_map@.take(i + 1) == self.nodes_map@.take(i as int).push(
                self.nodes_map@[i as int],
            ));
            i = i + 1;
        }
        assert(self.nodes_map@.take(self.nodes_map@.len() as int) == self.nodes_map@);
        r
    }

    /// Builds the sections of `content` with `builder`, for the document `key`.
    pub fn new(builder: GraphBuilder, content: &DocumentBlocks, key: &Key) -> (r: SectionsBuilder)
        requires
            builder.wf(),
            blocks_ok(content@),
        ensures
            r.wf(),
            extends(builder.spec_graph(), r.spec_graph()),
            r.spec_key() == *key,
            plain_divs_seq(content@) ==> forall|x: int|
                builder.spec_graph().nodes@.len() <= x < r.spec_graph().nodes@.len()
                    ==> #[trigger] descends(r.spec_graph().nodes@, x, builder.spec_id()),
            plain_divs_seq(content@) ==> r.spec_graph().nodes@.len()
                >= builder.spec_graph().nodes@.len() + content@.len(),
            content@.len() > 0 && !div_list_headed(content@[0])
                ==> r.spec_graph().nodes@.len() > builder.spec_graph().nodes@.len() && parent_in(
                r.spec_graph().nodes@,
                builder.spec_graph().nodes@.len() as int,
            ) == Some(builder.spec_id()),
            content@.len() == 0 ==> r.spec_builder() == builder && r.spec_nodes_map().len() == 0,
            plain_divs_seq(content@) && filled_seq(content@) && content@.len() > 0
                ==> exists|tops: Seq<NodeId>|
                {
                    &&& #[trigger] parts_under(
                        r.spec_graph().nodes@,
                        builder.spec_graph().nodes@.len() as int,
                        r.spec_graph().nodes@.len() as int,
                        tops,
                        builder.spec_id(),
                    )
                    &&& tops.len() == part_heads(content@, 0, content@.len() as int).len()
                    &&& forall|j: int|
                        0 <= j < tops.len() && is_header(
                            content@[part_heads(content@, 0, content@.len() as int)[j]],
                        ) ==> (#[trigger] r.spec_graph().nodes@[tops[j] as int]).kind is Section
                    &&& parts_made(r, tops, content@, part_heads(content@, 0, content@.len() as int))
                },
    {
        let mut builder = SectionsBuilder { builder, nodes_map: Vec::new(), key: key.copy() };
        builder.process_blocks(0..content.len(), content);
        builder
    }

    /// The graph builder, to go on building or to take the graph.
    pub fn into_builder(self) -> (r: GraphBuilder)
        ensures
            r == self.spec_builder(),
    {
        self.builder
    }

    fn set_lines_range(&mut self, line_range: LineRange)
        requires
            old(self).spec_builder().wf(),
            map_ok(old(self).spec_nodes_map(), old(self).spec_graph().nodes@.len()),
        ensures
            final(self).wf(),
            final(self).spec_builder() == old(self).spec_builder(),
            final(self).spec_key() == old(self).spec_key(),
            final(self).spec_nodes_map() == old(self).spec_nodes_map().push(
                (old(self).spec_builder().spec_id(), line_range),
            ),
    {
        let id = self.builder.id();
        self.nodes_map.push((id, line_range));
        assert(map_ok(self.nodes_map@, self.spec_graph().nodes@.len()));
    }

    /// Adds a section with a line of inlines, and records the lines of its block.
    fn add_section(&mut self, inlines: Vec<GraphInline>, line_range: LineRange)
        requires
            old(self).wf(),
        ensures
            keeps(*old(self), *final(self)),
            adds_line_node(*old(self), *final(self), inlines_view(inlines@), line_range, false),
            !final(self).spec_builder().spec_insert(),
            placed(old(self).spec_builder(), final(self).spec_builder()),
    {
        let ghost start = *self;
        self.builder.section(inlines);
        proof {
            lemma_map_ok_grow(
                self.nodes_map@,
                start.spec_graph().nodes@.len(),
                self.spec_graph().nodes@.len(),
            );
        }
        self.set_lines_range(line_range);
    }

    /// Adds a leaf with a line of inlines, and records the lines of its block.
    fn add_leaf(&mut self, inlines: Vec<GraphInline>, line_range: LineRange)
        requires
            old(self).wf(),
        ensures
            keeps(*old(self), *final(self)),
            adds_line_node(*old(self), *final(self), inlines_view(inlines@), line_range, true),
            !final(self).spec_builder().spec_insert(),
            placed(old(self).spec_builder(), final(self).spec_builder()),
    {
        let ghost start = *self;
        self.builder.leaf(inlines);
        proof {
            lemma_map_ok_grow(
                self.nodes_map@,
                start.spec_graph().nodes@.len(),
                self.spec_graph().nodes@.len(),
            );
        }
        self.set_lines_range(line_range);
    }

    /// Adds the blocks of `range`: those before the first header in place, then one section
    /// for each header of the level of the first header (or a higher level) with the blocks
    /// that follow it.
    #[verifier::spinoff_prover]
    #[verifier::rlimit(40)]
    pub fn process_blocks(&mut self, range: Range<usize>, content: &DocumentBlocks)
        requires
            old(self).wf(),
            range.start < range.end ==> range.end <= content@.len(),
            blocks_ok(content@),
        ensures
            keeps(*old(self), *final(self)),
            range.start >= range.end ==> *final(self) == *old(self),
            plain_divs_seq(content@) ==> added_under(
                *old(self),
                *final(self),
                old(self).spec_builder().spec_id(),
            ),
            plain_divs_seq(content@) ==> final(self).spec_graph().nodes@.len() >= old(
                self,
            ).spec_graph().nodes@.len() + (range.end - range.start),
            range.start < range.end && !div_list_headed(content@[range.start as int])
                ==> final(self).spec_graph().nodes@.len() > old(self).spec_graph().nodes@.len()
                && parent_in(
                final(self).spec_graph().nodes@,
                old(self).spec_graph().nodes@.len() as int,
            ) == Some(old(self).spec_builder().spec_id()),
            plain_divs_seq(content@) && filled_seq(content@) && range.start < range.end
                ==> !final(self).spec_builder().spec_insert(),
            plain_divs_seq(content@) && filled_seq(content@) && range.start < range.end
                ==> exists|tops: Seq<NodeId>|
                {
                    &&& #[trigger] parts_under(
                        final(self).spec_graph().nodes@,
                        old(self).spec_graph().nodes@.len() as int,
                        final(self).spec_graph().nodes@.len() as int,
                        tops,
                        old(self).spec_builder().spec_id(),
                    )
                    &&& tops.len() == part_heads(content@, range.start as int, range.end as int).len()
                    &&& forall|j: int|
                        0 <= j < tops.len() && is_header(
                            content@[part_heads(content@, range.start as int, range.end as int)[j]],
                        ) ==> (#[trigger] final(self).spec_graph().nodes@[tops[j] as int]).kind is Section
                    &&& parts_made(
                        *final(self),
                        tops,
                        content@,
                        part_heads(content@, range.start as int, range.end as int),
                    )
                },
        decreases content, range.end - range.start, 1nat,
    {
        let ghost start = *self;
        let ghost c = start.spec_builder().spec_id();
        let ghost n0 = start.spec_graph().nodes@.len();
        if range.start >= range.end {
            return;
        }
        self.builder.set_insert(true);
        let ghost pf = plain_divs_seq(content@) && filled_seq(content@);
        let ghost mut tops: Seq<NodeId> = Seq::empty();
        proof {
            crate::graph::builder::lemma_extends_refl(self.spec_graph());
            assert(keeps(start, *self));
            assert(adds_under(*self, c));
        }
        let first = first_header(range.start..range.end, content);
        proof {
            law_first_header(content@, range.start as int, range.end as int);
        }
        let pre_end = match first {
            Some(h) => h,
            None => range.end,
        };
        let mut i = range.start;
        while i < pre_end
            invariant
                range.start <= i <= pre_end <= range.end <= content@.len(),
                blocks_ok(content@),
                keeps(start, *self),
                forall|j: int| range.start <= j < pre_end ==> !is_header(#[trigger] content@[j]),
                c == start.spec_builder().spec_id(),
                plain_divs_seq(content@) ==> adds_under(*self, c) && added_under(start, *self, c),
                plain_divs_seq(content@) ==> self.spec_graph().nodes@.len() >= start.spec_graph().nodes@.len()
                    + (i - range.start),
                n0 == start.spec_graph().nodes@.len(),
                i == range.start ==> self.spec_builder().spec_insert() && self.spec_builder().spec_id()
                    == c && self.spec_graph().nodes@.len() == n0,
                i > range.start && !div_list_headed(content@[range.start as int])
                    ==> self.spec_graph().nodes@.len() > n0 && parent_in(
                    self.spec_graph().nodes@,
                    n0 as int,
                ) == Some(c),
                plain_divs_seq(content@) && filled_seq(content@)
                    ==> self.spec_builder().next_parent() == Some(c) && (i > range.start
                    ==> !self.spec_builder().spec_insert()),
                pf == (plain_divs_seq(content@) && filled_seq(content@)),
                pf ==> parts_under(
                    self.spec_graph().nodes@,
                    n0 as int,
                    self.spec_graph().nodes@.len() as int,
                    tops,
                    c,
                ) && tops.len() == i - range.start,
                pf ==> parts_made(*self, tops, content@, index_range(range.start as int, i as int)),
            decreases pre_end - i,
        {
            proof {
                lemma_blocks_ok(content@, i as int);
                assert(!is_header(content@[i as int]));
            }
            let ghost before = *self;
            self.block(&content[i]);
            proof {
                lemma_keeps_trans(start, before, *self);
                if plain_divs_seq(content@) {
                    lemma_plain_divs_seq(content@, i as int);
                    assert(plain_divs(content@[i as int]));
                    if filled_seq(content@) {
                        lemma_filled_seq(content@, i as int);
                        assert(!div_list_headed(content@[i as int]));
                        lemma_parts_extend(before, *self, n0 as int, tops, c);
                        lemma_parts_made_kept(
                            before,
                            *self,
                            tops,
                            content@,
                            index_range(range.start as int, i as int),
                        );
                        lemma_parts_made_push(
                            *self,
                            tops,
                            content@,
                            index_range(range.start as int, i as int),
                            before.spec_graph().nodes@.len() as NodeId,
                            i as int,
                        );
                        assert(index_range(range.start as int, i as int).push(i as int)
                            =~= index_range(range.start as int, i + 1));
                    }
                    lemma_deep_adds(*self, c);
                    lemma_added_under_trans(start, before, *self, c);
                }
                tops = tops.push(before.spec_graph().nodes@.len() as NodeId);
            }
            i = i + 1;
        }
        let level = match first_header_level(range.start..range.end, content) {
            Some(l) => l,
            None => {
                proof {
                    if pf {
                        lemma_part_heads(
                            content@,
                            range.start as int,
                            range.end as int,
                            pre_end as int,
                            Seq::<int>::empty(),
                        );
                        let heads = part_heads(content@, range.start as int, range.end as int);
                        assert(heads =~= index_range(range.start as int, pre_end as int));
                        assert(parts_made(*self, tops, content@, heads));
                        assert forall|j: int|
                            0 <= j < tops.len() && is_header(content@[heads[j]]) implies (
                            #[trigger] self.spec_graph().nodes@[tops[j] as int]).kind is Section by {
                            assert(heads[j] == range.start + j);
                        }
                        assert(parts_under(
                            self.spec_graph().nodes@,
                            n0 as int,
                            self.spec_graph().nodes@.len() as int,
                            tops,
                            c,
                        ));
                    }
                }
                return;
            },
        };
        let lo = match first {
            Some(h) => h,
            None => range.start,
        };
        let all = header_positions(content, level);
        let ghost all_pos = all@;
        let positions = positions_between(all, lo, range.end);
        let ghost pos = positions@;
        proof {
            lemma_filter_elements(all_pos, |x: usize| lo <= x && x <= range.end);
            assert forall|a: int| 0 <= a < pos.len() implies is_header(
                #[trigger] content@[pos[a] as int],
            ) by {
                let k = choose|k: int|
                    0 <= k < all_pos.len() && all_pos[k] == pos[a];
                assert(is_header_upto(content@[all_pos[k] as int], level));
            }
            assert forall|a: int| 0 <= a < pos.len() implies range.start <= #[trigger] pos[a]
                <= range.end by {
                assert(pos.contains(pos[a]));
                assert(pos[a] <= range.end);
            }
            lemma_filter_increasing(all@, |x: usize| lo <= x && x <= range.end);
            assert(lo == pre_end);
            assert(is_header_upto(content@[lo as int], level));
            assert(all_pos.contains(lo));
            let w = choose|w: int| 0 <= w < all_pos.len() && all_pos[w] == lo;
            all_pos.lemma_filter_contains(|x: usize| lo <= x && x <= range.end, w);
            assert(pos.contains(lo));
            let v = choose|v: int| 0 <= v < pos.len() && pos[v] == lo;
            assert(pos[0] <= pos[v]);
            assert(pos[0] == lo);
            law_ranges_partition(pos, range.end);
        }
        let ranges = ranges(positions, range.end);
        let ghost pairs = spec_ranges(pos, range.end);
        let mut k: usize = 0;
        while k < ranges.len()
            invariant
                k <= ranges@.len(),
                range_pairs(ranges@) == pairs,
                pairs == spec_ranges(pos, range.end),
                forall|a: int| 0 <= a < pos.len() ==> range.start <= #[trigger] pos[a] <= range.end,
                forall|a: int, b: int| 0 <= a < b < pos.len() ==> #[trigger] pos[a] < #[trigger] pos[b],
                range.start < range.end <= content@.len(),
                blocks_ok(content@),
                keeps(start, *self),
                forall|a: int| 0 <= a < pos.len() ==> is_header(#[trigger] content@[pos[a] as int]),
                c == start.spec_builder().spec_id(),
                plain_divs_seq(content@) ==> adds_under(*self, c) && added_under(start, *self, c),
                pos.len() > 0,
                pos[0] == lo,
                lo == pre_end,
                pairs.len() > 0,
                pairs[0].0 == pos[0],
                pairs.last().1 == range.end,
                forall|a: int| 0 <= a < pairs.len() - 1 ==> #[trigger] pairs[a].1 == pairs[a + 1].0,
                n0 == start.spec_graph().nodes@.len(),
                k == 0 && pre_end == range.start ==> self.spec_builder().spec_insert()
                    && self.spec_builder().spec_id() == c && self.spec_graph().nodes@.len() == n0,
                (k > 0 || pre_end > range.start) && !div_list_headed(content@[range.start as int])
                    ==> self.spec_graph().nodes@.len() > n0 && parent_in(
                    self.spec_graph().nodes@,
                    n0 as int,
                ) == Some(c),
                plain_divs_seq(content@) && filled_seq(content@)
                    ==> self.spec_builder().next_parent() == Some(c) && (k > 0 || pre_end
                    > range.start ==> !self.spec_builder().spec_insert()),
                pf == (plain_divs_seq(content@) && filled_seq(content@)),
                pf ==> parts_under(
                    self.spec_graph().nodes@,
                    n0 as int,
                    self.spec_graph().nodes@.len() as int,
                    tops,
                    c,
                ) && tops.len() == (pre_end - range.start) + k,
                pf ==> parts_made(
                    *self,
                    tops,
                    content@,
                    index_range(range.start as int, pre_end as int) + pos.take(k as int).map_values(
                        |x: usize| x as int,
                    ),
                ),
                pf ==> forall|j: int|
                    (pre_end - range.start) <= j < tops.len()
                        ==> (#[trigger] self.spec_graph().nodes@[tops[j] as int]).kind is Section,
                plain_divs_seq(content@) ==> self.spec_graph().nodes@.len() >= start.spec_graph().nodes@.len()
                    + (pre_end - range.start) + (if k == 0 {
                    0
                } else {
                    pairs[k - 1].1 - lo
                }),
            decreases ranges@.len() - k,
        {
            proof {
                assert(pairs[k as int] == (ranges@[k as int].start, ranges@[k as int].end));
                if pos.len() == 0 {
                    assert(pairs.len() == 0);
                }
                assert(pairs.len() <= pos.len());
                if k < pos.len() - 1 {
                    assert(pairs[k as int] == (pos[k as int], pos[k + 1]));
                } else {
                    let inner = Seq::new(
                        (pos.len() - 1) as nat,
                        |i: int| (pos[i], pos[i + 1]),
                    );
                    if pos.last() < range.end {
                        assert(pairs == inner.push((pos.last(), range.end)));
                        assert(k == pos.len() - 1);
                        assert(pairs[k as int] == (pos.last(), range.end));
                        assert(pos.last() == pos[k as int]);
                    } else {
                        assert(pairs == inner);
                    }
                }
                assert(pairs[k as int].0 == pos[k as int]);
                assert(range.start <= ranges@[k as int].start <= ranges@[k as int].end
                    <= range.end);
            }
            let r = ranges[k].start..ranges[k].end;
            let ghost before = *self;
            proof {
                assert(ranges@[k as int].start == pos[k as int]);
                assert(is_header(content@[pos[k as int] as int]));
            }
            self.process_section(r, content);
            proof {
                if k > 0 {
                    assert(pairs[k - 1].1 == pairs[k as int].0);
                }
                assert(!list_headed(content@[r.start as int]));
                lemma_keeps_trans(start, before, *self);
                if plain_divs_seq(content@) {
                    lemma_deep_adds(*self, c);
                    lemma_added_under_trans(start, before, *self, c);
                }
                if pf {
                    let hk = index_range(range.start as int, pre_end as int) + pos.take(k as int).map_values(
                        |x: usize| x as int,
                    );
                    lemma_parts_made_kept(before, *self, tops, content@, hk);
                    assert(made_by(*self, before.spec_graph().nodes@.len() as int, content@[pos[k as int] as int]));
                    lemma_parts_made_push(
                        *self,
                        tops,
                        content@,
                        hk,
                        before.spec_graph().nodes@.len() as NodeId,
                        pos[k as int] as int,
                    );
                    assert(hk.push(pos[k as int] as int) =~= index_range(range.start as int, pre_end as int)
                        + pos.take(k + 1).map_values(|x: usize| x as int));
                    lemma_parts_extend(before, *self, n0 as int, tops, c);
                    assert forall|j: int|
                        (pre_end - range.start) <= j < tops.len() implies (
                        #[trigger] self.spec_graph().nodes@[tops[j] as int]).kind is Section by {
                        assert(before.spec_graph().nodes@[tops[j] as int].kind is Section);
                    }
                }
                tops = tops.push(before.spec_graph().nodes@.len() as NodeId);
            }
            k = k + 1;
        }
        assert(pairs.len() == ranges@.len());
        proof {
            if pf {
                assert forall|q: int| 0 <= q < pos.len() implies all_pos.contains(#[trigger] pos[q])
                    && lo <= pos[q] by {
                    lemma_filter_contains_iff(all_pos, |x: usize| lo <= x && x <= range.end, pos[q]);
                    assert(pos.contains(pos[q]));
                }
                assert forall|x: usize|
                    lo <= x < range.end && #[trigger] all_pos.contains(x) implies pos.contains(x) by {
                    lemma_filter_contains_iff(all_pos, |x: usize| lo <= x && x <= range.end, x);
                }
                lemma_sections_law(
                    *self,
                    content@,
                    range.start,
                    range.end,
                    lo,
                    level,
                    all_pos,
                    pos,
                    tops,
                    n0 as int,
                    c,
                );
            }
        }
    }

    /// Adds a section: its first block heads it, the rest go under it.
    pub fn process_section(&mut self, range: Range<usize>, blocks: &DocumentBlocks)
        requires
            old(self).wf(),
            range.start < range.end ==> range.end <= blocks@.len(),
            blocks_ok(blocks@),
        ensures
            keeps(*old(self), *final(self)),
            range.start >= range.end ==> *final(self) == *old(self),
            plain_divs_seq(blocks@) ==> forall|c: NodeId|
                adds_deep_under(*old(self), c) ==> adds_deep_under(*final(self), c) && added_under(
                    *old(self),
                    *final(self),
                    c,
                ),
            plain_divs_seq(blocks@) && range.start < range.end && !list_headed(
                blocks@[range.start as int],
            ) ==> forall|c: NodeId|
                adds_under(*old(self), c) ==> adds_deep_under(*final(self), c) && added_under(
                    *old(self),
                    *final(self),
                    c,
                ),
            plain_divs_seq(blocks@) && range.start < range.end && !list_headed(
                blocks@[range.start as int],
            ) ==> {
                let n = old(self).spec_graph().nodes@.len();
                &&& final(self).spec_graph().nodes@.len() > n
                &&& forall|x: int|
                    n < x < final(self).spec_graph().nodes@.len() ==> #[trigger] descends(
                        final(self).spec_graph().nodes@,
                        x,
                        n as NodeId,
                    )
            },
            range.start < range.end && !list_headed(blocks@[range.start as int])
                ==> final(self).spec_graph().nodes@.len() > old(self).spec_graph().nodes@.len()
                && parent_in(
                final(self).spec_graph().nodes@,
                old(self).spec_graph().nodes@.len() as int,
            ) == old(self).spec_builder().next_parent(),
            plain_divs_seq(blocks@) ==> final(self).spec_graph().nodes@.len() >= old(
                self,
            ).spec_graph().nodes@.len() + section_weight(
                blocks@,
                range.start as int,
                range.end as int,
            ),
            plain_divs_seq(blocks@) && filled_seq(blocks@) && range.start < range.end && old(
                self,
            ).spec_builder().next_parent() is Some ==> settled_under(
                *old(self),
                *final(self),
                old(self).spec_builder().next_parent().unwrap(),
            ),
            range.start < range.end && !list_headed(blocks@[range.start as int])
                ==> final(self).spec_builder().spec_id() == old(self).spec_graph().nodes@.len()
                && final(self).spec_graph().nodes@[old(self).spec_graph().nodes@.len() as int].kind is Section,
            plain_divs_seq(blocks@) && filled_seq(blocks@) && range.start < range.end && old(
                self,
            ).spec_builder().next_parent() is Some ==> exists|tops: Seq<NodeId>|
                {
                    &&& #[trigger] parts_under(
                        final(self).spec_graph().nodes@,
                        old(self).spec_graph().nodes@.len() as int,
                        final(self).spec_graph().nodes@.len() as int,
                        tops,
                        old(self).spec_builder().next_parent().unwrap(),
                    )
                    &&& tops.len() == head_blocks(blocks@[range.start as int]).len()
                    &&& tops.len() > 0
                    &&& tops.last() == final(self).spec_builder().spec_id()
                    &&& sections_of(*final(self), tops, head_blocks(blocks@[range.start as int]))
                },
            range.start < range.end && !list_headed(blocks@[range.start as int]) ==> sectioned_by(
                *final(self),
                old(self).spec_graph().nodes@.len() as int,
                blocks@[range.start as int],
            ),
            plain_divs_seq(blocks@) && filled_seq(blocks@) && range.start + 1 < range.end
                && !list_headed(blocks@[range.start as int]) ==> exists|tops: Seq<NodeId>|
                {
                    &&& #[trigger] parts_under(
                        final(self).spec_graph().nodes@,
                        old(self).spec_graph().nodes@.len() as int + 1,
                        final(self).spec_graph().nodes@.len() as int,
                        tops,
                        old(self).spec_graph().nodes@.len() as NodeId,
                    )
                    &&& tops.len() == part_heads(blocks@, range.start + 1, range.end as int).len()
                    &&& parts_made(
                        *final(self),
                        tops,
                        blocks@,
                        part_heads(blocks@, range.start + 1, range.end as int),
                    )
                },
        decreases blocks, range.end - range.start, 0nat,
    {
        let ghost start = *self;
        if range.start >= range.end {
            return;
        }
        proof {
            lemma_blocks_ok(blocks@, range.start as int);
        }
        self.section_block(&blocks[range.start]);
        let ghost mid = *self;
        let id = self.builder.id();
        self.process_blocks(range.start + 1..range.end, blocks);
        let ghost after = *self;
        self.builder.set_id(id);
        proof {
            lemma_keeps_trans(start, mid, after);
            lemma_keeps_trans(start, after, *self);
            lemma_keeps_trans(mid, after, *self);
            if !list_headed(blocks@[range.start as int]) {
                lemma_sectioned_kept(mid, *self, start.spec_graph().nodes@.len() as int, blocks@[range.start as int]);
            }
            if plain_divs_seq(blocks@) && filled_seq(blocks@) && range.start + 1 < range.end
                && !list_headed(blocks@[range.start as int]) {
                let t = choose|t: Seq<NodeId>|
                    {
                        &&& #[trigger] parts_under(
                            after.spec_graph().nodes@,
                            mid.spec_graph().nodes@.len() as int,
                            after.spec_graph().nodes@.len() as int,
                            t,
                            mid.spec_builder().spec_id(),
                        )
                        &&& t.len() == part_heads(blocks@, range.start + 1, range.end as int).len()
                        &&& (forall|j: int|
                            0 <= j < t.len() && is_header(
                                blocks@[part_heads(blocks@, range.start + 1, range.end as int)[j]],
                            ) ==> (#[trigger] after.spec_graph().nodes@[t[j] as int]).kind is Section)
                        &&& parts_made(after, t, blocks@, part_heads(blocks@, range.start + 1, range.end as int))
                    };
                lemma_parts_made_kept(after, *self, t, blocks@, part_heads(blocks@, range.start + 1, range.end as int));
                assert(parts_under(
                    self.spec_graph().nodes@,
                    start.spec_graph().nodes@.len() as int + 1,
                    self.spec_graph().nodes@.len() as int,
                    t,
                    start.spec_graph().nodes@.len() as NodeId,
                ));
            }
            if plain_divs_seq(blocks@) {
                lemma_plain_divs_seq(blocks@, range.start as int);
                assert(added_under(mid, *self, id));
                if filled_seq(blocks@) && start.spec_builder().next_parent() is Some {
                    let p = start.spec_builder().next_parent().unwrap();
                    lemma_filled_seq(blocks@, range.start as int);
                    assert(settled_under(start, mid, p));
                    assert(parent_in(self.spec_graph().nodes@, id as int) == parent_in(
                        mid.spec_graph().nodes@,
                        id as int,
                    ));
                    assert(descends(self.spec_graph().nodes@, id as int, p));
                    lemma_added_under_lift(mid, *self, id, p);
                    lemma_added_under_trans(start, mid, *self, p);
                    assert(settled_under(start, *self, p));
                    let t1 = choose|t: Seq<NodeId>|
                        #[trigger] parts_under(
                            mid.spec_graph().nodes@,
                            start.spec_graph().nodes@.len() as int,
                            mid.spec_graph().nodes@.len() as int,
                            t,
                            p,
                        ) && t.len() == head_blocks(blocks@[range.start as int]).len() && t.len() > 0
                            && t.last() == mid.spec_builder().spec_id() && sections_of(
                            mid,
                            t,
                            head_blocks(blocks@[range.start as int]),
                        );
                    lemma_keeps_trans(mid, after, *self);
                    lemma_parts_grow_last(mid, *self, start.spec_graph().nodes@.len() as int, t1, p);
                    lemma_sections_of_kept(mid, *self, t1, head_blocks(blocks@[range.start as int]));
                }
                if !list_headed(blocks@[range.start as int]) {
                    assert forall|c: NodeId| adds_under(start, c) implies adds_deep_under(
                        *self,
                        c,
                    ) && added_under(start, *self, c) by {
                        lemma_placed_under(start, mid, c);
                        lemma_under_kept(mid, *self, id as int, c);
                        lemma_added_under_lift(mid, *self, id, c);
                        lemma_added_under_trans(start, mid, *self, c);
                    }
                    assert forall|c: NodeId| adds_deep_under(start, c) implies adds_deep_under(
                        *self,
                        c,
                    ) && added_under(start, *self, c) by {
                        lemma_deep_adds(start, c);
                        lemma_placed_under(start, mid, c);
                        lemma_under_kept(mid, *self, id as int, c);
                        lemma_added_under_lift(mid, *self, id, c);
                        lemma_added_under_trans(start, mid, *self, c);
                    }
                } else {
                    assert forall|c: NodeId| adds_deep_under(start, c) implies adds_deep_under(
                        *self,
                        c,
                    ) && added_under(start, *self, c) by {
                        lemma_deep_adds(mid, c);
                        lemma_under_kept(mid, *self, id as int, c);
                        lemma_added_under_lift(mid, *self, id, c);
                        lemma_added_under_trans(start, mid, *self, c);
                    }
                }
            }
        }
    }

    /// Adds the block that heads a section: its text becomes the section, and a list gives
    /// one section for each of its items.
    pub fn section_block(&mut self, block: &DocumentBlock)
        requires
            old(self).wf(),
            block_ok(*block),
        ensures
            keeps(*old(self), *final(self)),
            match *block {
                DocumentBlock::Para(p) => adds_line_node(
                    *old(self),
                    *final(self),
                    graph_inlines_seq(p.inlines@, key_parent(old(self).spec_key()@)),
                    p.line_range,
                    false,
                ),
                DocumentBlock::Plain(p) => adds_line_node(
                    *old(self),
                    *final(self),
                    graph_inlines_seq(p.inlines@, key_parent(old(self).spec_key()@)),
                    p.line_range,
                    false,
                ),
                DocumentBlock::Header(h) => adds_line_node(
                    *old(self),
                    *final(self),
                    graph_inlines_seq(h.inlines@, key_parent(old(self).spec_key()@)),
                    h.line_range,
                    false,
                ),
                DocumentBlock::CodeBlock(_) | DocumentBlock::RawBlock(_) | DocumentBlock::BlockQuote(_)
                | DocumentBlock::TaskList(_) | DocumentBlock::HorizontalRule(_)
                | DocumentBlock::Table(_) => adds_line_node(
                    *old(self),
                    *final(self),
                    seq![InlineView::Str(block_section_text(*block))],
                    block_line_range(*block),
                    false,
                ),
                _ => true,
            },
            !list_headed(*block) ==> {
                &&& final(self).spec_graph().nodes@.len() == old(self).spec_graph().nodes@.len() + 1
                &&& final(self).spec_graph().nodes@[old(self).spec_graph().nodes@.len() as int].kind is Section
                &&& final(self).spec_builder().spec_id() == old(self).spec_graph().nodes@.len()
                &&& !final(self).spec_builder().spec_insert()
                &&& placed(old(self).spec_builder(), final(self).spec_builder())
            },
            plain_divs(*block) ==> forall|c: NodeId|
                adds_deep_under(*old(self), c) ==> adds_deep_under(*final(self), c) && added_under(
                    *old(self),
                    *final(self),
                    c,
                ),
            plain_divs(*block) && filled(*block) && old(self).spec_builder().next_parent() is Some
                ==> settled_under(
                *old(self),
                *final(self),
                old(self).spec_builder().next_parent().unwrap(),
            ),
            plain_divs(*block) && filled(*block) && old(self).spec_builder().next_parent() is Some
                ==> exists|tops: Seq<NodeId>|
                {
                    &&& #[trigger] parts_under(
                        final(self).spec_graph().nodes@,
                        old(self).spec_graph().nodes@.len() as int,
                        final(self).spec_graph().nodes@.len() as int,
                        tops,
                        old(self).spec_builder().next_parent().unwrap(),
                    )
                    &&& tops.len() == head_blocks(*block).len()
                    &&& tops.len() > 0
                    &&& tops.last() == final(self).spec_builder().spec_id()
                    &&& sections_of(*final(self), tops, head_blocks(*block))
                },
            !list_headed(*block) ==> adds_line_node(
                *old(self),
                *final(self),
                head_line(*block, key_parent(old(self).spec_key()@)).0,
                head_line(*block, key_parent(old(self).spec_key()@)).1,
                false,
            ),
            !list_headed(*block) ==> sectioned_by(
                *final(self),
                old(self).spec_graph().nodes@.len() as int,
                *block,
            ),
        decreases block, 0nat, 0nat,
    {
        let ghost start = *self;
        let parent = self.key.parent();
        match block {
            DocumentBlock::Para(para) => {
                let inlines = to_graph_inlines(&para.inlines, &parent);
                self.add_section(inlines, para.line_range);
            },
            DocumentBlock::Plain(plain) => {
                let inlines = to_graph_inlines(&plain.inlines, &parent);
                self.add_section(inlines, plain.line_range);
            },
            DocumentBlock::Header(header) => {
                let inlines = to_graph_inlines(&header.inlines, &parent);
                self.add_section(inlines, header.line_range);
            },
            DocumentBlock::Div(div) => {
                proof {
                    lemma_blocks_ok(div.blocks@, 0);
                }
                self.section_block(&div.blocks[0]);
            },
            DocumentBlock::BulletList(list) => {
                self.section_items(&list.items);
            },
            DocumentBlock::OrderedList(list) => {
                self.section_items(&list.items);
            },
            _ => {
                let text = block.to_section_plain_text();
                let inlines = vec![GraphInline::Str(text)];
                self.add_section(inlines, block.line_range());
                proof {
                    assert(inlines_view(inlines@) =~= seq![InlineView::Str(block_section_text(*block))]);
                }
            },
        }
        proof {
            let m = start.spec_nodes_map().len() as int;
            if !list_headed(*block) {
                let n = start.spec_graph().nodes@.len();
                let line = head_line(*block, key_parent(start.spec_key()@));
                assert(adds_line_node(start, *self, line.0, line.1, false));
                assert(self.spec_key() == start.spec_key());
                assert(self.spec_nodes_map()[m] == (n as NodeId, line.1));
                assert(self.spec_nodes_map().contains((n as NodeId, line.1)));
                assert(sectioned_by(*self, n as int, *block));
            }
            if plain_divs(*block) && filled(*block) && start.spec_builder().next_parent() is Some
                && !list_headed(*block) {
                let p = start.spec_builder().next_parent().unwrap();
                let n = start.spec_graph().nodes@.len();
                let tops = seq![n as NodeId];
                assert(tops[0] as int == n);
                assert(sections_of(*self, tops, seq![*block]));
                assert(parts_under(
                    self.spec_graph().nodes@,
                    n as int,
                    self.spec_graph().nodes@.len() as int,
                    tops,
                    p,
                ));
            }
            if plain_divs(*block) && filled(*block) && start.spec_builder().next_parent() is Some
                && list_headed(*block) {
                let p = start.spec_builder().next_parent().unwrap();
                if *block is BulletList {
                    let l = block->BulletList_0;
                    assert(head_blocks(*block).len() == items_head_blocks(l.items@).len());
                    assert(exists|tops: Seq<NodeId>|
                        #[trigger] parts_under(
                            self.spec_graph().nodes@,
                            start.spec_graph().nodes@.len() as int,
                            self.spec_graph().nodes@.len() as int,
                            tops,
                            p,
                        ) && tops.len() == items_head_blocks(l.items@).len() && tops.len() > 0 && tops.last()
                            == self.spec_builder().spec_id() && sections_of(
                            *self,
                            tops,
                            items_head_blocks(l.items@),
                        ));
                }
                if *block is OrderedList {
                    let l = block->OrderedList_0;
                    assert(head_blocks(*block).len() == items_head_blocks(l.items@).len());
                }
            }
            if plain_divs(*block) && !list_headed(*block) {
                assert forall|c: NodeId| adds_deep_under(start, c) implies adds_deep_under(
                    *self,
                    c,
                ) && added_under(start, *self, c) by {
                    lemma_deep_adds(start, c);
                    lemma_placed_under(start, *self, c);
                }
            }
        }
    }

    /// Adds one section for each item.
    fn section_items(&mut self, items: &Vec<DocumentBlocks>)
        requires
            old(self).wf(),
            crate::model::document::items_ok(items@),
        ensures
            keeps(*old(self), *final(self)),
            plain_divs_items(items@) ==> forall|c: NodeId|
                adds_deep_under(*old(self), c) ==> adds_deep_under(*final(self), c) && added_under(
                    *old(self),
                    *final(self),
                    c,
                ),
            plain_divs_items(items@) ==> final(self).spec_graph().nodes@.len() >= old(
                self,
            ).spec_graph().nodes@.len() + items_weight(items@),
            plain_divs_items(items@) && filled_items(items@) && items@.len() > 0 && old(
                self,
            ).spec_builder().next_parent() is Some ==> settled_under(
                *old(self),
                *final(self),
                old(self).spec_builder().next_parent().unwrap(),
            ),
            items@.len() > 0 && items@[0]@.len() > 0 && !list_headed(items@[0]@[0])
                ==> final(self).spec_graph().nodes@.len() > old(self).spec_graph().nodes@.len()
                && parent_in(
                final(self).spec_graph().nodes@,
                old(self).spec_graph().nodes@.len() as int,
            ) == old(self).spec_builder().next_parent(),
            plain_divs_items(items@) && filled_items(items@) && items@.len() > 0 && old(
                self,
            ).spec_builder().next_parent() is Some ==> exists|tops: Seq<NodeId>|
                {
                    &&& #[trigger] parts_under(
                        final(self).spec_graph().nodes@,
                        old(self).spec_graph().nodes@.len() as int,
                        final(self).spec_graph().nodes@.len() as int,
                        tops,
                        old(self).spec_builder().next_parent().unwrap(),
                    )
                    &&& tops.len() == items_head_blocks(items@).len()
                    &&& tops.len() > 0
                    &&& tops.last() == final(self).spec_builder().spec_id()
                    &&& sections_of(*final(self), tops, items_head_blocks(items@))
                },
        decreases items, 0nat, 0nat,
    {
        let ghost start = *self;
        let ghost mut acc: Seq<NodeId> = Seq::empty();
        assert(items@.take(0) =~= Seq::empty());
        let mut j: usize = 0;
        while j < items.len()
            invariant
                j <= items@.len(),
                crate::model::document::items_ok(items@),
                keeps(start, *self),
                plain_divs_items(items@) ==> forall|c: NodeId|
                    adds_deep_under(start, c) ==> adds_deep_under(*self, c) && added_under(
                        start,
                        *self,
                        c,
                    ),
                plain_divs_items(items@) ==> self.spec_graph().nodes@.len() >= start.spec_graph().nodes@.len()
                    + items_weight(items@.take(j as int)),
                j == 0 ==> *self == start,
                plain_divs_items(items@) && filled_items(items@) && start.spec_builder().next_parent() is Some ==> {
                    &&& parts_under(
                        self.spec_graph().nodes@,
                        start.spec_graph().nodes@.len() as int,
                        self.spec_graph().nodes@.len() as int,
                        acc,
                        start.spec_builder().next_parent().unwrap(),
                    )
                    &&& acc.len() == items_head_blocks(items@.take(j as int)).len()
                    &&& sections_of(*self, acc, items_head_blocks(items@.take(j as int)))
                    &&& j > 0 ==> acc.len() > 0 && acc.last() == self.spec_builder().spec_id()
                },
                plain_divs_items(items@) && filled_items(items@) && start.spec_builder().next_parent() is Some && j
                    > 0 ==> settled_under(start, *self, start.spec_builder().next_parent().unwrap()),
                j > 0 && items@[0]@.len() > 0 && !list_headed(items@[0]@[0])
                    ==> self.spec_graph().nodes@.len() > start.spec_graph().nodes@.len() && parent_in(
                    self.spec_graph().nodes@,
                    start.spec_graph().nodes@.len() as int,
                ) == start.spec_builder().next_parent(),
            decreases items@.len() - j,
        {
            proof {
                lemma_items_ok(items@, j as int);
                if plain_divs_items(items@) {
                    lemma_plain_divs_items(items@, j as int);
                }
            }
            let ghost before = *self;
            let b = &items[j];
            self.process_section(0..b.len(), b);
            proof {
                if plain_divs_items(items@) && filled_items(items@) && start.spec_builder().next_parent() is Some {
                    let p = start.spec_builder().next_parent().unwrap();
                    lemma_filled_items(items@, j as int);
                    assert(before.spec_builder().next_parent() == Some(p));
                    assert(settled_under(before, *self, p));
                    if j > 0 {
                        lemma_keeps_trans(start, before, *self);
                        lemma_added_under_trans(start, before, *self, p);
                    }
                    let t2 = choose|t: Seq<NodeId>|
                        #[trigger] parts_under(
                            self.spec_graph().nodes@,
                            before.spec_graph().nodes@.len() as int,
                            self.spec_graph().nodes@.len() as int,
                            t,
                            p,
                        ) && t.len() == head_blocks(b@[0]).len() && t.len() > 0 && t.last()
                            == self.spec_builder().spec_id() && sections_of(
                            *self,
                            t,
                            head_blocks(b@[0]),
                        );
                    lemma_parts_concat(start, before, *self, acc, t2, p);
                    lemma_sections_of_kept(before, *self, acc, items_head_blocks(items@.take(j as int)));
                    lemma_sections_of_concat(
                        *self,
                        acc,
                        items_head_blocks(items@.take(j as int)),
                        t2,
                        head_blocks(b@[0]),
                    );
                    assert(items@.take(j + 1).last() == items@[j as int]);
                    acc = acc + t2;
                }
                assert(items@.take(j + 1).drop_last() == items@.take(j as int));
                lemma_keeps_trans(start, before, *self);
                if plain_divs_items(items@) {
                    assert forall|c: NodeId| adds_deep_under(start, c) implies adds_deep_under(
                        *self,
                        c,
                    ) && added_under(start, *self, c) by {
                        lemma_added_under_trans(start, before, *self, c);
                    }
                }
            }
            j = j + 1;
        }
        assert(items@.take(items@.len() as int) == items@);
    }

    /// Adds one section for each task item.
    fn section_task_items(&mut self, items: &Vec<(bool, DocumentBlocks)>)
        requires
            old(self).wf(),
            crate::model::document::task_items_ok(items@),
        ensures
            keeps(*old(self), *final(self)),
            plain_divs_task_items(items@) ==> forall|c: NodeId|
                adds_deep_under(*old(self), c) ==> adds_deep_under(*final(self), c) && added_under(
                    *old(self),
                    *final(self),
                    c,
                ),
            plain_divs_task_items(items@) ==> final(self).spec_graph().nodes@.len() >= old(
                self,
            ).spec_graph().nodes@.len() + task_items_weight(items@),
            plain_divs_task_items(items@) && filled_task_items(items@) && items@.len() > 0 && old(
                self,
            ).spec_builder().next_parent() is Some ==> settled_under(
                *old(self),
                *final(self),
                old(self).spec_builder().next_parent().unwrap(),
            ),
            items@.len() > 0 && items@[0].1@.len() > 0 && !list_headed(items@[0].1@[0])
                ==> final(self).spec_graph().nodes@.len() > old(self).spec_graph().nodes@.len()
                && parent_in(
                final(self).spec_graph().nodes@,
                old(self).spec_graph().nodes@.len() as int,
            ) == old(self).spec_builder().next_parent(),
            plain_divs_task_items(items@) && filled_task_items(items@) && items@.len() > 0 && old(
                self,
            ).spec_builder().next_parent() is Some ==> exists|tops: Seq<NodeId>|
                {
                    &&& #[trigger] parts_under(
                        final(self).spec_graph().nodes@,
                        old(self).spec_graph().nodes@.len() as int,
                        final(self).spec_graph().nodes@.len() as int,
                        tops,
                        old(self).spec_builder().next_parent().unwrap(),
                    )
                    &&& tops.len() == task_items_head_blocks(items@).len()
                    &&& tops.len() > 0
                    &&& tops.last() == final(self).spec_builder().spec_id()
                    &&& sections_of(*final(self), tops, task_items_head_blocks(items@))
                },
        decreases items, 0nat, 0nat,
    {
        let ghost start = *self;
        let ghost mut acc: Seq<NodeId> = Seq::empty();
        assert(items@.take(0) =~= Seq::empty());
        let mut j: usize = 0;
        while j < items.len()
            invariant
                j <= items@.len(),
                crate::model::document::task_items_ok(items@),
                keeps(start, *self),
                plain_divs_task_items(items@) ==> forall|c: NodeId|
                    adds_deep_under(start, c) ==> adds_deep_under(*self, c) && added_under(
                        start,
                        *self,
                        c,
                    ),
                plain_divs_task_items(items@) ==> self.spec_graph().nodes@.len() >= start.spec_graph().nodes@.len()
                    + task_items_weight(items@.take(j as int)),
                j == 0 ==> *self == start,
                plain_divs_task_items(items@) && filled_task_items(items@) && start.spec_builder().next_parent() is Some ==> {
                    &&& parts_under(
                        self.spec_graph().nodes@,
                        start.spec_graph().nodes@.len() as int,
                        self.spec_graph().nodes@.len() as int,
                        acc,
                        start.spec_builder().next_parent().unwrap(),
                    )
                    &&& acc.len() == task_items_head_blocks(items@.take(j as int)).len()
                    &&& sections_of(*self, acc, task_items_head_blocks(items@.take(j as int)))
                    &&& j > 0 ==> acc.len() > 0 && acc.last() == self.spec_builder().spec_id()
                },
                plain_divs_task_items(items@) && filled_task_items(items@) && start.spec_builder().next_parent() is Some && j
                    > 0 ==> settled_under(start, *self, start.spec_builder().next_parent().unwrap()),
                j > 0 && items@[0].1@.len() > 0 && !list_headed(items@[0].1@[0])
                    ==> self.spec_graph().nodes@.len() > start.spec_graph().nodes@.len() && parent_in(
                    self.spec_graph().nodes@,
                    start.spec_graph().nodes@.len() as int,
                ) == start.spec_builder().next_parent(),
            decreases items@.len() - j,
        {
            proof {
                lemma_task_items_ok(items@, j as int);
                if plain_divs_task_items(items@) {
                    lemma_plain_divs_task_items(items@, j as int);
                }
            }
            let ghost before = *self;
            let b = &items[j].1;
            self.process_section(0..b.len(), b);
            proof {
                if plain_divs_task_items(items@) && filled_task_items(items@) && start.spec_builder().next_parent() is Some {
                    let p = start.spec_builder().next_parent().unwrap();
                    lemma_filled_task_items(items@, j as int);
                    assert(before.spec_builder().next_parent() == Some(p));
                    assert(settled_under(before, *self, p));
                    if j > 0 {
                        lemma_keeps_trans(start, before, *self);
                        lemma_added_under_trans(start, before, *self, p);
                    }
                    let t2 = choose|t: Seq<NodeId>|
                        #[trigger] parts_under(
                            self.spec_graph().nodes@,
                            before.spec_graph().nodes@.len() as int,
                            self.spec_graph().nodes@.len() as int,
                            t,
                            p,
                        ) && t.len() == head_blocks(b@[0]).len() && t.len() > 0 && t.last()
                            == self.spec_builder().spec_id() && sections_of(
                            *self,
                            t,
                            head_blocks(b@[0]),
                        );
                    lemma_parts_concat(start, before, *self, acc, t2, p);
                    lemma_sections_of_kept(before, *self, acc, task_items_head_blocks(items@.take(j as int)));
                    lemma_sections_of_concat(
                        *self,
                        acc,
                        task_items_head_blocks(items@.take(j as int)),
                        t2,
                        head_blocks(b@[0]),
                    );
                    assert(items@.take(j + 1).last() == items@[j as int]);
                    acc = acc + t2;
                }
                assert(items@.take(j + 1).drop_last() == items@.take(j as int));
                lemma_keeps_trans(start, before, *self);
                if plain_divs_task_items(items@) {
                    assert forall|c: NodeId| adds_deep_under(start, c) implies adds_deep_under(
                        *self,
                        c,
                    ) && added_under(start, *self, c) by {
                        lemma_added_under_trans(start, before, *self, c);
                    }
                }
            }
            j = j + 1;
        }
        assert(items@.take(items@.len() as int) == items@);
    }

    /// Adds a block that comes before any header.
    pub fn block(&mut self, block: &DocumentBlock)
        requires
            old(self).wf(),
            block_ok(*block),
            !is_header(*block),
        ensures
            keeps(*old(self), *final(self)),
            match *block {
                DocumentBlock::CodeBlock(c) => adds_node(
                    *old(self),
                    *final(self),
                    GraphNodeKind::Raw(c.lang, c.text),
                    c.line_range,
                ),
                DocumentBlock::HorizontalRule(h) => adds_node(
                    *old(self),
                    *final(self),
                    GraphNodeKind::HorizontalRule,
                    h.line_range,
                ),
                DocumentBlock::Plain(p) => adds_line_node(
                    *old(self),
                    *final(self),
                    graph_inlines_seq(p.inlines@, key_parent(old(self).spec_key()@)),
                    p.line_range,
                    true,
                ),
                DocumentBlock::Para(p) => if is_ref_block(*block) {
                    let link = p.inlines@[0]->Link_0;
                    &&& final(self).spec_graph().nodes@.len() == old(self).spec_graph().nodes@.len() + 1
                    &&& final(self).spec_graph().nodes@[old(self).spec_graph().nodes@.len() as int].kind matches GraphNodeKind::Reference(
                        k,
                        text,
                        t,
                    ) && k@ == rel_link_key(link.url@, key_parent(old(self).spec_key()@))
                        && text@ == crate::model::document::doc_inlines_text(link.inlines@)
                        && t == crate::model::document::reference_type_of(link.link_type)
                    &&& final(self).spec_nodes_map() == old(self).spec_nodes_map().push(
                        (old(self).spec_graph().nodes@.len() as NodeId, p.line_range),
                    )
                } else {
                    adds_line_node(
                        *old(self),
                        *final(self),
                        graph_inlines_seq(p.inlines@, key_parent(old(self).spec_key()@)),
                        p.line_range,
                        true,
                    )
                },
                DocumentBlock::RawBlock(r) => adds_node(
                    *old(self),
                    *final(self),
                    GraphNodeKind::Raw(Some(r.format), r.text),
                    r.line_range,
                ),
                DocumentBlock::BulletList(_) => opens_node(
                    *old(self),
                    *final(self),
                    GraphNodeKind::BulletList,
                ),
                DocumentBlock::OrderedList(_) => opens_node(
                    *old(self),
                    *final(self),
                    GraphNodeKind::OrderedList,
                ),
                DocumentBlock::TaskList(_) => opens_node(*old(self), *final(self), GraphNodeKind::TaskList),
                DocumentBlock::BlockQuote(q) => {
                    let n = old(self).spec_graph().nodes@.len();
                    &&& opens_node(*old(self), *final(self), GraphNodeKind::Quote)
                    &&& final(self).spec_nodes_map() == old(self).spec_nodes_map().push(
                        (n as NodeId, q.line_range),
                    )
                    &&& !final(self).spec_builder().spec_insert()
                },
                DocumentBlock::Table(t) => {
                    let n = old(self).spec_graph().nodes@.len();
                    let lines = final(self).spec_graph().lines@;
                    let parent = key_parent(old(self).spec_key()@);
                    &&& final(self).spec_graph().nodes@.len() == n + 1
                    &&& final(self).spec_nodes_map() == old(self).spec_nodes_map().push(
                        (n as NodeId, t.line_range),
                    )
                    &&& final(self).spec_builder().spec_id() == n
                    &&& final(self).spec_graph().nodes@[n as int].kind matches GraphNodeKind::Table(
                        h,
                        a,
                        r,
                    ) && a@ == t.alignment@ && h@.len() == t.header@.len() && (forall|j: int|
                        0 <= j < h@.len() ==> line_at(lines, #[trigger] h@[j] as int)
                            == graph_inlines_seq(t.header@[j]@, parent)) && r@.len()
                        == t.rows@.len() && (forall|i: int|
                        0 <= i < r@.len() ==> (#[trigger] r@[i])@.len() == t.rows@[i]@.len())
                        && (forall|i: int, j: int|
                        0 <= i < r@.len() && 0 <= j < r@[i]@.len() ==> line_at(
                            lines,
                            #[trigger] r@[i]@[j] as int,
                        ) == graph_inlines_seq(t.rows@[i]@[j]@, parent))
                },
                DocumentBlock::Div(_) => !list_headed(*block) ==> {
                    &&& final(self).spec_graph().nodes@.len() == old(self).spec_graph().nodes@.len()
                        + 1
                    &&& final(self).spec_graph().nodes@[old(self).spec_graph().nodes@.len() as int].kind is Section
                    &&& final(self).spec_builder().spec_id() == old(self).spec_graph().nodes@.len()
                },
                _ => true,
            },
            plain_divs(*block) ==> final(self).spec_graph().nodes@.len() > old(
                self,
            ).spec_graph().nodes@.len(),
            !div_list_headed(*block) ==> final(self).spec_graph().nodes@.len() > old(
                self,
            ).spec_graph().nodes@.len() && parent_in(
                final(self).spec_graph().nodes@,
                old(self).spec_graph().nodes@.len() as int,
            ) == old(self).spec_builder().next_parent(),
            plain_divs(*block) ==> forall|c: NodeId|
                adds_under(*old(self), c) ==> adds_deep_under(*final(self), c) && added_under(
                    *old(self),
                    *final(self),
                    c,
                ),
            plain_divs(*block) && filled(*block) ==> {
                let n = old(self).spec_graph().nodes@.len();
                &&& final(self).spec_builder().spec_id() == n
                &&& !final(self).spec_builder().spec_insert()
                &&& forall|x: int|
                    n < x < final(self).spec_graph().nodes@.len() ==> #[trigger] descends(
                        final(self).spec_graph().nodes@,
                        x,
                        n as NodeId,
                    )
            },
            plain_divs(*block) && filled(*block) ==> {
                let n = old(self).spec_graph().nodes@.len() as int;
                match *block {
                    DocumentBlock::BulletList(l) => exists|tops: Seq<NodeId>|
                        #[trigger] parts_under(
                            final(self).spec_graph().nodes@,
                            n + 1,
                            final(self).spec_graph().nodes@.len() as int,
                            tops,
                            n as NodeId,
                        ) && tops.len() == items_head_blocks(l.items@).len() && sections_of(
                            *final(self),
                            tops,
                            items_head_blocks(l.items@),
                        ),
                    DocumentBlock::OrderedList(l) => exists|tops: Seq<NodeId>|
                        #[trigger] parts_under(
                            final(self).spec_graph().nodes@,
                            n + 1,
                            final(self).spec_graph().nodes@.len() as int,
                            tops,
                            n as NodeId,
                        ) && tops.len() == items_head_blocks(l.items@).len() && sections_of(
                            *final(self),
                            tops,
                            items_head_blocks(l.items@),
                        ),
                    DocumentBlock::TaskList(l) => exists|tops: Seq<NodeId>|
                        #[trigger] parts_under(
                            final(self).spec_graph().nodes@,
                            n + 1,
                            final(self).spec_graph().nodes@.len() as int,
                            tops,
                            n as NodeId,
                        ) && tops.len() == task_items_head_blocks(l.items@).len() && sections_of(
                            *final(self),
                            tops,
                            task_items_head_blocks(l.items@),
                        ),
                    DocumentBlock::BlockQuote(q) => q.blocks@.len() > 0 ==> exists|tops: Seq<NodeId>|
                        #[trigger] parts_under(
                            final(self).spec_graph().nodes@,
                            n + 1,
                            final(self).spec_graph().nodes@.len() as int,
                            tops,
                            n as NodeId,
                        ) && tops.len() == part_heads(q.blocks@, 0, q.blocks@.len() as int).len(),
                    _ => true,
                }
            },
            *block is Div && !list_headed(*block) ==> adds_line_node(
                *old(self),
                *final(self),
                head_line(*block, key_parent(old(self).spec_key()@)).0,
                head_line(*block, key_parent(old(self).spec_key()@)).1,
                false,
            ),
            !div_list_headed(*block) ==> made_by(
                *final(self),
                old(self).spec_graph().nodes@.len() as int,
                *block,
            ),
        decreases block, 0nat, 0nat,
    {
        let ghost start = *self;
        let parent = self.key.parent();
        match block {
            DocumentBlock::CodeBlock(code_block) => {
                self.builder.raw(&code_block.text, clone_lang(&code_block.lang));
                proof {
                    lemma_map_ok_grow(
                        self.nodes_map@,
                        start.spec_graph().nodes@.len(),
                        self.spec_graph().nodes@.len(),
                    );
                }
                self.set_lines_range(code_block.line_range);
            },
            DocumentBlock::RawBlock(raw_block) => {
                self.builder.raw(&raw_block.text, Some(raw_block.format.clone()));
                proof {
                    lemma_map_ok_grow(
                        self.nodes_map@,
                        start.spec_graph().nodes@.len(),
                        self.spec_graph().nodes@.len(),
                    );
                }
                self.set_lines_range(raw_block.line_range);
            },
            DocumentBlock::Plain(plain) => {
                let inlines = to_graph_inlines(&plain.inlines, &parent);
                self.add_leaf(inlines, plain.line_range);
            },
            DocumentBlock::Para(para) => {
                if block.is_ref() {
                    match &para.inlines[0] {
                        DocumentInline::Link(link) => {
                            let key = Key::from_rel_link_url(&link.url, &parent);
                            let text = crate::model::document::doc_inlines_plain_text(
                                &link.inlines,
                            );
                            let t = match link.link_type {
                                crate::model::inline::LinkType::Regular => crate::model::node::ReferenceType::Regular,
                                crate::model::inline::LinkType::WikiLink => crate::model::node::ReferenceType::WikiLink,
                                crate::model::inline::LinkType::WikiLinkPiped => crate::model::node::ReferenceType::WikiLinkPiped,
                            };
                            self.builder.reference_with_text(&key, &text, t);
                            proof {
                                lemma_map_ok_grow(
                                    self.nodes_map@,
                                    start.spec_graph().nodes@.len(),
                                    self.spec_graph().nodes@.len(),
                                );
                            }
                            self.set_lines_range(para.line_range);
                        },
                        _ => {
                            proof {
                                assert(false);
                            }
                        },
                    }
                } else {
                    let inlines = to_graph_inlines(&para.inlines, &parent);
                    self.add_leaf(inlines, para.line_range);
                }
            },
            DocumentBlock::BulletList(list) => {
                self.builder.bullet_list();
                let ghost placed_list = *self;
                self.builder.set_insert(true);
                let id = self.builder.id();
                let ghost before = *self;
                self.section_items(&list.items);
                let ghost after = *self;
                self.builder.set_id(id);
                proof {
                    if plain_divs(*block) && filled(*block) {
                        let t = choose|t: Seq<NodeId>|
                            #[trigger] parts_under(
                                after.spec_graph().nodes@,
                                before.spec_graph().nodes@.len() as int,
                                after.spec_graph().nodes@.len() as int,
                                t,
                                before.spec_builder().next_parent().unwrap(),
                            ) && t.len() == items_head_blocks(list.items@).len() && t.len() > 0 && t.last()
                                == after.spec_builder().spec_id() && sections_of(after, t, items_head_blocks(list.items@));
                        lemma_sections_of_kept(after, *self, t, items_head_blocks(list.items@));
                        assert(parts_under(
                            self.spec_graph().nodes@,
                            start.spec_graph().nodes@.len() as int + 1,
                            self.spec_graph().nodes@.len() as int,
                            t,
                            start.spec_graph().nodes@.len() as NodeId,
                        ));
                    }
                    lemma_keeps_trans(start, before, after);
                    lemma_keeps_trans(start, after, *self);
                    lemma_keeps_trans(before, after, *self);
                    if plain_divs(*block) {
                        assert forall|c: NodeId| adds_under(start, c) implies adds_deep_under(
                            *self,
                            c,
                        ) && added_under(start, *self, c) by {
                            lemma_placed_under(start, placed_list, c);
                            lemma_at_node_under(before, c);
                            lemma_under_kept(before, *self, id as int, c);
                            lemma_at_node_under(*self, c);
                            lemma_added_under_trans(start, before, *self, c);
                        }
                    }
                }
            },
            DocumentBlock::TaskList(list) => {
                self.builder.task_list();
                let ghost placed_list = *self;
                self.builder.set_insert(true);
                let id = self.builder.id();
                let ghost before = *self;
                self.section_task_items(&list.items);
                let ghost after = *self;
                self.builder.set_id(id);
                proof {
                    if plain_divs(*block) && filled(*block) {
                        let t = choose|t: Seq<NodeId>|
                            #[trigger] parts_under(
                                after.spec_graph().nodes@,
                                before.spec_graph().nodes@.len() as int,
                                after.spec_graph().nodes@.len() as int,
                                t,
                                before.spec_builder().next_parent().unwrap(),
                            ) && t.len() == task_items_head_blocks(list.items@).len() && t.len() > 0 && t.last()
                                == after.spec_builder().spec_id() && sections_of(after, t, task_items_head_blocks(list.items@));
                        lemma_sections_of_kept(after, *self, t, task_items_head_blocks(list.items@));
                        assert(parts_under(
                            self.spec_graph().nodes@,
                            start.spec_graph().nodes@.len() as int + 1,
                            self.spec_graph().nodes@.len() as int,
                            t,
                            start.spec_graph().nodes@.len() as NodeId,
                        ));
                    }
                    lemma_keeps_trans(start, before, after);
                    lemma_keeps_trans(start, after, *self);
                    lemma_keeps_trans(before, after, *self);
                    if plain_divs(*block) {
                        assert forall|c: NodeId| adds_under(start, c) implies adds_deep_under(
                            *self,
                            c,
                        ) && added_under(start, *self, c) by {
                            lemma_placed_under(start, placed_list, c);
                            lemma_at_node_under(before, c);
                            lemma_under_kept(before, *self, id as int, c);
                            lemma_at_node_under(*self, c);
                            lemma_added_under_trans(start, before, *self, c);
                        }
                    }
                }
            },
            DocumentBlock::OrderedList(list) => {
                self.builder.ordered_list();
                let ghost placed_list = *self;
                self.builder.set_insert(true);
                let id = self.builder.id();
                let ghost before = *self;
                self.section_items(&list.items);
                let ghost after = *self;
                self.builder.set_id(id);
                proof {
                    if plain_divs(*block) && filled(*block) {
                        let t = choose|t: Seq<NodeId>|
                            #[trigger] parts_under(
                                after.spec_graph().nodes@,
                                before.spec_graph().nodes@.len() as int,
                                after.spec_graph().nodes@.len() as int,
                                t,
                                before.spec_builder().next_parent().unwrap(),
                            ) && t.len() == items_head_blocks(list.items@).len() && t.len() > 0 && t.last()
                                == after.spec_builder().spec_id() && sections_of(after, t, items_head_blocks(list.items@));
                        lemma_sections_of_kept(after, *self, t, items_head_blocks(list.items@));
                        assert(parts_under(
                            self.spec_graph().nodes@,
                            start.spec_graph().nodes@.len() as int + 1,
                            self.spec_graph().nodes@.len() as int,
                            t,
                            start.spec_graph().nodes@.len() as NodeId,
                        ));
                    }
                    lemma_keeps_trans(start, before, after);
                    lemma_keeps_trans(start, after, *self);
                    lemma_keeps_trans(before, after, *self);
                    if plain_divs(*block) {
                        assert forall|c: NodeId| adds_under(start, c) implies adds_deep_under(
                            *self,
                            c,
                        ) && added_under(start, *self, c) by {
                            lemma_placed_under(start, placed_list, c);
                            lemma_at_node_under(before, c);
                            lemma_under_kept(before, *self, id as int, c);
                            lemma_at_node_under(*self, c);
                            lemma_added_under_trans(start, before, *self, c);
                        }
                    }
                }
            },
            DocumentBlock::BlockQuote(quote) => {
                self.builder.quote();
                let ghost placed_quote = *self;
                proof {
                    lemma_map_ok_grow(
                        self.nodes_map@,
                        start.spec_graph().nodes@.len(),
                        self.spec_graph().nodes@.len(),
                    );
                }
                self.set_lines_range(quote.line_range);
                let id = self.builder.id();
                let ghost before = *self;
                let ghost quote_graph = self.spec_graph();
                let mut outer_map: NodesMap = Vec::new();
                std::mem::swap(&mut outer_map, &mut self.nodes_map);
                self.builder.set_insert(false);
                let ghost inner_start = *self;
                self.process_blocks(0..quote.blocks.len(), &quote.blocks);
                let ghost inner_end = *self;
                self.nodes_map = outer_map;
                self.builder.set_id(id);
                self.builder.set_insert(false);
                proof {
                    assert(keeps(before, *self));
                    lemma_keeps_trans(start, before, *self);
                    if plain_divs(*block) && filled(*block) && quote.blocks@.len() > 0 {
                        let t = choose|t: Seq<NodeId>|
                            #[trigger] parts_under(
                                inner_end.spec_graph().nodes@,
                                inner_start.spec_graph().nodes@.len() as int,
                                inner_end.spec_graph().nodes@.len() as int,
                                t,
                                inner_start.spec_builder().spec_id(),
                            ) && t.len() == part_heads(
                                quote.blocks@,
                                0,
                                quote.blocks@.len() as int,
                            ).len() && (forall|j: int|
                                0 <= j < t.len() && is_header(
                                    quote.blocks@[part_heads(
                                        quote.blocks@,
                                        0,
                                        quote.blocks@.len() as int,
                                    )[j]],
                                ) ==> (#[trigger] inner_end.spec_graph().nodes@[t[j] as int]).kind is Section);
                        assert(parts_under(
                            self.spec_graph().nodes@,
                            start.spec_graph().nodes@.len() as int + 1,
                            self.spec_graph().nodes@.len() as int,
                            t,
                            start.spec_graph().nodes@.len() as NodeId,
                        ));
                    }
                    if plain_divs(*block) {
                        assert forall|c: NodeId| adds_under(start, c) implies adds_deep_under(
                            *self,
                            c,
                        ) && added_under(start, *self, c) by {
                            lemma_placed_under(start, placed_quote, c);
                            lemma_under_kept(placed_quote, *self, id as int, c);
                            lemma_at_node_under(*self, c);
                            assert forall|x: int|
                                start.spec_graph().nodes@.len() <= x
                                    < self.spec_graph().nodes@.len() implies #[trigger] descends(
                                self.spec_graph().nodes@,
                                x,
                                c,
                            ) by {
                                if x > id {
                                    assert(inner_start.spec_builder().spec_id() == id);
                                    assert(added_under(inner_start, inner_end, id));
                                    assert(self.spec_graph() == inner_end.spec_graph());
                                    assert(descends(self.spec_graph().nodes@, x, id));
                                    crate::graph::lemma_descends_trans(
                                        self.spec_graph().nodes@,
                                        x,
                                        id,
                                        c,
                                    );
                                }
                            }
                        }
                    }
                }
            },
            DocumentBlock::HorizontalRule(rule) => {
                self.builder.horizontal_rule();
                proof {
                    lemma_map_ok_grow(
                        self.nodes_map@,
                        start.spec_graph().nodes@.len(),
                        self.spec_graph().nodes@.len(),
                    );
                }
                self.set_lines_range(rule.line_range);
            },
            DocumentBlock::Div(div) => {
                proof {
                    lemma_blocks_ok(div.blocks@, 0);
                }
                self.section_block(&div.blocks[0]);
            },
            DocumentBlock::Header(_) => {
                proof {
                    assert(false);
                }
            },
            DocumentBlock::Table(table) => {
                let ghost before = *self;
                let mut header: Vec<LineId> = Vec::new();
                let mut j: usize = 0;
                while j < table.header.len()
                    invariant
                        j <= table.header@.len(),
                        keeps(before, *self),
                        self.spec_graph().nodes@.len() == before.spec_graph().nodes@.len(),
                        self.spec_graph().nodes@ == before.spec_graph().nodes@,
                        self.spec_builder().spec_id() == before.spec_builder().spec_id(),
                        self.spec_builder().spec_insert() == before.spec_builder().spec_insert(),
                        self.spec_nodes_map() == before.spec_nodes_map(),
                        self.spec_key() == before.spec_key(),
                        forall|a: int| 0 <= a < header@.len() ==> #[trigger] header@[a]
                            < self.spec_graph().lines@.len(),
                        header@.len() == j,
                        parent@ == key_parent(before.spec_key()@),
                        forall|a: int|
                            0 <= a < header@.len() ==> line_at(
                                self.spec_graph().lines@,
                                #[trigger] header@[a] as int,
                            ) == graph_inlines_seq(table.header@[a]@, parent@),
                    decreases table.header@.len() - j,
                {
                    let inlines = to_graph_inlines(&table.header[j], &parent);
                    let ghost step = *self;
                    let l = self.builder.add_line(inlines);
                    header.push(l);
                    proof {
                        lemma_keeps_trans(before, step, *self);
                    }
                    j = j + 1;
                }
                let mut rows: Vec<Vec<LineId>> = Vec::new();
                let mut r: usize = 0;
                while r < table.rows.len()
                    invariant
                        r <= table.rows@.len(),
                        keeps(before, *self),
                        self.spec_graph().nodes@.len() == before.spec_graph().nodes@.len(),
                        self.spec_graph().nodes@ == before.spec_graph().nodes@,
                        self.spec_builder().spec_id() == before.spec_builder().spec_id(),
                        self.spec_builder().spec_insert() == before.spec_builder().spec_insert(),
                        self.spec_nodes_map() == before.spec_nodes_map(),
                        self.spec_key() == before.spec_key(),
                        forall|a: int| 0 <= a < header@.len() ==> #[trigger] header@[a]
                            < self.spec_graph().lines@.len(),
                        forall|a: int, b: int|
                            0 <= a < rows@.len() && 0 <= b < rows@[a]@.len() ==> #[trigger] rows@[a]@[b]
                                < self.spec_graph().lines@.len(),
                        header@.len() == table.header@.len(),
                        parent@ == key_parent(before.spec_key()@),
                        forall|a: int|
                            0 <= a < header@.len() ==> line_at(
                                self.spec_graph().lines@,
                                #[trigger] header@[a] as int,
                            ) == graph_inlines_seq(table.header@[a]@, parent@),
                        rows@.len() == r,
                        forall|a: int| 0 <= a < rows@.len() ==> (#[trigger] rows@[a])@.len()
                            == table.rows@[a]@.len(),
                        forall|a: int, b: int|
                            0 <= a < rows@.len() && 0 <= b < rows@[a]@.len() ==> line_at(
                                self.spec_graph().lines@,
                                #[trigger] rows@[a]@[b] as int,
                            ) == graph_inlines_seq(table.rows@[a]@[b]@, parent@),
                    decreases table.rows@.len() - r,
                {
                    let mut row: Vec<LineId> = Vec::new();
                    let cells = &table.rows[r];
                    let mut c: usize = 0;
                    while c < cells.len()
                        invariant
                            c <= cells@.len(),
                            keeps(before, *self),
                            self.spec_graph().nodes@.len() == before.spec_graph().nodes@.len(),
                            self.spec_graph().nodes@ == before.spec_graph().nodes@,
                            self.spec_builder().spec_id() == before.spec_builder().spec_id(),
                            self.spec_builder().spec_insert() == before.spec_builder().spec_insert(),
                            self.spec_nodes_map() == before.spec_nodes_map(),
                            self.spec_key() == before.spec_key(),
                            forall|a: int| 0 <= a < header@.len() ==> #[trigger] header@[a]
                                < self.spec_graph().lines@.len(),
                            forall|a: int, b: int|
                                0 <= a < rows@.len() && 0 <= b < rows@[a]@.len() ==> #[trigger] rows@[a]@[b]
                                    < self.spec_graph().lines@.len(),
                            forall|b: int| 0 <= b < row@.len() ==> #[trigger] row@[b]
                                < self.spec_graph().lines@.len(),
                            header@.len() == table.header@.len(),
                            parent@ == key_parent(before.spec_key()@),
                            forall|a: int|
                                0 <= a < header@.len() ==> line_at(
                                    self.spec_graph().lines@,
                                    #[trigger] header@[a] as int,
                                ) == graph_inlines_seq(table.header@[a]@, parent@),
                            rows@.len() == r,
                            forall|a: int| 0 <= a < rows@.len() ==> (#[trigger] rows@[a])@.len()
                                == table.rows@[a]@.len(),
                            forall|a: int, b: int|
                                0 <= a < rows@.len() && 0 <= b < rows@[a]@.len() ==> line_at(
                                    self.spec_graph().lines@,
                                    #[trigger] rows@[a]@[b] as int,
                                ) == graph_inlines_seq(table.rows@[a]@[b]@, parent@),
                            cells == &table.rows@[r as int],
                            row@.len() == c,
                            forall|b: int|
                                0 <= b < row@.len() ==> line_at(
                                    self.spec_graph().lines@,
                                    #[trigger] row@[b] as int,
                                ) == graph_inlines_seq(cells@[b]@, parent@),
                        decreases cells@.len() - c,
                    {
                        let inlines = to_graph_inlines(&cells[c], &parent);
                        let ghost step = *self;
                        let l = self.builder.add_line(inlines);
                        row.push(l);
                        proof {
                            lemma_keeps_trans(before, step, *self);
                        }
                        c = c + 1;
                    }
                    let ghost rows_before = rows@;
                    rows.push(row);
                    proof {
                        assert forall|a: int, b: int|
                            0 <= a < rows@.len() && 0 <= b < rows@[a]@.len() implies #[trigger] rows@[a]@[b]
                            < self.spec_graph().lines@.len() by {
                            if a < rows_before.len() {
                                assert(rows@[a] == rows_before[a]);
                            }
                        }
                        assert forall|a: int, b: int|
                            0 <= a < rows@.len() && 0 <= b < rows@[a]@.len() implies line_at(
                            self.spec_graph().lines@,
                            #[trigger] rows@[a]@[b] as int,
                        ) == graph_inlines_seq(table.rows@[a]@[b]@, parent@) by {
                            if a < rows_before.len() {
                                assert(rows@[a] == rows_before[a]);
                            }
                        }
                    }
                    r = r + 1;
                }
                let alignment = duplicate_alignment(&table.alignment);
                let ghost step = *self;
                self.builder.table(header, alignment, rows);
                proof {
                    lemma_map_ok_grow(
                        self.nodes_map@,
                        step.spec_graph().nodes@.len(),
                        self.spec_graph().nodes@.len(),
                    );
                }
                self.set_lines_range(table.line_range);
                proof {
                    crate::graph::builder::lemma_grows_extends(
                        step.spec_graph(),
                        self.spec_graph(),
                        GraphNodeKind::Table(header, alignment, rows),
                    );
                    lemma_keeps_trans(before, step, *self);
                }
            },
        }
        proof {
            let m = start.spec_nodes_map().len() as int;
            if self.spec_nodes_map().len() > m {
                let v = self.spec_nodes_map()[m];
                assert(self.spec_nodes_map().contains(v));
            }
            if plain_divs(*block) && !(*block is BulletList) && !(*block is OrderedList)
                && !(*block is TaskList) && !(*block is BlockQuote) {
                if *block is Div {
                    lemma_blocks_ok(block->Div_0.blocks@, 0);
                }
                assert forall|c: NodeId| adds_under(start, c) implies adds_deep_under(*self, c)
                    && added_under(start, *self, c) by {
                    lemma_placed_under(start, *self, c);
                }
            }
        }
    }
}

/// What a filter keeps comes from the sequence.
proof fn lemma_filter_elements<A>(s: Seq<A>, p: spec_fn(A) -> bool)
    ensures
        forall|i: int|
            0 <= i < s.filter(p).len() ==> exists|k: int|
                0 <= k < s.len() && s[k] == #[trigger] s.filter(p)[i],
    decreases s.len(),
{
    if s.len() > 0 {
        lemma_filter_elements(s.drop_last(), p);
        s.drop_last().lemma_filter_push(s.last(), p);
        assert(s.drop_last().push(s.last()) == s);
        let f = s.drop_last().filter(p);
        assert forall|i: int| 0 <= i < s.filter(p).len() implies exists|k: int|
            0 <= k < s.len() && s[k] == #[trigger] s.filter(p)[i] by {
            if i < f.len() {
                let k = choose|k: int| 0 <= k < s.drop_last().len() && s.drop_last()[k] == f[i];
                assert(s.drop_last()[k] == s[k]);
            } else {
                assert(s[s.len() - 1] == s.filter(p)[i]);
            }
        }
    }
}

/// Keeping the elements of an increasing sequence that pass a test leaves it increasing.
proof fn lemma_filter_increasing(s: Seq<usize>, p: spec_fn(usize) -> bool)
    requires
        forall|i: int, j: int| 0 <= i < j < s.len() ==> #[trigger] s[i] < #[trigger] s[j],
    ensures
        forall|i: int, j: int|
            0 <= i < j < s.filter(p).len() ==> #[trigger] s.filter(p)[i] < #[trigger] s.filter(
                p,
            )[j],
    decreases s.len(),
{
    if s.len() > 0 {
        lemma_filter_increasing(s.drop_last(), p);
        s.drop_last().lemma_filter_push(s.last(), p);
        assert(s.drop_last().push(s.last()) == s);
        let f = s.drop_last().filter(p);
        lemma_filter_elements(s.drop_last(), p);
        assert forall|a: int| 0 <= a < f.len() implies #[trigger] f[a] < s.last() by {
            let k = choose|k: int| 0 <= k < s.drop_last().len() && s.drop_last()[k] == f[a];
            assert(s.drop_last()[k] == s[k]);
            assert(s[k] < s[s.len() - 1]);
        }
    }
}

} // verus!
