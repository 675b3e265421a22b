use liwe::graph::basic_iter::GraphNodePointer;
use liwe::graph::builder::GraphBuilder;
use liwe::graph::index::RefIndex;
use liwe::graph::sections_builder::{first_header, first_header_level, SectionsBuilder};
use liwe::graph::Graph;
use liwe::model::document::{
    BulletList, DocumentBlock, DocumentInline, Header, InlineRange, Link, Para, Plain,
    Position,
};
use liwe::model::inline::{GraphInline, LinkType};
use liwe::model::node::{Node, NodeIter, NodePointer};
use liwe::model::{Key, LineRange};

fn lines(start: usize, end: usize) -> LineRange {
    LineRange { start, end }
}

fn header(level: u8, text: &str, start: usize) -> DocumentBlock {
    DocumentBlock::Header(Header {
        line_range: lines(start, start + 1),
        level,
        inlines: vec![DocumentInline::Str(text.to_string())],
    })
}

fn para(text: &str, start: usize) -> DocumentBlock {
    DocumentBlock::Para(Para {
        line_range: lines(start, start + 1),
        inlines: vec![DocumentInline::Str(text.to_string())],
    })
}

fn plain(text: &str, start: usize) -> DocumentBlock {
    DocumentBlock::Plain(Plain {
        line_range: lines(start, start + 1),
        inlines: vec![DocumentInline::Str(text.to_string())],
    })
}

fn no_range() -> InlineRange {
    InlineRange {
        start: Position { line: 0, character: 0 },
        end: Position { line: 0, character: 0 },
    }
}

fn build(blocks: &Vec<DocumentBlock>) -> (Graph, Vec<(usize, LineRange)>) {
    let key = Key::new("key");
    let builder = GraphBuilder::for_document(Graph::new(), &key);
    let sections = SectionsBuilder::new(builder, blocks, &key);
    let map = sections.nodes_map();
    (sections.into_builder().into_graph(), map)
}

#[test]
fn reference_block_and_index() {
    let link = DocumentInline::Link(Link {
        inlines: vec![DocumentInline::Str("Other".to_string())],
        url: "other.md".to_string(),
        title: String::new(),
        inline_range: no_range(),
        link_type: LinkType::Regular,
    });
    let blocks = vec![
        header(1, "title", 0),
        DocumentBlock::Para(Para { line_range: lines(2, 3), inlines: vec![link] }),
    ];
    let key = Key::new("dir/key");
    let builder = GraphBuilder::for_document(Graph::new(), &key);
    let graph = SectionsBuilder::new(builder, &blocks, &key).into_builder().into_graph();
    let reference = GraphNodePointer::new(&graph, 2);
    assert!(reference.is_reference());
    assert_eq!(reference.ref_key().unwrap().relative_path, "dir/other");
    assert_eq!(reference.ref_text(), Some("Other".to_string()));
    assert_eq!(reference.node_key().relative_path, "dir/key");

    let mut index = RefIndex::new();
    index.index_node(&graph, 0);
    assert_eq!(index.get_block_references_to(&Key::new("dir/other")), vec![2]);
    assert!(index.get_block_references_to(&Key::new("dir/key")).is_empty());
    assert!(index.get_inline_references_to(&Key::new("dir/other")).is_empty());
}

#[test]
fn first_header_in_range() {
    let blocks = vec![para("a", 0), header(2, "b", 1), header(1, "c", 2)];
    assert_eq!(first_header(0..3, &blocks), Some(1));
    assert_eq!(first_header(2..3, &blocks), Some(2));
    assert_eq!(first_header(0..1, &blocks), None);
    assert_eq!(first_header_level(0..3, &blocks), Some(2));
    assert_eq!(first_header_level(0..1, &blocks), None);
}

#[test]
fn node_plain_text_and_reference() {
    let node = Node::Leaf(vec![
        GraphInline::Str("a ".to_string()),
        GraphInline::Tag("t".to_string()),
    ]);
    assert_eq!(node.plain_text(), "a #t");
    assert!(!node.is_reference());
    assert!(node.reference_key().is_none());
}

#[test]
fn plain_blocks_in_items_become_sections() {
    let blocks = vec![DocumentBlock::BulletList(BulletList {
        items: vec![vec![plain("one", 0)], vec![plain("two", 1)]],
    })];
    let (graph, map) = build(&blocks);
    let list = GraphNodePointer::new(&graph, 1);
    assert!(list.is_bullet_list());
    assert_eq!(list.get_sub_nodes(), vec![2, 3]);
    assert_eq!(GraphNodePointer::new(&graph, 2).plain_text(), "one");
    assert_eq!(map, vec![(2, lines(0, 1)), (3, lines(1, 2))]);
}

#[test]
fn paragraphs_before_a_header_stay_at_the_top() {
    let blocks = vec![para("intro", 0), header(1, "h", 2), para("body", 4)];
    let (graph, map) = build(&blocks);
    let doc = GraphNodePointer::new(&graph, 0);
    let intro = doc.to_child().unwrap();
    assert!(intro.is_leaf());
    assert_eq!(intro.plain_text(), "intro");
    let section = intro.to_next().unwrap();
    assert!(section.is_section());
    assert_eq!(section.to_child().unwrap().plain_text(), "body");
    assert_eq!(map, vec![(1, lines(0, 1)), (2, lines(2, 3)), (3, lines(4, 5))]);
}

#[test]
fn every_block_gives_a_node_and_the_first_goes_under_the_document() {
    let blocks = vec![
        para("intro", 0),
        plain("more", 2),
        header(1, "one", 4),
        para("text", 6),
        header(2, "two", 8),
        para("deeper", 10),
    ];
    let (graph, map) = build(&blocks);
    assert_eq!(graph.nodes.len(), 1 + blocks.len());
    assert_eq!(map.len(), blocks.len());
    let first = GraphNodePointer::new(&graph, 1);
    assert_eq!(first.to_parent().and_then(|p| p.id()), Some(0));
}

#[test]
fn every_item_gives_a_section() {
    let blocks = vec![DocumentBlock::BulletList(BulletList {
        items: vec![vec![plain("a", 0)], vec![plain("b", 1), para("c", 2)]],
    })];
    let (graph, _) = build(&blocks);
    // the document node, the list node, and one node for each block of the items
    assert_eq!(graph.nodes.len(), 1 + 1 + 3);
    let item = GraphNodePointer::new(&graph, 2);
    assert!(item.is_section());
    assert_eq!(item.to_parent().and_then(|p| p.id()), Some(1));
}

#[test]
fn headers_nest_by_level_and_same_level_headers_are_siblings() {
    let blocks = vec![
        para("before", 0),
        header(1, "a", 2),
        header(2, "b", 4),
        para("text", 6),
        header(1, "c", 8),
    ];
    let (graph, _) = build(&blocks);
    let parent = |id: usize| GraphNodePointer::new(&graph, id).to_parent().and_then(|p| p.id());
    assert_eq!(graph.nodes.len(), 6);
    assert_eq!(parent(1), Some(0));
    assert_eq!(parent(2), Some(0));
    assert_eq!(parent(3), Some(2));
    assert_eq!(parent(4), Some(3));
    assert_eq!(parent(5), Some(0));
}
