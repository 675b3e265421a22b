use liwe::graph::basic_iter::GraphNodePointer;
use liwe::graph::builder::GraphBuilder;
use liwe::graph::sections_builder::SectionsBuilder;
use liwe::graph::Graph;
use liwe::markdown::events::{
    to_link_type, CodeBlockKind, MarkdownAlignment, MarkdownEvent, MarkdownLinkType, MarkdownTag,
    MarkdownTagEnd, SpannedEvent,
};
use liwe::markdown::lines::{line_starts, to_inline_range, to_line_range};
use liwe::markdown::reader::MarkdownEventsReader;
use liwe::markdown::tags::split_hashtags;
use liwe::model::copy::duplicate_blocks;
use liwe::model::document::{
    BlockQuote, BulletList, Code, CodeBlock, DocumentBlock, DocumentInline, DocumentTable, Emph,
    Header, InlineRange, Link, OrderedList, Para, Position,
};
use liwe::model::inline::LinkType;
use liwe::model::node::ColumnAlignment;
use liwe::model::node::{NodeIter, NodePointer};
use liwe::model::{Key, LineRange};
use pulldown_cmark::{Alignment, Event, Options, Parser, Tag, TagEnd};

fn events(content: &str) -> Vec<SpannedEvent> {
    let options = Options::ENABLE_YAML_STYLE_METADATA_BLOCKS
        | Options::ENABLE_WIKILINKS
        | Options::ENABLE_TABLES
        | Options::ENABLE_TASKLISTS;
    Parser::new_ext(content, options)
        .into_offset_iter()
        .map(|(event, range)| SpannedEvent {
            event: event_of(event),
            start: range.start,
            end: range.end,
        })
        .collect()
}

fn event_of(event: Event) -> MarkdownEvent {
    match event {
        Event::Start(tag) => MarkdownEvent::Start(tag_of(tag)),
        Event::End(tag) => MarkdownEvent::End(tag_end_of(tag)),
        Event::Text(t) => MarkdownEvent::Text(t.to_string()),
        Event::Code(t) => MarkdownEvent::Code(t.to_string()),
        Event::InlineMath(t) => MarkdownEvent::InlineMath(t.to_string()),
        Event::DisplayMath(t) => MarkdownEvent::DisplayMath(t.to_string()),
        Event::Html(t) => MarkdownEvent::Html(t.to_string()),
        Event::InlineHtml(t) => MarkdownEvent::InlineHtml(t.to_string()),
        Event::FootnoteReference(t) => MarkdownEvent::FootnoteReference(t.to_string()),
        Event::SoftBreak => MarkdownEvent::SoftBreak,
        Event::HardBreak => MarkdownEvent::HardBreak,
        Event::Rule => MarkdownEvent::Rule,
        Event::TaskListMarker(c) => MarkdownEvent::TaskListMarker(c),
    }
}

fn link_type_of(t: pulldown_cmark::LinkType) -> MarkdownLinkType {
    match t {
        pulldown_cmark::LinkType::WikiLink { has_pothole } => {
            MarkdownLinkType::WikiLink { has_pothole }
        }
        pulldown_cmark::LinkType::Inline => MarkdownLinkType::Inline,
        pulldown_cmark::LinkType::Reference => MarkdownLinkType::Reference,
        pulldown_cmark::LinkType::ReferenceUnknown => MarkdownLinkType::ReferenceUnknown,
        pulldown_cmark::LinkType::Collapsed => MarkdownLinkType::Collapsed,
        pulldown_cmark::LinkType::CollapsedUnknown => MarkdownLinkType::CollapsedUnknown,
        pulldown_cmark::LinkType::Shortcut => MarkdownLinkType::Shortcut,
        pulldown_cmark::LinkType::ShortcutUnknown => MarkdownLinkType::ShortcutUnknown,
        pulldown_cmark::LinkType::Autolink => MarkdownLinkType::Autolink,
        pulldown_cmark::LinkType::Email => MarkdownLinkType::Email,
    }
}

fn tag_of(tag: Tag) -> MarkdownTag {
    match tag {
        Tag::Paragraph => MarkdownTag::Paragraph,
        Tag::Heading { level, .. } => MarkdownTag::Heading { level: level as u8 },
        Tag::BlockQuote(_) => MarkdownTag::BlockQuote,
        Tag::CodeBlock(pulldown_cmark::CodeBlockKind::Fenced(l)) => {
            MarkdownTag::CodeBlock(CodeBlockKind::Fenced(l.to_string()))
        }
        Tag::CodeBlock(pulldown_cmark::CodeBlockKind::Indented) => {
            MarkdownTag::CodeBlock(CodeBlockKind::Indented)
        }
        Tag::HtmlBlock => MarkdownTag::HtmlBlock,
        Tag::List(first) => MarkdownTag::List(first),
        Tag::Item => MarkdownTag::Item,
        Tag::FootnoteDefinition(_) => MarkdownTag::FootnoteDefinition,
        Tag::DefinitionList => MarkdownTag::DefinitionList,
        Tag::DefinitionListTitle => MarkdownTag::DefinitionListTitle,
        Tag::DefinitionListDefinition => MarkdownTag::DefinitionListDefinition,
        Tag::Table(a) => MarkdownTag::Table(
            a.into_iter()
                .map(|a| match a {
                    Alignment::None => MarkdownAlignment::Unaligned,
                    Alignment::Left => MarkdownAlignment::Left,
                    Alignment::Center => MarkdownAlignment::Center,
                    Alignment::Right => MarkdownAlignment::Right,
                })
                .collect(),
        ),
        Tag::TableHead => MarkdownTag::TableHead,
        Tag::TableRow => MarkdownTag::TableRow,
        Tag::TableCell => MarkdownTag::TableCell,
        Tag::Emphasis => MarkdownTag::Emphasis,
        Tag::Strong => MarkdownTag::Strong,
        Tag::Strikethrough => MarkdownTag::Strikethrough,
        Tag::Superscript => MarkdownTag::Superscript,
        Tag::Subscript => MarkdownTag::Subscript,
        Tag::Link {
            link_type,
            dest_url,
            title,
            ..
        } => MarkdownTag::Link {
            link_type: link_type_of(link_type),
            dest_url: dest_url.to_string(),
            title: title.to_string(),
        },
        Tag::Image {
            link_type,
            dest_url,
            title,
            ..
        } => MarkdownTag::Image {
            link_type: link_type_of(link_type),
            dest_url: dest_url.to_string(),
            title: title.to_string(),
        },
        Tag::MetadataBlock(_) => MarkdownTag::MetadataBlock,
    }
}

fn tag_end_of(tag: TagEnd) -> MarkdownTagEnd {
    match tag {
        TagEnd::Paragraph => MarkdownTagEnd::Paragraph,
        TagEnd::Heading(_) => MarkdownTagEnd::Heading,
        TagEnd::BlockQuote(_) => MarkdownTagEnd::BlockQuote,
        TagEnd::CodeBlock => MarkdownTagEnd::CodeBlock,
        TagEnd::HtmlBlock => MarkdownTagEnd::HtmlBlock,
        TagEnd::List(_) => MarkdownTagEnd::List,
        TagEnd::Item => MarkdownTagEnd::Item,
        TagEnd::FootnoteDefinition => MarkdownTagEnd::FootnoteDefinition,
        TagEnd::DefinitionList => MarkdownTagEnd::DefinitionList,
        TagEnd::DefinitionListTitle => MarkdownTagEnd::DefinitionListTitle,
        TagEnd::DefinitionListDefinition => MarkdownTagEnd::DefinitionListDefinition,
        TagEnd::Table => MarkdownTagEnd::Table,
        TagEnd::TableHead => MarkdownTagEnd::TableHead,
        TagEnd::TableRow => MarkdownTagEnd::TableRow,
        TagEnd::TableCell => MarkdownTagEnd::TableCell,
        TagEnd::Emphasis => MarkdownTagEnd::Emphasis,
        TagEnd::Strong => MarkdownTagEnd::Strong,
        TagEnd::Strikethrough => MarkdownTagEnd::Strikethrough,
        TagEnd::Superscript => MarkdownTagEnd::Superscript,
        TagEnd::Subscript => MarkdownTagEnd::Subscript,
        TagEnd::Link => MarkdownTagEnd::Link,
        TagEnd::Image => MarkdownTagEnd::Image,
        TagEnd::MetadataBlock(_) => MarkdownTagEnd::MetadataBlock,
    }
}

fn read_with(reader: &mut MarkdownEventsReader, content: &str) -> Vec<DocumentBlock> {
    reader.read(content, &events(content)).expect("the events to be taken")
}

fn read(content: &str) -> Vec<DocumentBlock> {
    read_with(&mut MarkdownEventsReader::new(), content)
}

fn lines(start: usize, end: usize) -> LineRange {
    LineRange { start, end }
}

fn pos(line: usize, character: usize) -> Position {
    Position { line, character }
}

fn text(s: &str) -> DocumentInline {
    DocumentInline::Str(s.to_string())
}

fn tag(s: &str) -> DocumentInline {
    DocumentInline::Tag(s.to_string())
}

fn para(range: LineRange, inlines: Vec<DocumentInline>) -> DocumentBlock {
    DocumentBlock::Para(Para {
        line_range: range,
        inlines,
    })
}

fn link_to(url: &str, text_: &str, start: Position, end: Position) -> DocumentInline {
    DocumentInline::Link(Link {
        inlines: vec![text(text_)],
        url: url.to_string(),
        title: String::new(),
        inline_range: InlineRange { start, end },
        link_type: LinkType::Regular,
    })
}

#[test]
fn test_link_positions() {
    let actual = read("[link](to)\n");
    let expected = vec![para(
        lines(0, 1),
        vec![link_to("to", "link", pos(0, 0), pos(0, 10))],
    )];
    assert_eq!(expected, actual);
}

#[test]
fn test_link_position_inside_text() {
    let actual = read("para\n\ntext [link](to) text\n\npara\n");
    let expected = vec![
        para(lines(0, 1), vec![text("para")]),
        para(
            lines(2, 3),
            vec![
                text("text "),
                link_to("to", "link", pos(2, 5), pos(2, 15)),
                text(" text"),
            ],
        ),
        para(lines(4, 5), vec![text("para")]),
    ];
    assert_eq!(expected, actual);
}

#[test]
fn test_list_nested_item_positions() {
    let actual = read("- line1\n  1.  line2\n");
    let expected = vec![DocumentBlock::BulletList(BulletList {
        items: vec![vec![
            para(lines(0, 1), vec![text("line1")]),
            DocumentBlock::OrderedList(OrderedList {
                items: vec![vec![para(lines(1, 2), vec![text("line2")])]],
            }),
        ]],
    })];
    assert_eq!(expected, actual);
}

#[test]
fn test_list_item_positions() {
    let actual = read("- line1\n- line2\n");
    let expected = vec![DocumentBlock::BulletList(BulletList {
        items: vec![
            vec![para(lines(0, 1), vec![text("line1")])],
            vec![para(lines(1, 2), vec![text("line2")])],
        ],
    })];
    assert_eq!(expected, actual);
}

#[test]
fn test_hastags() {
    let content = "Text #tag1 end\n#tag2\nno#tag\nno # tag\n#invalid#tag\n#multiple #tags in line\n#nested/tag\n#tag_with-delimiters\n#invalid.tag\n- [ ] todo #tag3\n- [x] #tag4\n# Tag in #title\n## #title2\n`ignored code #tag`\nEnd #tag5\n";
    let mut reader = MarkdownEventsReader::new();
    let actual = read_with(&mut reader, content);
    let expected = vec![
        para(
            lines(0, 9),
            vec![
                text("Text "),
                tag("tag1"),
                text(" end"),
                tag("tag2"),
                text("no#tag"),
                text("no # tag"),
                tag("invalid"),
                text("#tag"),
                tag("multiple"),
                text(" "),
                tag("tags"),
                text(" in line"),
                tag("nested/tag"),
                tag("tag_with-delimiters"),
                tag("invalid"),
                text(".tag"),
            ],
        ),
        DocumentBlock::BulletList(BulletList {
            items: vec![
                // pulldown-cmark 0.13 reads `[ ]` and `[x]` as task markers, not as text
                vec![para(lines(9, 10), vec![text("todo "), tag("tag3")])],
                vec![para(lines(10, 11), vec![tag("tag4")])],
            ],
        }),
        DocumentBlock::Header(Header {
            line_range: lines(11, 12),
            level: 1,
            inlines: vec![text("Tag in "), tag("title")],
        }),
        DocumentBlock::Header(Header {
            line_range: lines(12, 13),
            level: 2,
            inlines: vec![tag("title2")],
        }),
        para(
            lines(13, 15),
            vec![
                DocumentInline::Code(Code {
                    text: "ignored code #tag".to_string(),
                    inline_range: InlineRange {
                        start: pos(13, 0),
                        end: pos(13, 19),
                    },
                }),
                text("End "),
                tag("tag5"),
            ],
        ),
    ];
    assert_eq!(expected, actual);
    assert_eq!(
        reader.hashtags(),
        vec![
            "tag1",
            "tag2",
            "invalid",
            "multiple",
            "tags",
            "nested/tag",
            "tag_with-delimiters",
            "invalid",
            "tag3",
            "tag4",
            "title",
            "title2",
            "tag5"
        ]
    );
    assert_eq!(reader.task_markers(), vec![false, true]);
}

#[test]
fn test_one_header_position() {
    let actual = read("# test");
    let expected = vec![DocumentBlock::Header(Header {
        line_range: lines(0, 1),
        inlines: vec![text("test")],
        level: 1,
    })];
    assert_eq!(expected, actual);
}

#[test]
fn test_header_positions() {
    let actual = read("# line1\n\n## line2\n");
    let expected = vec![
        DocumentBlock::Header(Header {
            line_range: lines(0, 1),
            inlines: vec![text("line1")],
            level: 1,
        }),
        DocumentBlock::Header(Header {
            line_range: lines(2, 3),
            inlines: vec![text("line2")],
            level: 2,
        }),
    ];
    assert_eq!(expected, actual);
}

#[test]
fn test_block_line_positions() {
    let actual = read("line1\n\nline2\n\nline3\n\n\nline4\n");
    let expected = vec![
        para(lines(0, 1), vec![text("line1")]),
        para(lines(2, 3), vec![text("line2")]),
        para(lines(4, 5), vec![text("line3")]),
        para(lines(7, 8), vec![text("line4")]),
    ];
    assert_eq!(expected, actual);
}

#[test]
fn test_ranges() {
    let ranges = line_starts("1\n\n2\n\n3\n");
    assert_eq!(vec![0, 2, 3, 5, 6, 8], ranges);
}

#[test]
fn line_starts_of_windows_line_breaks_and_a_last_line_without_break() {
    assert_eq!(line_starts("a\r\nb"), vec![0, 2, 4]);
    assert_eq!(line_starts(""), vec![0]);
    assert_eq!(line_starts("abc"), vec![0, 4]);
}

#[test]
fn line_and_inline_ranges_of_byte_ranges() {
    let starts = vec![0, 2, 3, 5];
    assert_eq!(to_line_range(&starts, 0, 1), lines(0, 1));
    assert_eq!(to_line_range(&starts, 0, 4), lines(0, 2));
    assert_eq!(to_line_range(&starts, 3, 3), lines(2, 3));
    assert_eq!(
        to_inline_range(&starts, 1, 4),
        InlineRange {
            start: pos(0, 1),
            end: pos(2, 1)
        }
    );
    assert_eq!(to_line_range(&vec![], 7, 9), lines(0, 1));
}

#[test]
fn link_types_of_markdown_links() {
    assert_eq!(to_link_type(MarkdownLinkType::Inline), LinkType::Regular);
    assert_eq!(to_link_type(MarkdownLinkType::Autolink), LinkType::Regular);
    assert_eq!(
        to_link_type(MarkdownLinkType::WikiLink { has_pothole: false }),
        LinkType::WikiLink
    );
    assert_eq!(
        to_link_type(MarkdownLinkType::WikiLink { has_pothole: true }),
        LinkType::WikiLinkPiped
    );
}

#[test]
fn hashtag_pieces_spell_the_text() {
    let (pieces, names) = split_hashtags("x #a b #cd", &vec![(3, 4), (8, 10)]).unwrap();
    assert_eq!(pieces, vec![text("x "), tag("a"), text(" b "), tag("cd")]);
    assert_eq!(names, vec!["a".to_string(), "cd".to_string()]);
    let spelled: String = pieces
        .iter()
        .map(|p| match p {
            DocumentInline::Str(s) => s.clone(),
            DocumentInline::Tag(t) => format!("#{}", t),
            _ => String::new(),
        })
        .collect();
    assert_eq!(spelled, "x #a b #cd");
}

#[test]
fn hashtag_spans_that_cannot_be_cut() {
    assert!(split_hashtags("ab", &vec![(1, 5)]).is_none());
    assert!(split_hashtags("é#x", &vec![(3, 4)]).is_some());
    assert!(split_hashtags("aé#x", &vec![(2, 4)]).is_none());
}

#[test]
fn wiki_links_and_emphasis() {
    let actual = read("*a* [[target]]\n");
    let expected = vec![para(
        lines(0, 1),
        vec![
            DocumentInline::Emph(Emph {
                inlines: vec![text("a")],
                inline_range: InlineRange {
                    start: pos(0, 0),
                    end: pos(0, 3),
                },
            }),
            text(" "),
            DocumentInline::Link(Link {
                inlines: vec![text("target")],
                url: "target".to_string(),
                title: String::new(),
                inline_range: InlineRange {
                    start: pos(0, 4),
                    end: pos(0, 14),
                },
                link_type: LinkType::WikiLink,
            }),
        ],
    )];
    assert_eq!(expected, actual);
}

#[test]
fn code_blocks_keep_their_text_and_language() {
    let actual = read("```rust\nlet a = #b;\n```\n");
    let expected = vec![DocumentBlock::CodeBlock(CodeBlock {
        line_range: lines(0, 2),
        lang: Some("rust".to_string()),
        text: "let a = #b;\n".to_string(),
    })];
    assert_eq!(expected, actual);
}

#[test]
fn quotes_hold_their_paragraphs() {
    let actual = read("> quote\n");
    let expected = vec![DocumentBlock::BlockQuote(BlockQuote {
        line_range: lines(0, 1),
        blocks: vec![para(lines(0, 1), vec![text("quote")])],
    })];
    assert_eq!(expected, actual);
}

#[test]
fn tables_fill_header_then_rows() {
    let actual = read("| a | b |\n|:--|--:|\n| c | d |\n");
    let expected = vec![DocumentBlock::Table(DocumentTable {
        line_range: lines(0, 3),
        header: vec![vec![text("a")], vec![text("b")]],
        alignment: vec![ColumnAlignment::Left, ColumnAlignment::Right],
        rows: vec![vec![vec![text("c")], vec![text("d")]]],
    })];
    assert_eq!(expected, actual);
}

#[test]
fn metadata_is_kept_apart_from_the_blocks() {
    let mut reader = MarkdownEventsReader::new();
    let actual = read_with(&mut reader, "---\ntitle: x\n---\n# h\n");
    assert_eq!(reader.metadata(), Some("title: x\n".to_string()));
    let expected = vec![DocumentBlock::Header(Header {
        line_range: lines(3, 4),
        level: 1,
        inlines: vec![text("h")],
    })];
    assert_eq!(expected, actual);
}

#[test]
fn events_that_cannot_be_taken_fail() {
    let mut reader = MarkdownEventsReader::new();
    let end = vec![SpannedEvent {
        event: MarkdownEvent::End(MarkdownTagEnd::Paragraph),
        start: 0,
        end: 0,
    }];
    assert!(!reader.read_events("", &end));
    let text_outside = vec![SpannedEvent {
        event: MarkdownEvent::Text("a".to_string()),
        start: 0,
        end: 1,
    }];
    assert!(!reader.read_events("a", &text_outside));
    assert!(reader.blocks().is_empty());
}

#[test]
fn blocks_are_copied_whole() {
    let blocks = read("# h\n\n- a\n  - b\n\n> q\n");
    assert_eq!(duplicate_blocks(&blocks), blocks);
}

fn graph_of(content: &str) -> (Graph, Vec<(usize, LineRange)>) {
    let blocks = read(content);
    let key = Key::new("key");
    let builder = GraphBuilder::for_document(Graph::new(), &key);
    let sections = SectionsBuilder::new(builder, &blocks, &key);
    let map = sections.nodes_map();
    (sections.into_builder().into_graph(), map)
}

fn section_text(graph: &Graph, id: usize) -> String {
    let p = GraphNodePointer::new(graph, id);
    assert!(p.is_section());
    p.plain_text()
}

fn node_line_range(content: &str, id: usize) -> LineRange {
    let (_, map) = graph_of(content);
    map.iter()
        .find(|(node, _)| *node == id)
        .map(|(_, range)| *range)
        .expect("to have a range")
}

#[test]
fn code_block_no_lang() {
    let (graph, _) = graph_of("```\ncode\n```\n");
    let doc = GraphNodePointer::new(&graph, 0);
    assert!(doc.is_document());
    let raw = doc.to_child().expect("a code block");
    assert!(raw.is_raw());
    assert_eq!(raw.lang(), None);
    assert_eq!(raw.content(), Some("code\n".to_string()));
    assert_eq!(raw.next_id(), None);
}

#[test]
fn code_block_with_lang() {
    let (graph, _) = graph_of("``` lang\ncode\n```\n");
    let raw = GraphNodePointer::new(&graph, 0).to_child().expect("a code block");
    assert!(raw.is_raw());
    assert_eq!(raw.lang(), Some("lang".to_string()));
    assert_eq!(raw.content(), Some("code\n".to_string()));
}

#[test]
fn header2() {
    let (graph, _) = graph_of("# header\n");
    let doc = GraphNodePointer::new(&graph, 0);
    let section = doc.to_child().expect("a section");
    assert_eq!(section_text(&graph, section.id().unwrap()), "header");
    assert_eq!(section.child_id(), None);
    assert_eq!(section.next_id(), None);
}

#[test]
fn sub_header_section() {
    let (graph, _) = graph_of("# header\n\n## sub-header\n");
    let section = GraphNodePointer::new(&graph, 0).to_child().expect("a section");
    assert_eq!(section_text(&graph, section.id().unwrap()), "header");
    let sub = section.to_child().expect("a sub section");
    assert_eq!(section_text(&graph, sub.id().unwrap()), "sub-header");
    assert_eq!(section.next_id(), None);
    assert_eq!(sub.next_id(), None);
}

#[test]
fn sub_header_and_header_after() {
    let (graph, _) = graph_of("# header\n\n## sub-header\n\n# header-2\n");
    let doc = GraphNodePointer::new(&graph, 0);
    assert!(doc.is_document());
    let first = doc.to_child().expect("a first section");
    assert_eq!(section_text(&graph, first.id().unwrap()), "header");
    let sub = first.to_child().expect("a sub section");
    assert_eq!(section_text(&graph, sub.id().unwrap()), "sub-header");
    let next = first.to_next().expect("a second section");
    assert_eq!(section_text(&graph, next.id().unwrap()), "header-2");
    assert_eq!(sub.to_parent().unwrap().id(), first.id());
    assert_eq!(next.to_parent().unwrap().id(), Some(0));
    assert_eq!(first.get_next_sections(), vec![1, 3]);
}

#[test]
fn headers_level_normalization() {
    let (graph, _) = graph_of("# header\n\n### sub-header\n\n# header-2\n");
    let first = GraphNodePointer::new(&graph, 1);
    assert_eq!(section_text(&graph, 1), "header");
    assert_eq!(first.child_id(), Some(2));
    assert_eq!(section_text(&graph, 2), "sub-header");
    assert_eq!(first.next_id(), Some(3));
    assert_eq!(section_text(&graph, 3), "header-2");
}

#[test]
fn headers_at_top_level() {
    let (graph, map) = graph_of("# header\n\nitem\n\n# header-2\n");
    let first = GraphNodePointer::new(&graph, 1);
    assert_eq!(section_text(&graph, 1), "header");
    let item = first.to_child().unwrap();
    assert!(item.is_leaf());
    assert_eq!(item.plain_text(), "item");
    assert_eq!(first.next_id(), Some(3));
    assert_eq!(section_text(&graph, 3), "header-2");
    assert_eq!(
        map,
        vec![(1, lines(0, 1)), (2, lines(2, 3)), (3, lines(4, 5))]
    );
}

#[test]
fn sub_header_before_top_level_header() {
    let (graph, _) = graph_of("## header\n\n# header-2\n");
    let first = GraphNodePointer::new(&graph, 1);
    assert_eq!(section_text(&graph, 1), "header");
    assert_eq!(first.next_id(), Some(2));
    assert_eq!(first.child_id(), None);
    assert_eq!(section_text(&graph, 2), "header-2");
}

#[test]
fn list_item_item() {
    let (graph, _) = graph_of("- item-1\n");
    let list = GraphNodePointer::new(&graph, 0).to_child().expect("a list");
    assert!(list.is_bullet_list());
    let item = list.to_child().expect("an item");
    assert_eq!(section_text(&graph, item.id().unwrap()), "item-1");
    assert_eq!(item.next_id(), None);
}

#[test]
fn two_items_list() {
    let (graph, map) = graph_of("- item-1\n- item-2\n");
    let list = GraphNodePointer::new(&graph, 1);
    assert!(list.is_bullet_list());
    assert_eq!(list.get_sub_nodes(), vec![2, 3]);
    assert_eq!(section_text(&graph, 2), "item-1");
    let item = GraphNodePointer::new(&graph, 3);
    assert!(item.is_in_list());
    assert!(!item.is_header());
    assert_eq!(item.get_list().unwrap().id(), Some(1));
    assert_eq!(item.get_top_level_list().unwrap().id(), Some(1));
    assert_eq!(section_text(&graph, 3), "item-2");
    assert_eq!(map, vec![(2, lines(0, 1)), (3, lines(1, 2))]);
}

#[test]
fn header_position() {
    assert_eq!(node_line_range("# header\n", 1), lines(0, 1));
}

#[test]
fn para_position() {
    assert_eq!(node_line_range("para\n", 1), lines(0, 1));
}

#[test]
fn header_2_position() {
    assert_eq!(node_line_range("# header\n\n# header\n", 2), lines(2, 3));
}

#[test]
fn para_in_header_position() {
    assert_eq!(node_line_range("# header\n\npara\n", 2), lines(2, 3));
}

#[test]
fn multiline_para() {
    assert_eq!(node_line_range("para\npara 2\n", 1), lines(0, 2));
}

#[test]
fn multiline_code() {
    assert_eq!(
        node_line_range("``` lang\ncode\ncode 2\n```\n", 1),
        lines(0, 3)
    );
}

#[test]
fn multiline_list() {
    assert_eq!(node_line_range("- item\n- item-2\n", 2), lines(0, 1));
    assert_eq!(node_line_range("- item\n- item-2\n", 3), lines(1, 2));
}

#[test]
fn multiline_list_nested() {
    assert_eq!(node_line_range("- item\n  - item-2\n", 4), lines(1, 2));
}

#[test]
fn paragraph_text_is_kept_whole() {
    let blocks = read("a #b c #d\n");
    assert_eq!(
        blocks,
        vec![para(lines(0, 1), vec![text("a "), tag("b"), text(" c "), tag("d")])]
    );
    let spelled: String = match &blocks[0] {
        DocumentBlock::Para(p) => p
            .inlines
            .iter()
            .map(|i| match i {
                DocumentInline::Str(s) => s.clone(),
                DocumentInline::Tag(t) => format!("#{}", t),
                _ => String::new(),
            })
            .collect(),
        _ => String::new(),
    };
    assert_eq!(spelled, "a #b c #d");
}

fn ancestors(graph: &Graph, id: usize) -> Vec<usize> {
    let mut found = vec![];
    let mut at = GraphNodePointer::new(graph, id);
    while let Some(parent) = at.to_parent() {
        found.push(parent.id().unwrap());
        at = parent;
    }
    found
}

#[test]
fn blocks_of_a_section_lie_under_its_header() {
    let (graph, _) = graph_of("# h\n\npara\n\n- a\n- b\n\n## sub\n\ntext\n\n# other\n");
    let other = graph.nodes.len() - 1;
    assert_eq!(section_text(&graph, 1), "h");
    assert_eq!(section_text(&graph, other), "other");
    for id in 2..other {
        let above = ancestors(&graph, id);
        assert!(above.contains(&1));
        assert_eq!(above.last(), Some(&0));
    }
    assert_eq!(ancestors(&graph, other), vec![0]);
}

#[test]
fn test_task_items() {
    let content = "- [ ] todo1\n      second line\n- [x] todo2\n- no task\n- [X] todo3\n";
    let mut reader = MarkdownEventsReader::new();
    let actual = read_with(&mut reader, content);
    let expected = vec![DocumentBlock::BulletList(BulletList {
        items: vec![
            vec![para(lines(0, 1), vec![text("todo1"), text("second line")])],
            vec![para(lines(2, 3), vec![text("todo2")])],
            vec![para(lines(3, 4), vec![text("no task")])],
            vec![para(lines(4, 5), vec![text("todo3")])],
        ],
    })];
    assert_eq!(expected, actual);
    assert_eq!(reader.task_markers().len(), 3);
}

#[test]
fn a_second_read_keeps_what_the_first_read_found() {
    let mut reader = MarkdownEventsReader::new();
    read_with(&mut reader, "first #one\n");
    let blocks = read_with(&mut reader, "second #two\n");
    assert_eq!(
        blocks,
        vec![
            para(lines(0, 1), vec![text("first "), tag("one")]),
            para(lines(0, 1), vec![text("second "), tag("two")]),
        ]
    );
    assert_eq!(reader.hashtags(), vec!["one", "two"]);
}

#[test]
fn read_gives_nothing_when_an_event_cannot_be_taken() {
    let mut reader = MarkdownEventsReader::new();
    let end = vec![SpannedEvent { event: MarkdownEvent::End(MarkdownTagEnd::Paragraph), start: 0, end: 0 }];
    assert_eq!(reader.read("", &end), None);
}
