use vstd::prelude::*;

use crate::model::inline::LinkType;
use crate::model::node::ColumnAlignment;

verus! {

/// How a markdown link was written.
#[derive(Clone, Copy, Debug, PartialEq, Eq, Structural)]
pub enum MarkdownLinkType {
    /// `[text](url)`
    Inline,
    /// `[text][label]`
    Reference,
    ReferenceUnknown,
    /// `[text][]`
    Collapsed,
    CollapsedUnknown,
    /// `[text]`
    Shortcut,
    ShortcutUnknown,
    /// `<http://site>`
    Autolink,
    /// `<someone@site>`
    Email,
    /// `[[target]]`, or `[[target|text]]` when piped.
    WikiLink { has_pothole: bool },
}

/// The alignment of a table column, as the delimiter row gives it.
#[derive(Clone, Copy, Debug, PartialEq, Eq, Structural)]
pub enum MarkdownAlignment {
    Unaligned,
    Left,
    Center,
    Right,
}

/// How a code block was written: indented, or fenced with an info string (maybe empty).
#[derive(Clone, Debug, PartialEq)]
pub enum CodeBlockKind {
    Indented,
    Fenced(String),
}

/// The start of an element that holds other elements.
#[derive(Clone, Debug, PartialEq)]
pub enum MarkdownTag {
    Paragraph,
    Heading { level: u8 },
    BlockQuote,
    CodeBlock(CodeBlockKind),
    HtmlBlock,
    /// A list; ordered when it has the number of its first item.
    List(Option<u64>),
    Item,
    FootnoteDefinition,
    DefinitionList,
    DefinitionListTitle,
    DefinitionListDefinition,
    Table(Vec<MarkdownAlignment>),
    TableHead,
    TableRow,
    TableCell,
    Emphasis,
    Strong,
    Strikethrough,
    Superscript,
    Subscript,
    Link { link_type: MarkdownLinkType, dest_url: String, title: String },
    Image { link_type: MarkdownLinkType, dest_url: String, title: String },
    MetadataBlock,
}

/// The end of an element that holds other elements.
#[derive(Clone, Copy, Debug, PartialEq, Eq, Structural)]
pub enum MarkdownTagEnd {
    Paragraph,
    Heading,
    BlockQuote,
    CodeBlock,
    HtmlBlock,
    List,
    Item,
    FootnoteDefinition,
    DefinitionList,
    DefinitionListTitle,
    DefinitionListDefinition,
    Table,
    TableHead,
    TableRow,
    TableCell,
    Emphasis,
    Strong,
    Strikethrough,
    Superscript,
    Subscript,
    Link,
    Image,
    MetadataBlock,
}

/// One event of a markdown parse, in document order.
#[derive(Clone, Debug, PartialEq)]
pub enum MarkdownEvent {
    Start(MarkdownTag),
    End(MarkdownTagEnd),
    Text(String),
    Code(String),
    InlineMath(String),
    DisplayMath(String),
    Html(String),
    InlineHtml(String),
    FootnoteReference(String),
    SoftBreak,
    HardBreak,
    Rule,
    TaskListMarker(bool),
}

/// An event with the byte range of the source that it covers.
#[derive(Clone, Debug, PartialEq)]
pub struct SpannedEvent {
    pub event: MarkdownEvent,
    pub start: usize,
    pub end: usize,
}

/// The kind of link that a markdown link makes: wiki links keep whether they were piped,
/// every other form is a regular link.
pub open spec fn link_type_of(link_type: MarkdownLinkType) -> LinkType {
    match link_type {
        MarkdownLinkType::WikiLink { has_pothole } => if has_pothole {
            LinkType::WikiLinkPiped
        } else {
            LinkType::WikiLink
        },
        _ => LinkType::Regular,
    }
}

/// The kind of link that a markdown link makes.
pub fn to_link_type(link_type: MarkdownLinkType) -> (r: LinkType)
    ensures
        r == link_type_of(link_type),
{
    match link_type {
        MarkdownLinkType::WikiLink { has_pothole } => {
            if has_pothole {
                LinkType::WikiLinkPiped
            } else {
                LinkType::WikiLink
            }
        },
        _ => LinkType::Regular,
    }
}

pub open spec fn column_alignment_of(a: MarkdownAlignment) -> ColumnAlignment {
    match a {
        MarkdownAlignment::Unaligned => ColumnAlignment::Unaligned,
        MarkdownAlignment::Left => ColumnAlignment::Left,
        MarkdownAlignment::Center => ColumnAlignment::Center,
        MarkdownAlignment::Right => ColumnAlignment::Right,
    }
}

/// A column keeps the alignment its delimiter row gives it: unaligned stays unaligned, left
/// left, center center and right right, so distinct alignments stay distinct.
pub proof fn law_column_alignment_kept(a: MarkdownAlignment, b: MarkdownAlignment)
    ensures
        column_alignment_of(a) is Unaligned <==> a is Unaligned,
        column_alignment_of(a) is Left <==> a is Left,
        column_alignment_of(a) is Center <==> a is Center,
        column_alignment_of(a) is Right <==> a is Right,
        column_alignment_of(a) == column_alignment_of(b) ==> a == b,
{
}

/// The alignments of the columns of a table.
pub fn to_column_alignments(alignment: &Vec<MarkdownAlignment>) -> (r: Vec<ColumnAlignment>)
    ensures
        r@.len() == alignment@.len(),
        forall|i: int| 0 <= i < r@.len() ==> r@[i] == column_alignment_of(#[trigger] alignment@[i]),
{
    let mut r: Vec<ColumnAlignment> = Vec::new();
    let mut i: usize = 0;
    while i < alignment.len()
        invariant
            i <= alignment@.len(),
            r@.len() == i,
            forall|k: int| 0 <= k < i ==> r@[k] == column_alignment_of(#[trigger] alignment@[k]),
        decreases alignment@.len() - i,
    {
        let a = match alignment[i] {
            MarkdownAlignment::Unaligned => ColumnAlignment::Unaligned,
            MarkdownAlignment::Left => ColumnAlignment::Left,
            MarkdownAlignment::Center => ColumnAlignment::Center,
            MarkdownAlignment::Right => ColumnAlignment::Right,
        };
        r.push(a);
        i = i + 1;
    }
    r
}

} // verus!
