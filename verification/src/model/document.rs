use vstd::prelude::*;

use crate::model::inline::{GraphInline, InlineView, LinkType};
use crate::model::node::{ColumnAlignment, ReferenceType};
use crate::model::{Key, LineRange};

verus! {

/// A position in a source text: a line and a byte offset in that line.
#[derive(Clone, Copy, Debug, PartialEq, Eq, Structural)]
pub struct Position {
    pub line: usize,
    pub character: usize,
}

/// The positions where an inline starts and ends.
#[derive(Clone, Copy, Debug, PartialEq, Eq, Structural)]
pub struct InlineRange {
    pub start: Position,
    pub end: Position,
}

/// Inline content of a parsed markdown document.
#[derive(Debug, PartialEq)]
pub enum DocumentInline {
    Str(String),
    Tag(String),
    Code(Code),
    Math(Math),
    Emph(Emph),
    Strong(Strong),
    Strikeout(Strikeout),
    Link(Link),
    Image(Image),
}

#[derive(Debug, PartialEq)]
pub struct Code {
    pub text: String,
    pub inline_range: InlineRange,
}

#[derive(Debug, PartialEq)]
pub struct Math {
    pub content: String,
    pub inline_range: InlineRange,
}

#[derive(Debug, PartialEq)]
pub struct Emph {
    pub inlines: Vec<DocumentInline>,
    pub inline_range: InlineRange,
}

#[derive(Debug, PartialEq)]
pub struct Strong {
    pub inlines: Vec<DocumentInline>,
    pub inline_range: InlineRange,
}

#[derive(Debug, PartialEq)]
pub struct Strikeout {
    pub inlines: Vec<DocumentInline>,
    pub inline_range: InlineRange,
}

#[derive(Debug, PartialEq)]
pub struct Link {
    pub inlines: Vec<DocumentInline>,
    pub url: String,
    pub title: String,
    pub inline_range: InlineRange,
    pub link_type: LinkType,
}

#[derive(Debug, PartialEq)]
pub struct Image {
    pub inlines: Vec<DocumentInline>,
    pub url: String,
    pub title: String,
    pub inline_range: InlineRange,
}

/// A block of a parsed markdown document.
#[derive(Debug, PartialEq)]
pub enum DocumentBlock {
    Para(Para),
    Plain(Plain),
    Header(Header),
    CodeBlock(CodeBlock),
    RawBlock(RawBlock),
    BlockQuote(BlockQuote),
    BulletList(BulletList),
    OrderedList(OrderedList),
    TaskList(TaskList),
    Div(Div),
    HorizontalRule(HorizontalRule),
    Table(DocumentTable),
}

pub type DocumentBlocks = Vec<DocumentBlock>;

#[derive(Debug, PartialEq)]
pub struct Para {
    pub line_range: LineRange,
    pub inlines: Vec<DocumentInline>,
}

#[derive(Debug, PartialEq)]
pub struct Plain {
    pub line_range: LineRange,
    pub inlines: Vec<DocumentInline>,
}

#[derive(Debug, PartialEq)]
pub struct Header {
    pub line_range: LineRange,
    pub level: u8,
    pub inlines: Vec<DocumentInline>,
}

#[derive(Debug, PartialEq)]
pub struct CodeBlock {
    pub line_range: LineRange,
    pub lang: Option<String>,
    pub text: String,
}

#[derive(Debug, PartialEq)]
pub struct RawBlock {
    pub line_range: LineRange,
    pub format: String,
    pub text: String,
}

#[derive(Debug, PartialEq)]
pub struct BlockQuote {
    pub line_range: LineRange,
    pub blocks: Vec<DocumentBlock>,
}

#[derive(Debug, PartialEq)]
pub struct BulletList {
    pub items: Vec<Vec<DocumentBlock>>,
}

#[derive(Debug, PartialEq)]
pub struct OrderedList {
    pub items: Vec<Vec<DocumentBlock>>,
}

#[derive(Debug, PartialEq)]
pub struct TaskList {
    pub items: Vec<(bool, Vec<DocumentBlock>)>,
}

#[derive(Debug, PartialEq)]
pub struct Div {
    pub blocks: Vec<DocumentBlock>,
}

#[derive(Debug, PartialEq)]
pub struct HorizontalRule {
    pub line_range: LineRange,
}

#[derive(Debug, PartialEq)]
pub struct DocumentTable {
    pub line_range: LineRange,
    pub header: Vec<Vec<DocumentInline>>,
    pub alignment: Vec<ColumnAlignment>,
    pub rows: Vec<Vec<Vec<DocumentInline>>>,
}

/// The plain text of an inline: the text of strings, code and math, a tag with its `#`,
/// and the texts of what formatting, links and images hold.
pub open spec fn doc_inline_text(i: DocumentInline) -> Seq<char>
    decreases i,
{
    match i {
        DocumentInline::Str(s) => s@,
        DocumentInline::Tag(t) => seq!['#'] + t@,
        DocumentInline::Code(c) => c.text@,
        DocumentInline::Math(m) => m.content@,
        DocumentInline::Emph(e) => doc_inlines_text(e.inlines@),
        DocumentInline::Strong(e) => doc_inlines_text(e.inlines@),
        DocumentInline::Strikeout(e) => doc_inlines_text(e.inlines@),
        DocumentInline::Link(l) => doc_inlines_text(l.inlines@),
        DocumentInline::Image(l) => doc_inlines_text(l.inlines@),
    }
}

pub open spec fn doc_inlines_text(s: Seq<DocumentInline>) -> Seq<char>
    decreases s,
{
    if s.len() == 0 {
        Seq::empty()
    } else {
        doc_inlines_text(s.drop_last()) + doc_inline_text(s.last())
    }
}

/// The text of two sequences of inlines one after the other is the text of each, one after
/// the other.
pub proof fn lemma_doc_inlines_text_concat(a: Seq<DocumentInline>, c: Seq<DocumentInline>)
    ensures
        doc_inlines_text(a + c) == doc_inlines_text(a) + doc_inlines_text(c),
    decreases c.len(),
{
    if c.len() == 0 {
        assert(a + c =~= a);
        assert(doc_inlines_text(a) + Seq::<char>::empty() =~= doc_inlines_text(a));
    } else {
        lemma_doc_inlines_text_concat(a, c.drop_last());
        assert((a + c).drop_last() =~= a + c.drop_last());
        assert((a + c).last() == c.last());
        assert(doc_inlines_text(a) + doc_inlines_text(c.drop_last()) + doc_inline_text(c.last())
            =~= doc_inlines_text(a) + (doc_inlines_text(c.drop_last()) + doc_inline_text(
            c.last(),
        )));
    }
}

/// A link to a document of the library rather than to a site: its url names no scheme.
pub open spec fn is_local_url(url: Seq<char>) -> bool {
    !url.contains(':')
}

/// The url without a trailing `.md`.
pub open spec fn strip_md(url: Seq<char>) -> Seq<char> {
    if url.len() >= 3 && url.subrange(url.len() - 3, url.len() as int) == seq!['.', 'm', 'd'] {
        url.subrange(0, url.len() - 3)
    } else {
        url
    }
}

/// The key that a relative link names from a directory: the url without `.md`, under the
/// directory when there is one.
pub open spec fn rel_link_key(url: Seq<char>, parent: Seq<char>) -> Seq<char> {
    if parent.len() == 0 {
        strip_md(url)
    } else {
        parent + seq!['/'] + strip_md(url)
    }
}

/// The directory part of a key: what comes before its last `/`, or nothing.
pub open spec fn key_parent(key: Seq<char>) -> Seq<char>
    decreases key.len(),
{
    if key.len() == 0 {
        Seq::empty()
    } else if key.last() == '/' {
        key.drop_last()
    } else {
        key_parent(key.drop_last())
    }
}

/// The graph inlines of one document inline: formatting is flattened into what it holds,
/// a local link becomes a reference to the document it names, other links and images keep
/// their url and text.
pub open spec fn graph_inlines_of(i: DocumentInline, parent: Seq<char>) -> Seq<InlineView>
    decreases i,
{
    match i {
        DocumentInline::Str(s) => seq![InlineView::Str(s@)],
        DocumentInline::Tag(t) => seq![InlineView::Tag(t@)],
        DocumentInline::Code(c) => seq![InlineView::Code(c.text@)],
        DocumentInline::Math(m) => seq![InlineView::Str(m.content@)],
        DocumentInline::Emph(e) => graph_inlines_seq(e.inlines@, parent),
        DocumentInline::Strong(e) => graph_inlines_seq(e.inlines@, parent),
        DocumentInline::Strikeout(e) => graph_inlines_seq(e.inlines@, parent),
        DocumentInline::Link(l) => if is_local_url(l.url@) {
            seq![
                InlineView::Reference(
                    rel_link_key(l.url@, parent),
                    doc_inlines_text(l.inlines@),
                    l.link_type,
                ),
            ]
        } else {
            seq![InlineView::Link(l.url@, doc_inlines_text(l.inlines@))]
        },
        DocumentInline::Image(l) => seq![InlineView::Link(l.url@, doc_inlines_text(l.inlines@))],
    }
}

pub open spec fn graph_inlines_seq(s: Seq<DocumentInline>, parent: Seq<char>) -> Seq<InlineView>
    decreases s,
{
    if s.len() == 0 {
        Seq::empty()
    } else {
        graph_inlines_seq(s.drop_last(), parent) + graph_inlines_of(s.last(), parent)
    }
}

pub open spec fn reference_type_of(t: LinkType) -> ReferenceType {
    match t {
        LinkType::Regular => ReferenceType::Regular,
        LinkType::WikiLink => ReferenceType::WikiLink,
        LinkType::WikiLinkPiped => ReferenceType::WikiLinkPiped,
    }
}

/// A reference made from a link keeps the link's kind: it turns back into the link type it
/// was made from, regular links make regular references, wiki links wiki links, and piped
/// wiki links piped wiki links.
pub proof fn law_reference_type_keeps_link_kind(t: LinkType)
    ensures
        crate::model::node::link_type_of(reference_type_of(t)) == t,
        reference_type_of(t) is Regular <==> t is Regular,
        reference_type_of(t) is WikiLink <==> t is WikiLink,
        reference_type_of(t) is WikiLinkPiped <==> t is WikiLinkPiped,
{
}

/// The lines a block spans; lists and divisions record none.
pub open spec fn block_line_range(b: DocumentBlock) -> LineRange {
    match b {
        DocumentBlock::Para(p) => p.line_range,
        DocumentBlock::Plain(p) => p.line_range,
        DocumentBlock::Header(h) => h.line_range,
        DocumentBlock::CodeBlock(c) => c.line_range,
        DocumentBlock::RawBlock(r) => r.line_range,
        DocumentBlock::BlockQuote(q) => q.line_range,
        DocumentBlock::HorizontalRule(h) => h.line_range,
        DocumentBlock::Table(t) => t.line_range,
        _ => LineRange { start: 0, end: 0 },
    }
}

/// The text that stands for a block when it heads a section: the text of code and raw
/// blocks, nothing for the others.
pub open spec fn block_section_text(b: DocumentBlock) -> Seq<char> {
    match b {
        DocumentBlock::CodeBlock(c) => c.text@,
        DocumentBlock::RawBlock(r) => r.text@,
        _ => Seq::empty(),
    }
}

/// A paragraph made of one local link is a reference to the document the link names.
pub open spec fn is_ref_block(b: DocumentBlock) -> bool {
    b matches DocumentBlock::Para(p) && p.inlines@.len() == 1 && (p.inlines@[0] matches DocumentInline::Link(
        l,
    ) && is_local_url(l.url@))
}

pub open spec fn blocks_ok(s: Seq<DocumentBlock>) -> bool
    decreases s,
{
    if s.len() == 0 {
        true
    } else {
        blocks_ok(s.drop_last()) && block_ok(s.last())
    }
}

pub open spec fn items_ok(s: Seq<Vec<DocumentBlock>>) -> bool
    decreases s,
{
    if s.len() == 0 {
        true
    } else {
        items_ok(s.drop_last()) && blocks_ok(s.last()@)
    }
}

pub open spec fn task_items_ok(s: Seq<(bool, Vec<DocumentBlock>)>) -> bool
    decreases s,
{
    if s.len() == 0 {
        true
    } else {
        task_items_ok(s.drop_last()) && blocks_ok(s.last().1@)
    }
}

/// Every division, at any depth, holds at least one block.
pub open spec fn block_ok(b: DocumentBlock) -> bool
    decreases b,
{
    match b {
        DocumentBlock::Div(d) => d.blocks@.len() > 0 && blocks_ok(d.blocks@),
        DocumentBlock::BlockQuote(q) => blocks_ok(q.blocks@),
        DocumentBlock::BulletList(l) => items_ok(l.items@),
        DocumentBlock::OrderedList(l) => items_ok(l.items@),
        DocumentBlock::TaskList(l) => task_items_ok(l.items@),
        _ => true,
    }
}

pub proof fn lemma_blocks_ok(s: Seq<DocumentBlock>, i: int)
    requires
        blocks_ok(s),
        0 <= i < s.len(),
    ensures
        block_ok(s[i]),
    decreases s.len(),
{
    if i < s.len() - 1 {
        lemma_blocks_ok(s.drop_last(), i);
        assert(s.drop_last()[i] == s[i]);
    }
}

pub proof fn lemma_items_ok(s: Seq<Vec<DocumentBlock>>, i: int)
    requires
        items_ok(s),
        0 <= i < s.len(),
    ensures
        blocks_ok(s[i]@),
    decreases s.len(),
{
    if i < s.len() - 1 {
        lemma_items_ok(s.drop_last(), i);
        assert(s.drop_last()[i] == s[i]);
    }
}

pub proof fn lemma_task_items_ok(s: Seq<(bool, Vec<DocumentBlock>)>, i: int)
    requires
        task_items_ok(s),
        0 <= i < s.len(),
    ensures
        blocks_ok(s[i].1@),
    decreases s.len(),
{
    if i < s.len() - 1 {
        lemma_task_items_ok(s.drop_last(), i);
        assert(s.drop_last()[i] == s[i]);
    }
}

/// A block whose section starts with a list: a list, or a division whose first block is one.
pub open spec fn list_headed(b: DocumentBlock) -> bool
    decreases b,
{
    match b {
        DocumentBlock::BulletList(_) => true,
        DocumentBlock::OrderedList(_) => true,
        DocumentBlock::Div(d) => d.blocks@.len() > 0 && list_headed(d.blocks@[0]),
        _ => false,
    }
}

/// No division, at any depth, starts with a list.
pub open spec fn plain_divs(b: DocumentBlock) -> bool
    decreases b,
{
    match b {
        DocumentBlock::Div(d) => !list_headed(b) && plain_divs_seq(d.blocks@),
        DocumentBlock::BlockQuote(q) => plain_divs_seq(q.blocks@),
        DocumentBlock::BulletList(l) => plain_divs_items(l.items@),
        DocumentBlock::OrderedList(l) => plain_divs_items(l.items@),
        DocumentBlock::TaskList(l) => plain_divs_task_items(l.items@),
        _ => true,
    }
}

pub open spec fn plain_divs_seq(s: Seq<DocumentBlock>) -> bool
    decreases s,
{
    if s.len() == 0 {
        true
    } else {
        plain_divs_seq(s.drop_last()) && plain_divs(s.last())
    }
}

pub open spec fn plain_divs_items(s: Seq<Vec<DocumentBlock>>) -> bool
    decreases s,
{
    if s.len() == 0 {
        true
    } else {
        plain_divs_items(s.drop_last()) && plain_divs_seq(s.last()@)
    }
}

pub open spec fn plain_divs_task_items(s: Seq<(bool, Vec<DocumentBlock>)>) -> bool
    decreases s,
{
    if s.len() == 0 {
        true
    } else {
        plain_divs_task_items(s.drop_last()) && plain_divs_seq(s.last().1@)
    }
}

/// Every list, at any depth, has items, and every item has blocks.
pub open spec fn filled(b: DocumentBlock) -> bool
    decreases b,
{
    match b {
        DocumentBlock::Div(d) => filled_seq(d.blocks@),
        DocumentBlock::BlockQuote(q) => filled_seq(q.blocks@),
        DocumentBlock::BulletList(l) => l.items@.len() > 0 && filled_items(l.items@),
        DocumentBlock::OrderedList(l) => l.items@.len() > 0 && filled_items(l.items@),
        DocumentBlock::TaskList(l) => l.items@.len() > 0 && filled_task_items(l.items@),
        _ => true,
    }
}

pub open spec fn filled_seq(s: Seq<DocumentBlock>) -> bool
    decreases s,
{
    if s.len() == 0 {
        true
    } else {
        filled_seq(s.drop_last()) && filled(s.last())
    }
}

pub open spec fn filled_items(s: Seq<Vec<DocumentBlock>>) -> bool
    decreases s,
{
    if s.len() == 0 {
        true
    } else {
        filled_items(s.drop_last()) && s.last()@.len() > 0 && filled_seq(s.last()@)
    }
}

pub open spec fn filled_task_items(s: Seq<(bool, Vec<DocumentBlock>)>) -> bool
    decreases s,
{
    if s.len() == 0 {
        true
    } else {
        filled_task_items(s.drop_last()) && s.last().1@.len() > 0 && filled_seq(s.last().1@)
    }
}

pub proof fn lemma_filled_seq(s: Seq<DocumentBlock>, i: int)
    requires
        filled_seq(s),
        0 <= i < s.len(),
    ensures
        filled(s[i]),
    decreases s.len(),
{
    if i < s.len() - 1 {
        lemma_filled_seq(s.drop_last(), i);
        assert(s.drop_last()[i] == s[i]);
    }
}

pub proof fn lemma_filled_items(s: Seq<Vec<DocumentBlock>>, i: int)
    requires
        filled_items(s),
        0 <= i < s.len(),
    ensures
        s[i]@.len() > 0,
        filled_seq(s[i]@),
    decreases s.len(),
{
    if i < s.len() - 1 {
        lemma_filled_items(s.drop_last(), i);
        assert(s.drop_last()[i] == s[i]);
    }
}

pub proof fn lemma_filled_task_items(s: Seq<(bool, Vec<DocumentBlock>)>, i: int)
    requires
        filled_task_items(s),
        0 <= i < s.len(),
    ensures
        s[i].1@.len() > 0,
        filled_seq(s[i].1@),
    decreases s.len(),
{
    if i < s.len() - 1 {
        lemma_filled_task_items(s.drop_last(), i);
        assert(s.drop_last()[i] == s[i]);
    }
}

pub proof fn lemma_plain_divs_seq(s: Seq<DocumentBlock>, i: int)
    requires
        plain_divs_seq(s),
        0 <= i < s.len(),
    ensures
        plain_divs(s[i]),
    decreases s.len(),
{
    if i < s.len() - 1 {
        lemma_plain_divs_seq(s.drop_last(), i);
        assert(s.drop_last()[i] == s[i]);
    }
}

pub proof fn lemma_plain_divs_items(s: Seq<Vec<DocumentBlock>>, i: int)
    requires
        plain_divs_items(s),
        0 <= i < s.len(),
    ensures
        plain_divs_seq(s[i]@),
    decreases s.len(),
{
    if i < s.len() - 1 {
        lemma_plain_divs_items(s.drop_last(), i);
        assert(s.drop_last()[i] == s[i]);
    }
}

pub proof fn lemma_plain_divs_task_items(s: Seq<(bool, Vec<DocumentBlock>)>, i: int)
    requires
        plain_divs_task_items(s),
        0 <= i < s.len(),
    ensures
        plain_divs_seq(s[i].1@),
    decreases s.len(),
{
    if i < s.len() - 1 {
        lemma_plain_divs_task_items(s.drop_last(), i);
        assert(s.drop_last()[i] == s[i]);
    }
}

impl DocumentBlock {
    pub fn line_range(&self) -> (r: LineRange)
        ensures
            r == block_line_range(*self),
    {
        match self {
            DocumentBlock::Para(p) => p.line_range,
            DocumentBlock::Plain(p) => p.line_range,
            DocumentBlock::Header(h) => h.line_range,
            DocumentBlock::CodeBlock(c) => c.line_range,
            DocumentBlock::RawBlock(r) => r.line_range,
            DocumentBlock::BlockQuote(q) => q.line_range,
            DocumentBlock::HorizontalRule(h) => h.line_range,
            DocumentBlock::Table(t) => t.line_range,
            _ => LineRange { start: 0, end: 0 },
        }
    }

    pub fn to_section_plain_text(&self) -> (r: String)
        ensures
            r@ == block_section_text(*self),
    {
        match self {
            DocumentBlock::CodeBlock(c) => c.text.clone(),
            DocumentBlock::RawBlock(r) => r.text.clone(),
            _ => String::new(),
        }
    }

    pub fn is_ref(&self) -> (r: bool)
        ensures
            r == is_ref_block(*self),
    {
        match self {
            DocumentBlock::Para(p) => {
                if p.inlines.len() == 1 {
                    match &p.inlines[0] {
                        DocumentInline::Link(l) => is_local(&l.url),
                        _ => false,
                    }
                } else {
                    false
                }
            },
            _ => false,
        }
    }
}

/// The plain text of an inline.
pub fn doc_inline_plain_text(i: &DocumentInline) -> (r: String)
    ensures
        r@ == doc_inline_text(*i),
    decreases i,
{
    match i {
        DocumentInline::Str(s) => s.clone(),
        DocumentInline::Tag(t) => {
            let mut r = String::from_str("#");
            proof {
                reveal_strlit("#");
            }
            r.append(t.as_str());
            r
        },
        DocumentInline::Code(c) => c.text.clone(),
        DocumentInline::Math(m) => m.content.clone(),
        DocumentInline::Emph(e) => doc_inlines_plain_text(&e.inlines),
        DocumentInline::Strong(e) => doc_inlines_plain_text(&e.inlines),
        DocumentInline::Strikeout(e) => doc_inlines_plain_text(&e.inlines),
        DocumentInline::Link(l) => doc_inlines_plain_text(&l.inlines),
        DocumentInline::Image(l) => doc_inlines_plain_text(&l.inlines),
    }
}

/// The plain text of a sequence of inlines.
pub fn doc_inlines_plain_text(s: &Vec<DocumentInline>) -> (r: String)
    ensures
        r@ == doc_inlines_text(s@),
    decreases s,
{
    let mut r = String::new();
    let mut i: usize = 0;
    while i < s.len()
        invariant
            i <= s@.len(),
            r@ == doc_inlines_text(s@.take(i as int)),
        decreases s@.len() - i,
    {
        assert(s@.take(i + 1).drop_last() == s@.take(i as int));
        assert(s@.take(i + 1).last() == s@[i as int]);
        let t = doc_inline_plain_text(&s[i]);
        r.append(t.as_str());
        i = i + 1;
    }
    assert(s@.take(s@.len() as int) == s@);
    r
}

/// Whether a url names no scheme.
pub fn is_local(url: &String) -> (r: bool)
    ensures
        r == is_local_url(url@),
{
    let s = url.as_str();
    let n = s.unicode_len();
    let mut i: usize = 0;
    while i < n
        invariant
            n == url@.len(),
            s@ == url@,
            i <= n,
            forall|j: int| 0 <= j < i ==> url@[j] != ':',
        decreases n - i,
    {
        if s.get_char(i) == ':' {
            return false;
        }
        i = i + 1;
    }
    true
}

impl Key {
    /// The directory part of the key: what comes before its last `/`, or nothing.
    pub fn parent(&self) -> (r: Key)
        ensures
            r@ == key_parent(self@),
    {
        let s = self.relative_path.as_str();
        let n = s.unicode_len();
        let mut end = n;
        assert(self@.take(n as int) == self@);
        while end > 0
            invariant
                end <= n,
                n == self@.len(),
                s@ == self@,
                key_parent(self@) == key_parent(self@.take(end as int)),
            decreases end,
        {
            let c = s.get_char(end - 1);
            assert(self@.take(end as int).drop_last() == self@.take(end - 1));
            if c == '/' {
                return Key { relative_path: String::from_str(s.substring_char(0, end - 1)) };
            }
            end = end - 1;
        }
        assert(self@.take(0) == Seq::<char>::empty());
        Key { relative_path: String::new() }
    }

    /// The key that a relative link names from the directory `parent`.
    pub fn from_rel_link_url(url: &String, parent: &Key) -> (r: Key)
        ensures
            r@ == rel_link_key(url@, parent@),
    {
        let s = url.as_str();
        let n = s.unicode_len();
        let mut stem = s;
        if n >= 3 {
            let tail = s.substring_char(n - 3, n);
            let md = ".md";
            proof {
                reveal_strlit(".md");
            }
            if tail.unicode_len() == 3 && tail.get_char(0) == '.' && tail.get_char(1) == 'm'
                && tail.get_char(2) == 'd' {
                assert(tail@ =~= seq!['.', 'm', 'd']);
                stem = s.substring_char(0, n - 3);
            } else {
                assert(tail@ != seq!['.', 'm', 'd']);
            }
        }
        if parent.relative_path.as_str().unicode_len() == 0 {
            Key { relative_path: String::from_str(stem) }
        } else {
            let mut path = parent.relative_path.clone();
            path.append("/");
            proof {
                reveal_strlit("/");
            }
            path.append(stem);
            Key { relative_path: path }
        }
    }
}

/// The graph inlines of a document inline, appended to `out`.
fn push_graph_inlines(i: &DocumentInline, parent: &Key, out: &mut Vec<GraphInline>)
    ensures
        crate::model::inline::inlines_view(final(out)@) == crate::model::inline::inlines_view(
            old(out)@,
        ) + graph_inlines_of(*i, parent@),
    decreases i,
{
    let ghost start = out@;
    let ghost start_view = crate::model::inline::inlines_view(start);
    match i {
        DocumentInline::Str(s) => {
            out.push(GraphInline::Str(s.clone()));
            assert(crate::model::inline::inlines_view(out@) =~= start_view + graph_inlines_of(
                *i,
                parent@,
            ));
        },
        DocumentInline::Tag(t) => {
            out.push(GraphInline::Tag(t.clone()));
            assert(crate::model::inline::inlines_view(out@) =~= start_view + graph_inlines_of(
                *i,
                parent@,
            ));
        },
        DocumentInline::Code(c) => {
            out.push(GraphInline::Code(c.text.clone()));
            assert(crate::model::inline::inlines_view(out@) =~= start_view + graph_inlines_of(
                *i,
                parent@,
            ));
        },
        DocumentInline::Math(m) => {
            out.push(GraphInline::Str(m.content.clone()));
            assert(crate::model::inline::inlines_view(out@) =~= start_view + graph_inlines_of(
                *i,
                parent@,
            ));
        },
        DocumentInline::Emph(e) => push_graph_inlines_seq(&e.inlines, parent, out),
        DocumentInline::Strong(e) => push_graph_inlines_seq(&e.inlines, parent, out),
        DocumentInline::Strikeout(e) => push_graph_inlines_seq(&e.inlines, parent, out),
        DocumentInline::Link(l) => {
            let text = doc_inlines_plain_text(&l.inlines);
            if is_local(&l.url) {
                let key = Key::from_rel_link_url(&l.url, parent);
                out.push(GraphInline::Reference(key, text, l.link_type));
            } else {
                out.push(GraphInline::Link(l.url.clone(), text));
            }
            assert(crate::model::inline::inlines_view(out@) =~= start_view + graph_inlines_of(
                *i,
                parent@,
            ));
        },
        DocumentInline::Image(l) => {
            let text = doc_inlines_plain_text(&l.inlines);
            out.push(GraphInline::Link(l.url.clone(), text));
            assert(crate::model::inline::inlines_view(out@) =~= start_view + graph_inlines_of(
                *i,
                parent@,
            ));
        },
    }
}

/// The graph inlines of a sequence of document inlines, appended to `out`.
fn push_graph_inlines_seq(s: &Vec<DocumentInline>, parent: &Key, out: &mut Vec<GraphInline>)
    ensures
        crate::model::inline::inlines_view(final(out)@) == crate::model::inline::inlines_view(
            old(out)@,
        ) + graph_inlines_seq(s@, parent@),
    decreases s,
{
    let ghost start_view = crate::model::inline::inlines_view(out@);
    let mut i: usize = 0;
    while i < s.len()
        invariant
            i <= s@.len(),
            crate::model::inline::inlines_view(out@) == start_view + graph_inlines_seq(
                s@.take(i as int),
                parent@,
            ),
        decreases s@.len() - i,
    {
        assert(s@.take(i + 1).drop_last() == s@.take(i as int));
        assert(s@.take(i + 1).last() == s@[i as int]);
        push_graph_inlines(&s[i], parent, out);
        assert(start_view + graph_inlines_seq(s@.take(i + 1), parent@) =~= start_view
            + graph_inlines_seq(s@.take(i as int), parent@) + graph_inlines_of(
            s@[i as int],
            parent@,
        ));
        i = i + 1;
    }
    assert(s@.take(s@.len() as int) == s@);
}

/// The graph inlines of document inlines, with local links resolved from the directory
/// `parent`.
pub fn to_graph_inlines(inlines: &Vec<DocumentInline>, parent: &Key) -> (r: Vec<GraphInline>)
    ensures
        crate::model::inline::inlines_view(r@) == graph_inlines_seq(inlines@, parent@),
{
    let mut r: Vec<GraphInline> = Vec::new();
    assert(crate::model::inline::inlines_view(r@) =~= Seq::<InlineView>::empty());
    push_graph_inlines_seq(inlines, parent, &mut r);
    assert(Seq::<InlineView>::empty() + graph_inlines_seq(inlines@, parent@) =~= graph_inlines_seq(
        inlines@,
        parent@,
    ));
    r
}

/// Whether `after` is `before` with `inline` appended to the paragraph that ends the blocks, or,
/// when they do not end with a paragraph, with a after paragraph at `pos` that holds it.
pub open spec fn inline_appended_to_blocks(
    before: Seq<DocumentBlock>,
    after: Seq<DocumentBlock>,
    inline: DocumentInline,
    pos: LineRange,
) -> bool {
    if before.len() > 0 && before.last() is Para {
        &&& after.len() == before.len()
        &&& after.drop_last() == before.drop_last()
        &&& after.last() matches DocumentBlock::Para(q) && q.line_range == before.last()->Para_0.line_range
            && q.inlines@ == before.last()->Para_0.inlines@.push(inline)
    } else {
        &&& after.drop_last() == before
        &&& after.len() == before.len() + 1
        &&& after.last() matches DocumentBlock::Para(q) && q.line_range == pos && q.inlines@ == seq![
            inline,
        ]
    }
}

/// Whether `after` is `before` with `inline` appended to the blocks of its last item, or, when
/// there is no item, with a after item that holds a after paragraph at `pos` with it.
pub open spec fn inline_appended_to_items(
    before: Seq<Vec<DocumentBlock>>,
    after: Seq<Vec<DocumentBlock>>,
    inline: DocumentInline,
    pos: LineRange,
) -> bool {
    if before.len() == 0 {
        after.len() == 1 && inline_appended_to_blocks(Seq::empty(), after[0]@, inline, pos)
    } else {
        &&& after.len() == before.len()
        &&& after.drop_last() == before.drop_last()
        &&& inline_appended_to_blocks(before.last()@, after.last()@, inline, pos)
    }
}

/// Whether `after` is `before` with `inline` appended to its last cell, or, when there is no
/// cell, with a after cell that holds it.
pub open spec fn inline_appended_to_cells(
    before: Seq<Vec<DocumentInline>>,
    after: Seq<Vec<DocumentInline>>,
    inline: DocumentInline,
) -> bool {
    if before.len() == 0 {
        after.len() == 1 && after[0]@ == seq![inline]
    } else {
        &&& after.len() == before.len()
        &&& after.drop_last() == before.drop_last()
        &&& after.last()@ == before.last()@.push(inline)
    }
}

/// What appending an inline does to a block: paragraphs, plain blocks and headers take it
/// at their end; lists and quotes give it to the paragraph they end with (or to a after one
/// at `pos`); a table gives it to its last cell, in the header while it has no row; the
/// other blocks stay as they are.
pub open spec fn inline_appended(
    before: DocumentBlock,
    after: DocumentBlock,
    inline: DocumentInline,
    pos: LineRange,
) -> bool {
    match before {
        DocumentBlock::Para(p) => after matches DocumentBlock::Para(q) && q.line_range
            == p.line_range && q.inlines@ == p.inlines@.push(inline),
        DocumentBlock::Plain(p) => after matches DocumentBlock::Plain(q) && q.line_range
            == p.line_range && q.inlines@ == p.inlines@.push(inline),
        DocumentBlock::Header(h) => after matches DocumentBlock::Header(q) && q.line_range
            == h.line_range && q.level == h.level && q.inlines@ == h.inlines@.push(inline),
        DocumentBlock::BlockQuote(b) => after matches DocumentBlock::BlockQuote(q) && q.line_range
            == b.line_range && inline_appended_to_blocks(b.blocks@, q.blocks@, inline, pos),
        DocumentBlock::BulletList(l) => after matches DocumentBlock::BulletList(m)
            && inline_appended_to_items(l.items@, m.items@, inline, pos),
        DocumentBlock::OrderedList(l) => after matches DocumentBlock::OrderedList(m)
            && inline_appended_to_items(l.items@, m.items@, inline, pos),
        DocumentBlock::Table(t) => after matches DocumentBlock::Table(u) && u.line_range
            == t.line_range && u.alignment == t.alignment && if t.rows@.len() == 0 {
            u.rows == t.rows && inline_appended_to_cells(t.header@, u.header@, inline)
        } else {
            &&& u.header == t.header
            &&& u.rows@.len() == t.rows@.len()
            &&& u.rows@.drop_last() == t.rows@.drop_last()
            &&& inline_appended_to_cells(t.rows@.last()@, u.rows@.last()@, inline)
        },
        _ => after == before,
    }
}

/// The blocks that hold other blocks.
pub open spec fn is_container_block(b: DocumentBlock) -> bool {
    b is BlockQuote || b is BulletList || b is OrderedList
}

/// What appending a block does to a block: a quote takes it at its end, a list at the end
/// of its last item (a after item when it has none); the other blocks stay as they are.
pub open spec fn block_appended(before: DocumentBlock, after: DocumentBlock, child: DocumentBlock) -> bool {
    match before {
        DocumentBlock::BlockQuote(b) => after matches DocumentBlock::BlockQuote(q) && q.line_range
            == b.line_range && q.blocks@ == b.blocks@.push(child),
        DocumentBlock::BulletList(l) => after matches DocumentBlock::BulletList(m)
            && block_appended_to_items(l.items@, m.items@, child),
        DocumentBlock::OrderedList(l) => after matches DocumentBlock::OrderedList(m)
            && block_appended_to_items(l.items@, m.items@, child),
        _ => after == before,
    }
}

pub open spec fn block_appended_to_items(
    before: Seq<Vec<DocumentBlock>>,
    after: Seq<Vec<DocumentBlock>>,
    child: DocumentBlock,
) -> bool {
    if before.len() == 0 {
        after.len() == 1 && after[0]@ == seq![child]
    } else {
        &&& after.len() == before.len()
        &&& after.drop_last() == before.drop_last()
        &&& after.last()@ == before.last()@.push(child)
    }
}

/// What starting an item does to a block: a list gets a after, empty item; the other blocks
/// stay as they are.
pub open spec fn item_appended(before: DocumentBlock, after: DocumentBlock) -> bool {
    match before {
        DocumentBlock::BulletList(l) => after matches DocumentBlock::BulletList(m) && m.items@.drop_last()
            == l.items@ && m.items@.len() == l.items@.len() + 1 && m.items@.last()@.len() == 0,
        DocumentBlock::OrderedList(l) => after matches DocumentBlock::OrderedList(m)
            && m.items@.drop_last() == l.items@ && m.items@.len() == l.items@.len() + 1
            && m.items@.last()@.len() == 0,
        _ => after == before,
    }
}

/// What starting a row does to a block: a table gets a after, empty row; the other blocks stay
/// as they are.
pub open spec fn row_appended(before: DocumentBlock, after: DocumentBlock) -> bool {
    match before {
        DocumentBlock::Table(t) => after matches DocumentBlock::Table(u) && u.line_range
            == t.line_range && u.alignment == t.alignment && u.header == t.header
            && u.rows@.drop_last() == t.rows@ && u.rows@.len() == t.rows@.len() + 1
            && u.rows@.last()@.len() == 0,
        _ => after == before,
    }
}

/// What starting a cell does to a block: a table gets a after, empty cell, in its header while
/// it has no row and in its last row after; the other blocks stay as they are.
pub open spec fn cell_appended(before: DocumentBlock, after: DocumentBlock) -> bool {
    match before {
        DocumentBlock::Table(t) => after matches DocumentBlock::Table(u) && u.line_range
            == t.line_range && u.alignment == t.alignment && if t.rows@.len() == 0 {
            &&& u.rows == t.rows
            &&& u.header@.drop_last() == t.header@
            &&& u.header@.len() == t.header@.len() + 1
            &&& u.header@.last()@.len() == 0
        } else {
            &&& u.header == t.header
            &&& u.rows@.len() == t.rows@.len()
            &&& u.rows@.drop_last() == t.rows@.drop_last()
            &&& u.rows@.last()@.drop_last() == t.rows@.last()@
            &&& u.rows@.last()@.len() == t.rows@.last()@.len() + 1
            &&& u.rows@.last()@.last()@.len() == 0
        },
        _ => after == before,
    }
}

/// What appending an inline does to an inline: formatting, links and images take it at the
/// end of what they hold; the other inlines stay as they are.
pub open spec fn child_appended(before: DocumentInline, after: DocumentInline, child: DocumentInline) -> bool {
    match before {
        DocumentInline::Emph(e) => after matches DocumentInline::Emph(f) && f.inline_range
            == e.inline_range && f.inlines@ == e.inlines@.push(child),
        DocumentInline::Strong(e) => after matches DocumentInline::Strong(f) && f.inline_range
            == e.inline_range && f.inlines@ == e.inlines@.push(child),
        DocumentInline::Strikeout(e) => after matches DocumentInline::Strikeout(f) && f.inline_range
            == e.inline_range && f.inlines@ == e.inlines@.push(child),
        DocumentInline::Link(l) => after matches DocumentInline::Link(m) && m.url == l.url && m.title
            == l.title && m.inline_range == l.inline_range && m.link_type == l.link_type
            && m.inlines@ == l.inlines@.push(child),
        DocumentInline::Image(l) => after matches DocumentInline::Image(m) && m.url == l.url
            && m.title == l.title && m.inline_range == l.inline_range && m.inlines@
            == l.inlines@.push(child),
        _ => after == before,
    }
}

fn append_inline_to_blocks(blocks: &mut Vec<DocumentBlock>, inline: DocumentInline, pos: LineRange)
    ensures
        inline_appended_to_blocks(old(blocks)@, final(blocks)@, inline, pos),
{
    let n = blocks.len();
    let ends_with_para = n > 0 && match &blocks[n - 1] {
        DocumentBlock::Para(_) => true,
        _ => false,
    };
    let ghost before = blocks@;
    if ends_with_para {
        let last = &mut blocks[n - 1];
        match last {
            DocumentBlock::Para(p) => {
                p.inlines.push(inline);
            },
            _ => {},
        }
        assert(blocks@.drop_last() =~= before.drop_last());
    } else {
        let mut inlines: Vec<DocumentInline> = Vec::new();
        inlines.push(inline);
        assert(inlines@ =~= seq![inline]);
        blocks.push(DocumentBlock::Para(Para { line_range: pos, inlines }));
        assert(blocks@.drop_last() =~= before);
    }
}

fn append_inline_to_items(
    items: &mut Vec<Vec<DocumentBlock>>,
    inline: DocumentInline,
    pos: LineRange,
)
    ensures
        inline_appended_to_items(old(items)@, final(items)@, inline, pos),
{
    let n = items.len();
    let ghost before = items@;
    if n == 0 {
        let mut item: Vec<DocumentBlock> = Vec::new();
        append_inline_to_blocks(&mut item, inline, pos);
        items.push(item);
        assert(items@[0] == item);
    } else {
        append_inline_to_blocks(&mut items[n - 1], inline, pos);
        assert(items@.drop_last() =~= before.drop_last());
    }
}

fn append_inline_to_cells(cells: &mut Vec<Vec<DocumentInline>>, inline: DocumentInline)
    ensures
        inline_appended_to_cells(old(cells)@, final(cells)@, inline),
{
    let n = cells.len();
    let ghost before = cells@;
    if n == 0 {
        let mut cell: Vec<DocumentInline> = Vec::new();
        cell.push(inline);
        assert(cell@ =~= seq![inline]);
        cells.push(cell);
        assert(cells@[0] == cell);
    } else {
        cells[n - 1].push(inline);
        assert(cells@.drop_last() =~= before.drop_last());
    }
}

fn append_block_to_items(items: &mut Vec<Vec<DocumentBlock>>, child: DocumentBlock)
    ensures
        block_appended_to_items(old(items)@, final(items)@, child),
{
    let n = items.len();
    let ghost before = items@;
    if n == 0 {
        let mut item: Vec<DocumentBlock> = Vec::new();
        item.push(child);
        assert(item@ =~= seq![child]);
        items.push(item);
        assert(items@[0] == item);
    } else {
        items[n - 1].push(child);
        assert(items@.drop_last() =~= before.drop_last());
    }
}

impl DocumentBlock {
    /// Appends an inline where the block keeps its text; `pos` is where the inline stands,
    /// for a paragraph that has to be made for it.
    pub fn append_inline(&mut self, inline: DocumentInline, pos: LineRange)
        ensures
            inline_appended(*old(self), *final(self), inline, pos),
    {
        match self {
            DocumentBlock::Para(p) => p.inlines.push(inline),
            DocumentBlock::Plain(p) => p.inlines.push(inline),
            DocumentBlock::Header(h) => h.inlines.push(inline),
            DocumentBlock::BlockQuote(b) => append_inline_to_blocks(&mut b.blocks, inline, pos),
            DocumentBlock::BulletList(l) => append_inline_to_items(&mut l.items, inline, pos),
            DocumentBlock::OrderedList(l) => append_inline_to_items(&mut l.items, inline, pos),
            DocumentBlock::Table(t) => {
                if t.rows.len() == 0 {
                    append_inline_to_cells(&mut t.header, inline);
                } else {
                    let n = t.rows.len();
                    let ghost rows = t.rows@;
                    append_inline_to_cells(&mut t.rows[n - 1], inline);
                    assert(t.rows@.drop_last() =~= rows.drop_last());
                }
            },
            _ => {},
        }
    }

    /// Whether the block holds other blocks.
    pub fn is_container(&self) -> (r: bool)
        ensures
            r == is_container_block(*self),
    {
        match self {
            DocumentBlock::BlockQuote(_) => true,
            DocumentBlock::BulletList(_) => true,
            DocumentBlock::OrderedList(_) => true,
            _ => false,
        }
    }

    /// Appends a block to a container.
    pub fn append_block(&mut self, child: DocumentBlock)
        ensures
            block_appended(*old(self), *final(self), child),
    {
        match self {
            DocumentBlock::BlockQuote(b) => b.blocks.push(child),
            DocumentBlock::BulletList(l) => append_block_to_items(&mut l.items, child),
            DocumentBlock::OrderedList(l) => append_block_to_items(&mut l.items, child),
            _ => {},
        }
    }

    /// Starts a new item in a list.
    pub fn append_item(&mut self)
        ensures
            item_appended(*old(self), *final(self)),
    {
        match self {
            DocumentBlock::BulletList(l) => {
                let ghost items = l.items@;
                l.items.push(Vec::new());
                assert(l.items@.drop_last() =~= items);
            },
            DocumentBlock::OrderedList(l) => {
                let ghost items = l.items@;
                l.items.push(Vec::new());
                assert(l.items@.drop_last() =~= items);
            },
            _ => {},
        }
    }

    /// Starts a new row in a table.
    pub fn append_row(&mut self)
        ensures
            row_appended(*old(self), *final(self)),
    {
        match self {
            DocumentBlock::Table(t) => {
                let ghost rows = t.rows@;
                t.rows.push(Vec::new());
                assert(t.rows@.drop_last() =~= rows);
            },
            _ => {},
        }
    }

    /// Starts a new cell in a table: in its header while it has no row, in its last row
    /// after.
    pub fn append_cell(&mut self)
        ensures
            cell_appended(*old(self), *final(self)),
    {
        match self {
            DocumentBlock::Table(t) => {
                let n = t.rows.len();
                if n == 0 {
                    let ghost header = t.header@;
                    t.header.push(Vec::new());
                    assert(t.header@.drop_last() =~= header);
                } else {
                    let ghost rows = t.rows@;
                    t.rows[n - 1].push(Vec::new());
                    assert(t.rows@.drop_last() =~= rows.drop_last());
                    assert(t.rows@.last()@.drop_last() =~= rows.last()@);
                }
            },
            _ => {},
        }
    }
}

impl DocumentInline {
    /// Appends an inline to what a formatting, a link or an image holds.
    pub fn append(&mut self, child: DocumentInline)
        ensures
            child_appended(*old(self), *final(self), child),
    {
        match self {
            DocumentInline::Emph(e) => e.inlines.push(child),
            DocumentInline::Strong(e) => e.inlines.push(child),
            DocumentInline::Strikeout(e) => e.inlines.push(child),
            DocumentInline::Link(l) => l.inlines.push(child),
            DocumentInline::Image(l) => l.inlines.push(child),
            _ => {},
        }
    }
}


} // verus!
