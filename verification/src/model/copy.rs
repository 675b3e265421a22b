use vstd::prelude::*;

use crate::model::document::{
    BlockQuote, BulletList, Code, CodeBlock, Div, DocumentBlock, DocumentInline, DocumentTable,
    Emph, Header, HorizontalRule, Image, Link, Math, OrderedList, Para, Plain, RawBlock,
    Strikeout, Strong, TaskList,
};
use crate::model::node::duplicate_alignment;

verus! {

/// Whether two inlines hold the same content: the same variant with equal texts, ranges and
/// targets, and, inside, inlines that hold the same content.
pub open spec fn same_inline(a: DocumentInline, b: DocumentInline) -> bool
    decreases a,
{
    match a {
        DocumentInline::Str(x) => b matches DocumentInline::Str(y) && y == x,
        DocumentInline::Tag(x) => b matches DocumentInline::Tag(y) && y == x,
        DocumentInline::Code(x) => b matches DocumentInline::Code(y) && y == x,
        DocumentInline::Math(x) => b matches DocumentInline::Math(y) && y == x,
        DocumentInline::Emph(x) => b matches DocumentInline::Emph(y) && y.inline_range
            == x.inline_range && same_inlines(x.inlines@, y.inlines@),
        DocumentInline::Strong(x) => b matches DocumentInline::Strong(y) && y.inline_range
            == x.inline_range && same_inlines(x.inlines@, y.inlines@),
        DocumentInline::Strikeout(x) => b matches DocumentInline::Strikeout(y) && y.inline_range
            == x.inline_range && same_inlines(x.inlines@, y.inlines@),
        DocumentInline::Link(x) => b matches DocumentInline::Link(y) && y.url == x.url && y.title
            == x.title && y.inline_range == x.inline_range && y.link_type == x.link_type
            && same_inlines(x.inlines@, y.inlines@),
        DocumentInline::Image(x) => b matches DocumentInline::Image(y) && y.url == x.url
            && y.title == x.title && y.inline_range == x.inline_range && same_inlines(
            x.inlines@,
            y.inlines@,
        ),
    }
}

pub open spec fn same_inlines(a: Seq<DocumentInline>, b: Seq<DocumentInline>) -> bool
    decreases a,
{
    &&& a.len() == b.len()
    &&& a.len() > 0 ==> same_inlines(a.drop_last(), b.drop_last()) && same_inline(
        a.last(),
        b.last(),
    )
}

pub open spec fn same_cells(a: Seq<Vec<DocumentInline>>, b: Seq<Vec<DocumentInline>>) -> bool
    decreases a.len(),
{
    &&& a.len() == b.len()
    &&& a.len() > 0 ==> same_cells(a.drop_last(), b.drop_last()) && same_inlines(
        a.last()@,
        b.last()@,
    )
}

pub open spec fn same_rows(a: Seq<Vec<Vec<DocumentInline>>>, b: Seq<Vec<Vec<DocumentInline>>>) -> bool
    decreases a.len(),
{
    &&& a.len() == b.len()
    &&& a.len() > 0 ==> same_rows(a.drop_last(), b.drop_last()) && same_cells(
        a.last()@,
        b.last()@,
    )
}

/// Whether two blocks hold the same content: the same variant with equal ranges, levels,
/// texts and alignments, and, inside, blocks and inlines that hold the same content.
pub open spec fn same_block(a: DocumentBlock, b: DocumentBlock) -> bool
    decreases a,
{
    match a {
        DocumentBlock::Para(x) => b matches DocumentBlock::Para(y) && y.line_range == x.line_range
            && same_inlines(x.inlines@, y.inlines@),
        DocumentBlock::Plain(x) => b matches DocumentBlock::Plain(y) && y.line_range
            == x.line_range && same_inlines(x.inlines@, y.inlines@),
        DocumentBlock::Header(x) => b matches DocumentBlock::Header(y) && y.line_range
            == x.line_range && y.level == x.level && same_inlines(x.inlines@, y.inlines@),
        DocumentBlock::CodeBlock(x) => b matches DocumentBlock::CodeBlock(y) && y == x,
        DocumentBlock::RawBlock(x) => b matches DocumentBlock::RawBlock(y) && y == x,
        DocumentBlock::BlockQuote(x) => b matches DocumentBlock::BlockQuote(y) && y.line_range
            == x.line_range && same_blocks(x.blocks@, y.blocks@),
        DocumentBlock::BulletList(x) => b matches DocumentBlock::BulletList(y) && same_items(
            x.items@,
            y.items@,
        ),
        DocumentBlock::OrderedList(x) => b matches DocumentBlock::OrderedList(y) && same_items(
            x.items@,
            y.items@,
        ),
        DocumentBlock::TaskList(x) => b matches DocumentBlock::TaskList(y) && same_task_items(
            x.items@,
            y.items@,
        ),
        DocumentBlock::Div(x) => b matches DocumentBlock::Div(y) && same_blocks(
            x.blocks@,
            y.blocks@,
        ),
        DocumentBlock::HorizontalRule(x) => b matches DocumentBlock::HorizontalRule(y) && y == x,
        DocumentBlock::Table(x) => b matches DocumentBlock::Table(y) && y.line_range
            == x.line_range && y.alignment@ == x.alignment@ && same_cells(x.header@, y.header@)
            && same_rows(x.rows@, y.rows@),
    }
}

pub open spec fn same_blocks(a: Seq<DocumentBlock>, b: Seq<DocumentBlock>) -> bool
    decreases a,
{
    &&& a.len() == b.len()
    &&& a.len() > 0 ==> same_blocks(a.drop_last(), b.drop_last()) && same_block(
        a.last(),
        b.last(),
    )
}

pub open spec fn same_items(a: Seq<Vec<DocumentBlock>>, b: Seq<Vec<DocumentBlock>>) -> bool
    decreases a,
{
    &&& a.len() == b.len()
    &&& a.len() > 0 ==> same_items(a.drop_last(), b.drop_last()) && same_blocks(
        a.last()@,
        b.last()@,
    )
}

pub open spec fn same_task_items(
    a: Seq<(bool, Vec<DocumentBlock>)>,
    b: Seq<(bool, Vec<DocumentBlock>)>,
) -> bool
    decreases a,
{
    &&& a.len() == b.len()
    &&& a.len() > 0 ==> same_task_items(a.drop_last(), b.drop_last()) && a.last().0 == b.last().0
        && same_blocks(a.last().1@, b.last().1@)
}

/// A copy of an inline.
pub fn duplicate_inline(i: &DocumentInline) -> (r: DocumentInline)
    ensures
        same_inline(*i, r),
    decreases i,
{
    match i {
        DocumentInline::Str(s) => DocumentInline::Str(s.clone()),
        DocumentInline::Tag(s) => DocumentInline::Tag(s.clone()),
        DocumentInline::Code(c) => DocumentInline::Code(
            Code { text: c.text.clone(), inline_range: c.inline_range },
        ),
        DocumentInline::Math(m) => DocumentInline::Math(
            Math { content: m.content.clone(), inline_range: m.inline_range },
        ),
        DocumentInline::Emph(e) => DocumentInline::Emph(
            Emph { inlines: duplicate_inlines(&e.inlines), inline_range: e.inline_range },
        ),
        DocumentInline::Strong(e) => DocumentInline::Strong(
            Strong { inlines: duplicate_inlines(&e.inlines), inline_range: e.inline_range },
        ),
        DocumentInline::Strikeout(e) => DocumentInline::Strikeout(
            Strikeout { inlines: duplicate_inlines(&e.inlines), inline_range: e.inline_range },
        ),
        DocumentInline::Link(l) => DocumentInline::Link(
            Link {
                inlines: duplicate_inlines(&l.inlines),
                url: l.url.clone(),
                title: l.title.clone(),
                inline_range: l.inline_range,
                link_type: l.link_type,
            },
        ),
        DocumentInline::Image(l) => DocumentInline::Image(
            Image {
                inlines: duplicate_inlines(&l.inlines),
                url: l.url.clone(),
                title: l.title.clone(),
                inline_range: l.inline_range,
            },
        ),
    }
}

/// A copy of a sequence of inlines.
pub fn duplicate_inlines(s: &Vec<DocumentInline>) -> (r: Vec<DocumentInline>)
    ensures
        same_inlines(s@, r@),
    decreases s,
{
    let mut r: Vec<DocumentInline> = Vec::new();
    let mut i: usize = 0;
    while i < s.len()
        invariant
            i <= s@.len(),
            same_inlines(s@.take(i as int), r@),
        decreases s@.len() - i,
    {
        let x = duplicate_inline(&s[i]);
        let ghost prev = r@;
        r.push(x);
        assert(s@.take(i + 1).drop_last() =~= s@.take(i as int));
        assert(r@.drop_last() =~= prev);
        i = i + 1;
    }
    assert(s@.take(s@.len() as int) =~= s@);
    r
}

fn duplicate_cells(s: &Vec<Vec<DocumentInline>>) -> (r: Vec<Vec<DocumentInline>>)
    ensures
        same_cells(s@, r@),
{
    let mut r: Vec<Vec<DocumentInline>> = Vec::new();
    let mut i: usize = 0;
    while i < s.len()
        invariant
            i <= s@.len(),
            same_cells(s@.take(i as int), r@),
        decreases s@.len() - i,
    {
        let x = duplicate_inlines(&s[i]);
        let ghost prev = r@;
        r.push(x);
        assert(s@.take(i + 1).drop_last() =~= s@.take(i as int));
        assert(r@.drop_last() =~= prev);
        i = i + 1;
    }
    assert(s@.take(s@.len() as int) =~= s@);
    r
}

fn duplicate_rows(s: &Vec<Vec<Vec<DocumentInline>>>) -> (r: Vec<Vec<Vec<DocumentInline>>>)
    ensures
        same_rows(s@, r@),
{
    let mut r: Vec<Vec<Vec<DocumentInline>>> = Vec::new();
    let mut i: usize = 0;
    while i < s.len()
        invariant
            i <= s@.len(),
            same_rows(s@.take(i as int), r@),
        decreases s@.len() - i,
    {
        let x = duplicate_cells(&s[i]);
        let ghost prev = r@;
        r.push(x);
        assert(s@.take(i + 1).drop_last() =~= s@.take(i as int));
        assert(r@.drop_last() =~= prev);
        i = i + 1;
    }
    assert(s@.take(s@.len() as int) =~= s@);
    r
}

fn duplicate_string_option(s: &Option<String>) -> (r: Option<String>)
    ensures
        r == *s,
{
    match s {
        Some(x) => Some(x.clone()),
        None => None,
    }
}

/// A copy of a block.
pub fn duplicate_block(b: &DocumentBlock) -> (r: DocumentBlock)
    ensures
        same_block(*b, r),
    decreases b,
{
    match b {
        DocumentBlock::Para(p) => DocumentBlock::Para(
            Para { line_range: p.line_range, inlines: duplicate_inlines(&p.inlines) },
        ),
        DocumentBlock::Plain(p) => DocumentBlock::Plain(
            Plain { line_range: p.line_range, inlines: duplicate_inlines(&p.inlines) },
        ),
        DocumentBlock::Header(h) => DocumentBlock::Header(
            Header {
                line_range: h.line_range,
                level: h.level,
                inlines: duplicate_inlines(&h.inlines),
            },
        ),
        DocumentBlock::CodeBlock(c) => DocumentBlock::CodeBlock(
            CodeBlock {
                line_range: c.line_range,
                lang: duplicate_string_option(&c.lang),
                text: c.text.clone(),
            },
        ),
        DocumentBlock::RawBlock(r) => DocumentBlock::RawBlock(
            RawBlock { line_range: r.line_range, format: r.format.clone(), text: r.text.clone() },
        ),
        DocumentBlock::BlockQuote(q) => DocumentBlock::BlockQuote(
            BlockQuote { line_range: q.line_range, blocks: duplicate_blocks(&q.blocks) },
        ),
        DocumentBlock::BulletList(l) => DocumentBlock::BulletList(
            BulletList { items: duplicate_items(&l.items) },
        ),
        DocumentBlock::OrderedList(l) => DocumentBlock::OrderedList(
            OrderedList { items: duplicate_items(&l.items) },
        ),
        DocumentBlock::TaskList(l) => DocumentBlock::TaskList(
            TaskList { items: duplicate_task_items(&l.items) },
        ),
        DocumentBlock::Div(d) => DocumentBlock::Div(Div { blocks: duplicate_blocks(&d.blocks) }),
        DocumentBlock::HorizontalRule(h) => DocumentBlock::HorizontalRule(
            HorizontalRule { line_range: h.line_range },
        ),
        DocumentBlock::Table(t) => DocumentBlock::Table(
            DocumentTable {
                line_range: t.line_range,
                header: duplicate_cells(&t.header),
                alignment: duplicate_alignment(&t.alignment),
                rows: duplicate_rows(&t.rows),
            },
        ),
    }
}

/// A copy of a sequence of blocks.
pub fn duplicate_blocks(s: &Vec<DocumentBlock>) -> (r: Vec<DocumentBlock>)
    ensures
        same_blocks(s@, r@),
    decreases s,
{
    let mut r: Vec<DocumentBlock> = Vec::new();
    let mut i: usize = 0;
    while i < s.len()
        invariant
            i <= s@.len(),
            same_blocks(s@.take(i as int), r@),
        decreases s@.len() - i,
    {
        let x = duplicate_block(&s[i]);
        let ghost prev = r@;
        r.push(x);
        assert(s@.take(i + 1).drop_last() =~= s@.take(i as int));
        assert(r@.drop_last() =~= prev);
        i = i + 1;
    }
    assert(s@.take(s@.len() as int) =~= s@);
    r
}

fn duplicate_items(s: &Vec<Vec<DocumentBlock>>) -> (r: Vec<Vec<DocumentBlock>>)
    ensures
        same_items(s@, r@),
    decreases s,
{
    let mut r: Vec<Vec<DocumentBlock>> = Vec::new();
    let mut i: usize = 0;
    while i < s.len()
        invariant
            i <= s@.len(),
            same_items(s@.take(i as int), r@),
        decreases s@.len() - i,
    {
        let x = duplicate_blocks(&s[i]);
        let ghost prev = r@;
        r.push(x);
        assert(s@.take(i + 1).drop_last() =~= s@.take(i as int));
        assert(r@.drop_last() =~= prev);
        i = i + 1;
    }
    assert(s@.take(s@.len() as int) =~= s@);
    r
}

fn duplicate_task_items(s: &Vec<(bool, Vec<DocumentBlock>)>) -> (r: Vec<(bool, Vec<DocumentBlock>)>)
    ensures
        same_task_items(s@, r@),
    decreases s,
{
    let mut r: Vec<(bool, Vec<DocumentBlock>)> = Vec::new();
    let mut i: usize = 0;
    while i < s.len()
        invariant
            i <= s@.len(),
            same_task_items(s@.take(i as int), r@),
        decreases s@.len() - i,
    {
        let x = duplicate_blocks(&s[i].1);
        let ghost prev = r@;
        r.push((s[i].0, x));
        assert(s@.take(i + 1).drop_last() =~= s@.take(i as int));
        assert(r@.drop_last() =~= prev);
        i = i + 1;
    }
    assert(s@.take(s@.len() as int) =~= s@);
    r
}

} // verus!
