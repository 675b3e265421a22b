use vstd::prelude::*;

use crate::markdown::events::{
    column_alignment_of, link_type_of, to_column_alignments, to_link_type, CodeBlockKind,
    MarkdownEvent, MarkdownTag, MarkdownTagEnd, SpannedEvent,
};
use crate::markdown::tags::{
    are_pieces, byte_text, capture_spans, cuttable, hashtag_pieces, law_hashtag_pieces_spell_text,
    hashtag_capture_spans, is_piece, law_hashtag_strings_not_empty, lemma_hashes_cuttable,
    tag_names_formed, lemma_pieces_text, span_texts, split_hashtags, tags_after_hashes,
    HASHTAG_PATTERN,
};
use crate::markdown::lines::{
    lines_of_range, position_of, text_line_starts, to_inline_range, to_line_range,
};
use crate::model::copy::{duplicate_blocks, same_blocks};
use crate::model::document::{
    block_appended, cell_appended, child_appended, doc_inlines_text, inline_appended,
    is_container_block, item_appended, lemma_doc_inlines_text_concat, row_appended, BlockQuote,
    BulletList, Code, CodeBlock, DocumentBlock, DocumentInline, DocumentTable, Emph, Header,
    HorizontalRule, Image, InlineRange, Link, Math, OrderedList, Para, Strikeout, Strong,
};
use crate::model::LineRange;
use vstd::string::StringSliceAdditionalSpecFns;
use vstd::utf8::{encode_utf8, is_char_boundary};

verus! {

/// Builds the blocks of a markdown document from the events of its parse: blocks and
/// inlines that are still open wait on stacks until their end event, then join the
/// element around them, or the document when there is none.
pub struct MarkdownEventsReader {
    inlines_stack: Vec<(DocumentInline, LineRange)>,
    blocks_stack: Vec<DocumentBlock>,
    blocks: Vec<DocumentBlock>,
    taskslists: Vec<bool>,
    hashtags: Vec<String>,
    line_starts: Vec<usize>,
    metadata_block: bool,
    metadata: Option<String>,
}

impl MarkdownEventsReader {
    /// The inlines that are open, innermost last, each with the lines where it stands.
    pub closed spec fn open_inlines(&self) -> Seq<(DocumentInline, LineRange)> {
        self.inlines_stack@
    }

    /// The blocks that are open, innermost last.
    pub closed spec fn open_blocks(&self) -> Seq<DocumentBlock> {
        self.blocks_stack@
    }

    /// The blocks of the document that are complete.
    pub closed spec fn read_blocks(&self) -> Seq<DocumentBlock> {
        self.blocks@
    }

    /// The task markers met in the current list.
    pub closed spec fn task_marks(&self) -> Seq<bool> {
        self.taskslists@
    }

    /// The hashtags met so far, in order.
    pub closed spec fn found_tags(&self) -> Seq<String> {
        self.hashtags@
    }

    /// Where the lines of the source start.
    pub closed spec fn starts(&self) -> Seq<usize> {
        self.line_starts@
    }

    /// Whether the reader is inside a metadata block.
    pub closed spec fn in_metadata(&self) -> bool {
        self.metadata_block
    }

    /// The text of the last metadata block met.
    pub closed spec fn metadata_text(&self) -> Option<String> {
        self.metadata
    }

    /// Whether two readers agree on all but their stacks and blocks.
    pub open spec fn same_text_state(&self, other: &Self) -> bool {
        &&& self.task_marks() == other.task_marks()
        &&& self.found_tags() == other.found_tags()
        &&& self.starts() == other.starts()
        &&& self.in_metadata() == other.in_metadata()
        &&& self.metadata_text() == other.metadata_text()
    }

    /// A reader that has read nothing.
    pub fn new() -> (r: MarkdownEventsReader)
        ensures
            r.open_inlines().len() == 0,
            r.open_blocks().len() == 0,
            r.read_blocks().len() == 0,
            r.task_marks().len() == 0,
            r.found_tags().len() == 0,
            r.starts().len() == 0,
            !r.in_metadata(),
            r.metadata_text() is None,
    {
        MarkdownEventsReader {
            inlines_stack: Vec::new(),
            blocks_stack: Vec::new(),
            blocks: Vec::new(),
            taskslists: Vec::new(),
            hashtags: Vec::new(),
            line_starts: Vec::new(),
            metadata_block: false,
            metadata: None,
        }
    }

    /// A copy of the blocks of the document read so far.
    pub fn blocks(&self) -> (r: Vec<DocumentBlock>)
        ensures
            same_blocks(self.read_blocks(), r@),
    {
        duplicate_blocks(&self.blocks)
    }

    /// The task markers met so far, in order: whether each task was checked.
    pub fn task_markers(&self) -> (r: Vec<bool>)
        ensures
            r@ == self.task_marks(),
    {
        let mut r: Vec<bool> = Vec::new();
        let mut i: usize = 0;
        while i < self.taskslists.len()
            invariant
                i <= self.taskslists@.len(),
                r@ == self.taskslists@.take(i as int),
            decreases self.taskslists@.len() - i,
        {
            r.push(self.taskslists[i]);
            assert(r@ =~= self.taskslists@.take(i + 1));
            i = i + 1;
        }
        assert(self.taskslists@.take(self.taskslists@.len() as int) =~= self.taskslists@);
        r
    }

    /// The hashtags met so far, in order.
    pub fn hashtags(&self) -> (r: Vec<String>)
        ensures
            r@ == self.found_tags(),
    {
        let mut r: Vec<String> = Vec::new();
        let mut i: usize = 0;
        while i < self.hashtags.len()
            invariant
                i <= self.hashtags@.len(),
                r@ == self.hashtags@.take(i as int),
            decreases self.hashtags@.len() - i,
        {
            r.push(self.hashtags[i].clone());
            assert(r@ =~= self.hashtags@.take(i + 1));
            i = i + 1;
        }
        assert(self.hashtags@.take(self.hashtags@.len() as int) =~= self.hashtags@);
        r
    }

    /// The text of the last metadata block met.
    pub fn metadata(&self) -> (r: Option<String>)
        ensures
            r == self.metadata_text(),
    {
        match &self.metadata {
            Some(m) => Some(m.clone()),
            None => None,
        }
    }

    /// The innermost open block.
    pub fn top_block(&mut self) -> (r: &mut DocumentBlock)
        requires
            old(self).open_blocks().len() > 0,
        ensures
            *r == old(self).open_blocks().last(),
            final(self).open_blocks() == old(self).open_blocks().update(
                old(self).open_blocks().len() - 1,
                *final(r),
            ),
            final(self).open_inlines() == old(self).open_inlines(),
            final(self).read_blocks() == old(self).read_blocks(),
            final(self).same_text_state(old(self)),
    {
        let n = self.blocks_stack.len();
        &mut self.blocks_stack[n - 1]
    }

    /// The lines that the source bytes `start..end` span.
    fn lines(&self, start: usize, end: usize) -> (r: LineRange)
        ensures
            r == lines_of_range(self.starts(), start as int, end as int),
    {
        to_line_range(&self.line_starts, start, end)
    }

    /// The positions where the source bytes `start..end` begin and end.
    fn positions(&self, start: usize, end: usize) -> (r: InlineRange)
        ensures
            r == (InlineRange {
                start: position_of(self.starts(), start as int),
                end: position_of(self.starts(), end as int),
            }),
    {
        to_inline_range(&self.line_starts, start, end)
    }

    fn push_inline(&mut self, inline: DocumentInline, lines: LineRange)
        ensures
            final(self).open_inlines() == old(self).open_inlines().push((inline, lines)),
            final(self).open_blocks() == old(self).open_blocks(),
            final(self).read_blocks() == old(self).read_blocks(),
            final(self).same_text_state(old(self)),
    {
        self.inlines_stack.push((inline, lines));
    }

    fn push_block(&mut self, block: DocumentBlock)
        ensures
            final(self).open_blocks() == old(self).open_blocks().push(block),
            final(self).open_inlines() == old(self).open_inlines(),
            final(self).read_blocks() == old(self).read_blocks(),
            final(self).same_text_state(old(self)),
    {
        self.blocks_stack.push(block);
    }
}

/// Whether the innermost open inline can be closed: there is one, and when it is the only
/// one, there is an open block to take it.
pub open spec fn can_pop_inline(r: MarkdownEventsReader) -> bool {
    r.open_inlines().len() > 1 || (r.open_inlines().len() == 1 && r.open_blocks().len() > 0)
}

/// What closing the innermost open inline does: the inline joins the inline around it, or,
/// when there is none, the innermost open block, which takes it with its lines.
pub open spec fn inline_popped(before: MarkdownEventsReader, after: MarkdownEventsReader) -> bool {
    let s = before.open_inlines();
    let (inline, lines) = s.last();
    let rest = s.drop_last();
    &&& after.read_blocks() == before.read_blocks()
    &&& after.same_text_state(&before)
    &&& if rest.len() == 0 {
        let blocks = before.open_blocks();
        &&& after.open_inlines() == rest
        &&& after.open_blocks().len() == blocks.len()
        &&& after.open_blocks().drop_last() == blocks.drop_last()
        &&& inline_appended(blocks.last(), after.open_blocks().last(), inline, lines)
    } else {
        &&& after.open_blocks() == before.open_blocks()
        &&& after.open_inlines().len() == rest.len()
        &&& after.open_inlines().drop_last() == rest.drop_last()
        &&& after.open_inlines().last().1 == rest.last().1
        &&& child_appended(rest.last().0, after.open_inlines().last().0, inline)
    }
}

/// What closing the innermost open block does: the block joins the block around it when
/// that block holds blocks (and is dropped when it does not), or, when there is none, the
/// document.
pub open spec fn block_popped(before: MarkdownEventsReader, after: MarkdownEventsReader) -> bool {
    let s = before.open_blocks();
    let block = s.last();
    let rest = s.drop_last();
    &&& after.open_inlines() == before.open_inlines()
    &&& after.same_text_state(&before)
    &&& if rest.len() == 0 {
        &&& after.open_blocks() == rest
        &&& after.read_blocks() == before.read_blocks().push(block)
    } else {
        &&& after.read_blocks() == before.read_blocks()
        &&& after.open_blocks().len() == rest.len()
        &&& after.open_blocks().drop_last() == rest.drop_last()
        &&& if is_container_block(rest.last()) {
            block_appended(rest.last(), after.open_blocks().last(), block)
        } else {
            after.open_blocks().last() == rest.last()
        }
    }
}

impl MarkdownEventsReader {
    /// Closes the innermost open inline; fails, changing nothing, when it cannot be closed.
    fn pop_inline(&mut self) -> (ok: bool)
        ensures
            ok == can_pop_inline(*old(self)),
            ok ==> inline_popped(*old(self), *final(self)),
            !ok ==> *final(self) == *old(self),
    {
        let n = self.inlines_stack.len();
        if n == 0 || (n == 1 && self.blocks_stack.len() == 0) {
            return false;
        }
        let ghost before = *self;
        let (inline, lines) = self.inlines_stack.pop().unwrap();
        if n == 1 {
            let top = self.top_block();
            top.append_inline(inline, lines);
            assert(self.blocks_stack@.drop_last() =~= before.blocks_stack@.drop_last());
        } else {
            let last = &mut self.inlines_stack[n - 2];
            last.0.append(inline);
            assert(self.inlines_stack@.drop_last() =~= before.inlines_stack@.drop_last().drop_last());
        }
        true
    }

    /// Closes the innermost open block; fails, changing nothing, when there is none.
    fn pop_block(&mut self) -> (ok: bool)
        ensures
            ok == (old(self).open_blocks().len() > 0),
            ok ==> block_popped(*old(self), *final(self)),
            !ok ==> *final(self) == *old(self),
    {
        if self.blocks_stack.len() == 0 {
            return false;
        }
        let ghost before = *self;
        let block = self.blocks_stack.pop().unwrap();
        if self.blocks_stack.len() == 0 {
            self.blocks.push(block);
            return true;
        }
        let ghost mid = self.blocks_stack@;
        let top = self.top_block();
        if top.is_container() {
            top.append_block(block);
        }
        assert(self.blocks_stack@.drop_last() =~= mid.drop_last());
        true
    }
}


/// Whether two readers agree on everything but the metadata flag.
pub open spec fn same_but_metadata_flag(a: MarkdownEventsReader, b: MarkdownEventsReader) -> bool {
    &&& a.open_inlines() == b.open_inlines()
    &&& a.open_blocks() == b.open_blocks()
    &&& a.read_blocks() == b.read_blocks()
    &&& a.task_marks() == b.task_marks()
    &&& a.found_tags() == b.found_tags()
    &&& a.starts() == b.starts()
    &&& a.metadata_text() == b.metadata_text()
}

/// Whether `after` is `before` with one more open block.
pub open spec fn block_opened(before: MarkdownEventsReader, after: MarkdownEventsReader) -> bool {
    &&& after.open_blocks().len() == before.open_blocks().len() + 1
    &&& after.open_blocks().drop_last() == before.open_blocks()
    &&& after.open_inlines() == before.open_inlines()
    &&& after.read_blocks() == before.read_blocks()
    &&& after.same_text_state(&before)
}

/// Whether `after` is `before` with one more open inline, standing on `lines`.
pub open spec fn inline_opened(
    before: MarkdownEventsReader,
    after: MarkdownEventsReader,
    lines: LineRange,
) -> bool {
    &&& after.open_inlines().len() == before.open_inlines().len() + 1
    &&& after.open_inlines().drop_last() == before.open_inlines()
    &&& after.open_inlines().last().1 == lines
    &&& after.open_blocks() == before.open_blocks()
    &&& after.read_blocks() == before.read_blocks()
    &&& after.same_text_state(&before)
}

/// Whether `after` is `before` with only its innermost open block changed.
pub open spec fn top_block_changed(before: MarkdownEventsReader, after: MarkdownEventsReader) -> bool {
    &&& before.open_blocks().len() > 0
    &&& after.open_blocks().len() == before.open_blocks().len()
    &&& after.open_blocks().drop_last() == before.open_blocks().drop_last()
    &&& after.open_inlines() == before.open_inlines()
    &&& after.read_blocks() == before.read_blocks()
    &&& after.same_text_state(&before)
}

/// The language that a code block records: the info string of a fenced block when it is
/// not empty.
pub open spec fn code_lang(kind: CodeBlockKind) -> Option<String> {
    match kind {
        CodeBlockKind::Fenced(lang) => if lang@.len() > 0 {
            Some(lang)
        } else {
            None
        },
        CodeBlockKind::Indented => None,
    }
}

/// Whether a start event can be taken: items, rows and cells need an open block.
pub open spec fn can_start(r: MarkdownEventsReader, tag: MarkdownTag) -> bool {
    match tag {
        MarkdownTag::Item | MarkdownTag::TableRow | MarkdownTag::TableCell => r.open_blocks().len()
            > 0,
        _ => true,
    }
}

/// What a start event does: blocks and inlines open with the lines (and positions) of the
/// source bytes `start..end`, items, rows and cells start in the innermost open block, a
/// metadata block starts, and the other tags change nothing.
pub open spec fn started(
    before: MarkdownEventsReader,
    after: MarkdownEventsReader,
    tag: MarkdownTag,
    start: int,
    end: int,
) -> bool {
    let lines = lines_of_range(before.starts(), start, end);
    let range = InlineRange {
        start: position_of(before.starts(), start),
        end: position_of(before.starts(), end),
    };
    let top = after.open_blocks().last();
    let inline = after.open_inlines().last().0;
    match tag {
        MarkdownTag::Paragraph => {
            &&& block_opened(before, after)
            &&& top matches DocumentBlock::Para(p) && p.line_range == lines && p.inlines@.len() == 0
        },
        MarkdownTag::Heading { level } => {
            &&& block_opened(before, after)
            &&& top matches DocumentBlock::Header(h) && h.line_range == lines && h.level == level
                && h.inlines@.len() == 0
        },
        MarkdownTag::BlockQuote => {
            &&& block_opened(before, after)
            &&& top matches DocumentBlock::BlockQuote(q) && q.line_range == lines
                && q.blocks@.len() == 0
        },
        MarkdownTag::CodeBlock(kind) => {
            &&& block_opened(before, after)
            &&& top matches DocumentBlock::CodeBlock(c) && c.line_range == lines && c.lang
                == code_lang(kind) && c.text@.len() == 0
        },
        MarkdownTag::List(first) => {
            &&& block_opened(before, after)
            &&& first is Some ==> (top matches DocumentBlock::OrderedList(l) && l.items@.len() == 0)
            &&& first is None ==> (top matches DocumentBlock::BulletList(l) && l.items@.len() == 0)
        },
        MarkdownTag::Item => top_block_changed(before, after) && item_appended(
            before.open_blocks().last(),
            top,
        ),
        MarkdownTag::Table(alignment) => {
            &&& block_opened(before, after)
            &&& top matches DocumentBlock::Table(t) && t.line_range == lines && t.rows@.len() == 0
                && t.header@.len() == 0 && t.alignment@.len() == alignment@.len() && forall|i: int|
                0 <= i < alignment@.len() ==> t.alignment@[i] == column_alignment_of(
                    #[trigger] alignment@[i],
                )
        },
        MarkdownTag::TableRow => top_block_changed(before, after) && row_appended(
            before.open_blocks().last(),
            top,
        ),
        MarkdownTag::TableCell => top_block_changed(before, after) && cell_appended(
            before.open_blocks().last(),
            top,
        ),
        MarkdownTag::Emphasis => {
            &&& inline_opened(before, after, lines)
            &&& inline matches DocumentInline::Emph(e) && e.inlines@.len() == 0 && e.inline_range
                == range
        },
        MarkdownTag::Strong => {
            &&& inline_opened(before, after, lines)
            &&& inline matches DocumentInline::Strong(e) && e.inlines@.len() == 0
                && e.inline_range == range
        },
        MarkdownTag::Strikethrough => {
            &&& inline_opened(before, after, lines)
            &&& inline matches DocumentInline::Strikeout(e) && e.inlines@.len() == 0
                && e.inline_range == range
        },
        MarkdownTag::Link { link_type, dest_url, title } => {
            &&& inline_opened(before, after, lines)
            &&& inline matches DocumentInline::Link(l) && l.inlines@.len() == 0 && l.url
                == dest_url && l.title == title && l.inline_range == range && l.link_type
                == link_type_of(link_type)
        },
        MarkdownTag::Image { link_type, dest_url, title } => {
            &&& inline_opened(before, after, lines)
            &&& inline matches DocumentInline::Image(l) && l.inlines@.len() == 0 && l.url
                == dest_url && l.title == title && l.inline_range == range
        },
        MarkdownTag::MetadataBlock => after.in_metadata() && same_but_metadata_flag(after, before),
        _ => after == before,
    }
}

/// Whether an end event can be taken: the block or inline that it closes must be open
/// (and an inline must have an element to join).
pub open spec fn can_end(r: MarkdownEventsReader, tag: MarkdownTagEnd) -> bool {
    match tag {
        MarkdownTagEnd::Paragraph | MarkdownTagEnd::Heading | MarkdownTagEnd::BlockQuote
        | MarkdownTagEnd::CodeBlock | MarkdownTagEnd::List | MarkdownTagEnd::Table => r.open_blocks().len()
            > 0,
        MarkdownTagEnd::Emphasis | MarkdownTagEnd::Strong | MarkdownTagEnd::Strikethrough
        | MarkdownTagEnd::Link | MarkdownTagEnd::Image => can_pop_inline(r),
        _ => true,
    }
}

/// What an end event does: blocks and inlines close (a list keeps the task markers met in
/// it), a metadata block ends, and the other tags change nothing.
pub open spec fn ended(
    before: MarkdownEventsReader,
    after: MarkdownEventsReader,
    tag: MarkdownTagEnd,
) -> bool {
    match tag {
        MarkdownTagEnd::Paragraph | MarkdownTagEnd::Heading | MarkdownTagEnd::BlockQuote
        | MarkdownTagEnd::CodeBlock | MarkdownTagEnd::List | MarkdownTagEnd::Table => block_popped(
            before,
            after,
        ),
        MarkdownTagEnd::Emphasis | MarkdownTagEnd::Strong | MarkdownTagEnd::Strikethrough
        | MarkdownTagEnd::Link | MarkdownTagEnd::Image => inline_popped(before, after),
        MarkdownTagEnd::MetadataBlock => !after.in_metadata() && same_but_metadata_flag(
            after,
            before,
        ),
        _ => after == before,
    }
}

impl MarkdownEventsReader {
    /// Takes the start of an element that covers the source bytes `start..end`; fails,
    /// changing nothing, when the event cannot be taken.
    fn start_tag(&mut self, tag: &MarkdownTag, start: usize, end: usize) -> (ok: bool)
        ensures
            ok == can_start(*old(self), *tag),
            ok ==> started(*old(self), *final(self), *tag, start as int, end as int),
            !ok ==> *final(self) == *old(self),
    {
        let ghost before = *self;
        match tag {
            MarkdownTag::Paragraph => {
                let line_range = self.lines(start, end);
                self.push_block(DocumentBlock::Para(Para { line_range, inlines: Vec::new() }));
            },
            MarkdownTag::Heading { level } => {
                let line_range = self.lines(start, end);
                self.push_block(
                    DocumentBlock::Header(Header { line_range, level: *level, inlines: Vec::new() }),
                );
            },
            MarkdownTag::BlockQuote => {
                let line_range = self.lines(start, end);
                self.push_block(
                    DocumentBlock::BlockQuote(BlockQuote { line_range, blocks: Vec::new() }),
                );
            },
            MarkdownTag::CodeBlock(kind) => {
                let line_range = self.lines(start, end);
                let lang = match kind {
                    CodeBlockKind::Fenced(lang) => {
                        if lang.as_str().unicode_len() > 0 {
                            Some(lang.clone())
                        } else {
                            None
                        }
                    },
                    CodeBlockKind::Indented => None,
                };
                self.push_block(
                    DocumentBlock::CodeBlock(CodeBlock { line_range, lang, text: String::new() }),
                );
            },
            MarkdownTag::List(first) => {
                if first.is_some() {
                    self.push_block(DocumentBlock::OrderedList(OrderedList { items: Vec::new() }));
                } else {
                    self.push_block(DocumentBlock::BulletList(BulletList { items: Vec::new() }));
                }
            },
            MarkdownTag::Item => {
                if self.blocks_stack.len() == 0 {
                    return false;
                }
                let top = self.top_block();
                top.append_item();
            },
            MarkdownTag::Table(alignment) => {
                let line_range = self.lines(start, end);
                let alignment = to_column_alignments(alignment);
                self.push_block(
                    DocumentBlock::Table(
                        DocumentTable {
                            line_range,
                            header: Vec::new(),
                            alignment,
                            rows: Vec::new(),
                        },
                    ),
                );
            },
            MarkdownTag::TableRow => {
                if self.blocks_stack.len() == 0 {
                    return false;
                }
                let top = self.top_block();
                top.append_row();
            },
            MarkdownTag::TableCell => {
                if self.blocks_stack.len() == 0 {
                    return false;
                }
                let top = self.top_block();
                top.append_cell();
            },
            MarkdownTag::Emphasis => {
                let inline_range = self.positions(start, end);
                let lines = self.lines(start, end);
                self.push_inline(DocumentInline::Emph(Emph { inlines: Vec::new(), inline_range }), lines);
            },
            MarkdownTag::Strong => {
                let inline_range = self.positions(start, end);
                let lines = self.lines(start, end);
                self.push_inline(
                    DocumentInline::Strong(Strong { inlines: Vec::new(), inline_range }),
                    lines,
                );
            },
            MarkdownTag::Strikethrough => {
                let inline_range = self.positions(start, end);
                let lines = self.lines(start, end);
                self.push_inline(
                    DocumentInline::Strikeout(Strikeout { inlines: Vec::new(), inline_range }),
                    lines,
                );
            },
            MarkdownTag::Link { link_type, dest_url, title } => {
                let inline_range = self.positions(start, end);
                let lines = self.lines(start, end);
                self.push_inline(
                    DocumentInline::Link(
                        Link {
                            inlines: Vec::new(),
                            url: dest_url.clone(),
                            title: title.clone(),
                            inline_range,
                            link_type: to_link_type(*link_type),
                        },
                    ),
                    lines,
                );
            },
            MarkdownTag::Image { link_type: _, dest_url, title } => {
                let inline_range = self.positions(start, end);
                let lines = self.lines(start, end);
                self.push_inline(
                    DocumentInline::Image(
                        Image {
                            inlines: Vec::new(),
                            url: dest_url.clone(),
                            title: title.clone(),
                            inline_range,
                        },
                    ),
                    lines,
                );
            },
            MarkdownTag::MetadataBlock => {
                self.metadata_block = true;
            },
            _ => {},
        }
        proof {
            if self.blocks_stack@.len() == before.blocks_stack@.len() + 1 {
                assert(self.blocks_stack@.drop_last() =~= before.blocks_stack@);
            }
            if self.blocks_stack@.len() == before.blocks_stack@.len() {
                assert(self.blocks_stack@.drop_last() =~= before.blocks_stack@.drop_last());
            }
            if self.inlines_stack@.len() == before.inlines_stack@.len() + 1 {
                assert(self.inlines_stack@.drop_last() =~= before.inlines_stack@);
            }
        }
        true
    }

    /// Takes the end of an element; fails, changing nothing, when the event cannot be
    /// taken.
    fn end_tag(&mut self, tag: MarkdownTagEnd) -> (ok: bool)
        ensures
            ok == can_end(*old(self), tag),
            ok ==> ended(*old(self), *final(self), tag),
            !ok ==> *final(self) == *old(self),
    {
        match tag {
            MarkdownTagEnd::Paragraph | MarkdownTagEnd::Heading | MarkdownTagEnd::BlockQuote
            | MarkdownTagEnd::CodeBlock | MarkdownTagEnd::List | MarkdownTagEnd::Table => self.pop_block(),
            MarkdownTagEnd::Emphasis | MarkdownTagEnd::Strong | MarkdownTagEnd::Strikethrough
            | MarkdownTagEnd::Link | MarkdownTagEnd::Image => self.pop_inline(),
            MarkdownTagEnd::MetadataBlock => {
                self.metadata_block = false;
                true
            },
            _ => true,
        }
    }
}


/// Whether an inline can be emitted: an open inline or an open block takes it.
pub open spec fn can_emit(r: MarkdownEventsReader) -> bool {
    r.open_inlines().len() > 0 || r.open_blocks().len() > 0
}

/// What emitting a complete inline does: the innermost open inline takes it, or, when there
/// is none, the innermost open block takes it with its lines.
pub open spec fn inline_emitted(
    before: MarkdownEventsReader,
    after: MarkdownEventsReader,
    inline: DocumentInline,
    lines: LineRange,
) -> bool {
    &&& after.read_blocks() == before.read_blocks()
    &&& after.same_text_state(&before)
    &&& if before.open_inlines().len() == 0 {
        &&& after.open_inlines() == before.open_inlines()
        &&& after.open_blocks().len() == before.open_blocks().len()
        &&& after.open_blocks().drop_last() == before.open_blocks().drop_last()
        &&& inline_appended(
            before.open_blocks().last(),
            after.open_blocks().last(),
            inline,
            lines,
        )
    } else {
        &&& after.open_blocks() == before.open_blocks()
        &&& after.open_inlines().len() == before.open_inlines().len()
        &&& after.open_inlines().drop_last() == before.open_inlines().drop_last()
        &&& after.open_inlines().last().1 == before.open_inlines().last().1
        &&& child_appended(before.open_inlines().last().0, after.open_inlines().last().0, inline)
    }
}

/// Emitting the inlines one after the other.
pub open spec fn inlines_emitted(
    before: MarkdownEventsReader,
    after: MarkdownEventsReader,
    inlines: Seq<DocumentInline>,
    lines: LineRange,
) -> bool
    decreases inlines.len(),
{
    if inlines.len() == 0 {
        after == before
    } else {
        exists|mid: MarkdownEventsReader|
            inlines_emitted(before, mid, inlines.drop_last(), lines) && #[trigger] inline_emitted(
                mid,
                after,
                inlines.last(),
                lines,
            )
    }
}

/// Whether `after` is `before` with the hashtags `names` found after the others.
pub open spec fn tags_added(
    before: MarkdownEventsReader,
    after: MarkdownEventsReader,
    names: Seq<Seq<char>>,
) -> bool {
    let n = before.found_tags().len();
    &&& after.found_tags().len() == n + names.len()
    &&& after.found_tags().take(n as int) == before.found_tags()
    &&& forall|k: int| 0 <= k < names.len() ==> (#[trigger] after.found_tags()[n + k])@ == names[k]
    &&& after.open_inlines() == before.open_inlines()
    &&& after.open_blocks() == before.open_blocks()
    &&& after.read_blocks() == before.read_blocks()
    &&& after.task_marks() == before.task_marks()
    &&& after.starts() == before.starts()
    &&& after.in_metadata() == before.in_metadata()
    &&& after.metadata_text() == before.metadata_text()
}

/// The tag spans of a text: the spans of the names that [`HASHTAG_PATTERN`] finds.
pub open spec fn hashtag_spans(text: Seq<char>) -> Seq<(usize, usize)> {
    capture_spans(HASHTAG_PATTERN@, text, 1)
}

/// Whether a text goes verbatim into the innermost open block: code and raw blocks keep
/// their text as it is.
pub open spec fn takes_raw_text(r: MarkdownEventsReader) -> bool {
    r.open_blocks().len() > 0 && (r.open_blocks().last() is CodeBlock
        || r.open_blocks().last() is RawBlock)
}

/// What a text event does: inside a metadata block, the text becomes the metadata; a code
/// block takes it at the end of its text, a raw block takes it as its text; elsewhere the
/// text is cut into strings and hashtags, which are emitted one after the other on the
/// lines of the source bytes `start..end`, and the hashtags are recorded; each tag name is
/// a run of letters, digits, `_`, `-` and `/` after a `#` that opens the text or follows a
/// space or a tab.
pub open spec fn text_taken(
    before: MarkdownEventsReader,
    after: MarkdownEventsReader,
    text: String,
    start: int,
    end: int,
) -> bool {
    let top = before.open_blocks().last();
    let new_top = after.open_blocks().last();
    if before.in_metadata() {
        &&& after.metadata_text() == Some(text)
        &&& after.open_inlines() == before.open_inlines()
        &&& after.open_blocks() == before.open_blocks()
        &&& after.read_blocks() == before.read_blocks()
        &&& after.task_marks() == before.task_marks()
        &&& after.found_tags() == before.found_tags()
        &&& after.starts() == before.starts()
        &&& after.in_metadata()
    } else if takes_raw_text(before) && top is CodeBlock {
        &&& top_block_changed(before, after)
        &&& new_top matches DocumentBlock::CodeBlock(c) && c.line_range == top->CodeBlock_0.line_range
            && c.lang == top->CodeBlock_0.lang && c.text@ == top->CodeBlock_0.text@ + text@
    } else if takes_raw_text(before) {
        &&& top_block_changed(before, after)
        &&& new_top matches DocumentBlock::RawBlock(r) && r.line_range == top->RawBlock_0.line_range
            && r.format == top->RawBlock_0.format && r.text == text
    } else {
        let bytes = encode_utf8(text@);
        let spans = hashtag_spans(text@);
        let lines = lines_of_range(before.starts(), start, end);
        &&& cuttable(bytes, spans, 0)
        &&& tags_after_hashes(bytes, spans, 0)
        &&& tag_names_formed(bytes, spans)
        &&& exists|mid: MarkdownEventsReader, pieces: Seq<DocumentInline>|
            are_pieces(pieces, hashtag_pieces(bytes, spans, 0)) && #[trigger] inlines_emitted(
                before,
                mid,
                pieces,
                lines,
            ) && tags_added(mid, after, span_texts(bytes, spans))
    }
}

impl MarkdownEventsReader {
    /// Emits a complete inline; fails, changing nothing, when nothing can take it.
    fn emit_inline(&mut self, inline: DocumentInline, lines: LineRange) -> (ok: bool)
        ensures
            ok == can_emit(*old(self)),
            ok ==> inline_emitted(*old(self), *final(self), inline, lines),
            !ok ==> *final(self) == *old(self),
    {
        if self.inlines_stack.len() == 0 && self.blocks_stack.len() == 0 {
            return false;
        }
        let ghost before = *self;
        self.push_inline(inline, lines);
        let ghost mid = *self;
        assert(mid.open_inlines().drop_last() =~= before.open_inlines());
        let popped = self.pop_inline();
        assert(popped);
        true
    }

    /// Takes a text that covers the source bytes `start..end`; fails, changing nothing, when
    /// there is no block to take it.
    fn text(&mut self, text: &String, start: usize, end: usize) -> (ok: bool)
        ensures
            ok ==> text_taken(*old(self), *final(self), *text, start as int, end as int),
            !ok ==> *final(self) == *old(self),
            old(self).in_metadata() || takes_raw_text(*old(self)) ==> ok,
            ok <==> old(self).in_metadata() || old(self).open_blocks().len() > 0,
    {
        let ghost before = *self;
        if self.metadata_block {
            self.metadata = Some(text.clone());
            return true;
        }
        if self.blocks_stack.len() == 0 {
            return false;
        }
        let raw = match self.blocks_stack.last() {
            Some(DocumentBlock::CodeBlock(_)) => true,
            Some(DocumentBlock::RawBlock(_)) => true,
            _ => false,
        };
        if raw {
            let top = self.top_block();
            match top {
                DocumentBlock::CodeBlock(c) => c.text.append(text.as_str()),
                DocumentBlock::RawBlock(r) => r.text = text.clone(),
                _ => {},
            }
            assert(self.blocks_stack@.drop_last() =~= before.blocks_stack@.drop_last());
            return true;
        }
        let text_str = text.as_str();
        let spans = hashtag_capture_spans(text_str);
        proof {
            vstd::utf8::encode_utf8_valid_utf8(text@);
            lemma_hashes_cuttable(text_str.spec_bytes(), spans@, 0);
        }
        let (mut pieces, mut names) = match split_hashtags(text_str, &spans) {
            Some(split) => split,
            None => {
                return false;
            },
        };
        let lines = self.lines(start, end);
        let ghost all = pieces@;
        let ghost mut done: Seq<DocumentInline> = Seq::empty();
        assert(done + pieces@ =~= all);
        while pieces.len() > 0
            invariant
                inlines_emitted(before, *self, done, lines),
                done + pieces@ == all,
                can_emit(*self),
                self.found_tags() == before.found_tags(),
            decreases pieces@.len(),
        {
            let ghost prev = *self;
            let piece = pieces.remove(0);
            proof {
                assert(done.push(piece) + pieces@ =~= all);
                assert(done.push(piece).drop_last() =~= done);
            }
            let emitted = self.emit_inline(piece, lines);
            assert(emitted);
            assert(inline_emitted(prev, *self, done.push(piece).last(), lines));
            proof {
                done = done.push(piece);
            }
        }
        let ghost mid = *self;
        assert(done =~= all);
        self.hashtags.append(&mut names);
        assert(self.hashtags@.take(mid.hashtags@.len() as int) =~= mid.hashtags@);
        assert(tags_added(mid, *self, span_texts(encode_utf8(text@), spans@)));
        true
    }
}


/// What an event that covers the source bytes `start..end` does.
pub open spec fn event_taken(
    before: MarkdownEventsReader,
    after: MarkdownEventsReader,
    event: SpannedEvent,
) -> bool {
    let start = event.start as int;
    let end = event.end as int;
    let lines = lines_of_range(before.starts(), start, end);
    let range = InlineRange {
        start: position_of(before.starts(), start),
        end: position_of(before.starts(), end),
    };
    match event.event {
        MarkdownEvent::Start(tag) => started(before, after, tag, start, end),
        MarkdownEvent::End(tag) => ended(before, after, tag),
        MarkdownEvent::Text(text) => text_taken(before, after, text, start, end),
        MarkdownEvent::Code(text) => inline_emitted(
            before,
            after,
            DocumentInline::Code(Code { text, inline_range: range }),
            lines,
        ),
        MarkdownEvent::InlineMath(content) => inline_emitted(
            before,
            after,
            DocumentInline::Math(Math { content, inline_range: range }),
            lines,
        ),
        MarkdownEvent::InlineHtml(text) => inline_emitted(
            before,
            after,
            DocumentInline::Str(text),
            lines,
        ),
        MarkdownEvent::Rule => exists|mid: MarkdownEventsReader|
            #[trigger] block_opened(before, mid) && mid.open_blocks().last()
                == DocumentBlock::HorizontalRule(HorizontalRule { line_range: lines })
                && block_popped(mid, after),
        MarkdownEvent::TaskListMarker(checked) => {
            &&& after.task_marks() == before.task_marks().push(checked)
            &&& after.open_inlines() == before.open_inlines()
            &&& after.open_blocks() == before.open_blocks()
            &&& after.read_blocks() == before.read_blocks()
            &&& after.found_tags() == before.found_tags()
            &&& after.starts() == before.starts()
            &&& after.in_metadata() == before.in_metadata()
            &&& after.metadata_text() == before.metadata_text()
        },
        _ => after == before,
    }
}

/// Whether an event fails: an end, a start or an inline with nothing to act on, a task
/// marker outside any block, or a text with no block to take it.
pub open spec fn event_may_fail(r: MarkdownEventsReader, event: SpannedEvent) -> bool {
    match event.event {
        MarkdownEvent::Start(tag) => !can_start(r, tag),
        MarkdownEvent::End(tag) => !can_end(r, tag),
        MarkdownEvent::Text(_) => !r.in_metadata() && r.open_blocks().len() == 0,
        MarkdownEvent::Code(_) | MarkdownEvent::InlineMath(_) | MarkdownEvent::InlineHtml(_) => !can_emit(r),
        MarkdownEvent::TaskListMarker(_) => r.open_blocks().len() == 0,
        _ => false,
    }
}

/// Taking the events one after the other.
pub open spec fn events_taken(
    before: MarkdownEventsReader,
    after: MarkdownEventsReader,
    events: Seq<SpannedEvent>,
) -> bool
    decreases events.len(),
{
    if events.len() == 0 {
        after == before
    } else {
        exists|mid: MarkdownEventsReader|
            events_taken(before, mid, events.drop_last()) && #[trigger] event_taken(
                mid,
                after,
                events.last(),
            )
    }
}

/// Whether `after` keeps the blocks read and the hashtags found by `before`, in order, at
/// their start.
pub open spec fn only_appends(before: MarkdownEventsReader, after: MarkdownEventsReader) -> bool {
    &&& before.read_blocks().len() <= after.read_blocks().len()
    &&& after.read_blocks().take(before.read_blocks().len() as int) == before.read_blocks()
    &&& before.found_tags().len() <= after.found_tags().len()
    &&& after.found_tags().take(before.found_tags().len() as int) == before.found_tags()
}

proof fn lemma_appends_trans(a: MarkdownEventsReader, b: MarkdownEventsReader, c: MarkdownEventsReader)
    requires
        only_appends(a, b),
        only_appends(b, c),
    ensures
        only_appends(a, c),
{
    let n = a.read_blocks().len() as int;
    let m = a.found_tags().len() as int;
    assert(c.read_blocks().take(n) =~= c.read_blocks().take(b.read_blocks().len() as int).take(n));
    assert(c.found_tags().take(m) =~= c.found_tags().take(b.found_tags().len() as int).take(m));
}

proof fn lemma_same_appends(a: MarkdownEventsReader, b: MarkdownEventsReader)
    requires
        b.read_blocks() == a.read_blocks(),
        b.found_tags() == a.found_tags(),
    ensures
        only_appends(a, b),
{
    assert(b.read_blocks().take(a.read_blocks().len() as int) =~= a.read_blocks());
    assert(b.found_tags().take(a.found_tags().len() as int) =~= a.found_tags());
}

proof fn lemma_emitted_keeps(
    before: MarkdownEventsReader,
    after: MarkdownEventsReader,
    inlines: Seq<DocumentInline>,
    lines: LineRange,
)
    requires
        inlines_emitted(before, after, inlines, lines),
    ensures
        after.read_blocks() == before.read_blocks(),
        after.found_tags() == before.found_tags(),
    decreases inlines.len(),
{
    if inlines.len() > 0 {
        let mid = choose|mid: MarkdownEventsReader|
            inlines_emitted(before, mid, inlines.drop_last(), lines) && #[trigger] inline_emitted(
                mid,
                after,
                inlines.last(),
                lines,
            );
        lemma_emitted_keeps(before, mid, inlines.drop_last(), lines);
    }
}

/// An event only adds blocks and hashtags after those already there.
pub proof fn lemma_event_appends(
    before: MarkdownEventsReader,
    after: MarkdownEventsReader,
    event: SpannedEvent,
)
    requires
        event_taken(before, after, event),
    ensures
        only_appends(before, after),
{
    match event.event {
        MarkdownEvent::Text(text) => {
            if !before.in_metadata() && !takes_raw_text(before) {
                let bytes = encode_utf8(text@);
                let spans = hashtag_spans(text@);
                let lines = lines_of_range(before.starts(), event.start as int, event.end as int);
                let (mid, pieces) = choose|mid: MarkdownEventsReader, pieces: Seq<DocumentInline>|
                    are_pieces(pieces, hashtag_pieces(bytes, spans, 0)) && #[trigger] inlines_emitted(
                        before,
                        mid,
                        pieces,
                        lines,
                    ) && tags_added(mid, after, span_texts(bytes, spans));
                lemma_emitted_keeps(before, mid, pieces, lines);
                assert(after.read_blocks().take(before.read_blocks().len() as int)
                    =~= before.read_blocks());
            } else {
                lemma_same_appends(before, after);
            }
        },
        MarkdownEvent::Rule => {
            let mid = choose|mid: MarkdownEventsReader|
                #[trigger] block_opened(before, mid) && mid.open_blocks().last()
                    == DocumentBlock::HorizontalRule(
                    HorizontalRule {
                        line_range: lines_of_range(
                            before.starts(),
                            event.start as int,
                            event.end as int,
                        ),
                    },
                ) && block_popped(mid, after);
            assert(after.read_blocks().take(before.read_blocks().len() as int)
                =~= before.read_blocks());
            lemma_same_appends(before, before);
        },
        MarkdownEvent::End(tag) => {
            assert(after.read_blocks().take(before.read_blocks().len() as int)
                =~= before.read_blocks());
            lemma_same_appends(before, before);
        },
        _ => {
            lemma_same_appends(before, before);
        },
    }
    assert(after.found_tags().take(before.found_tags().len() as int) =~= before.found_tags());
    assert(after.read_blocks().take(before.read_blocks().len() as int) =~= before.read_blocks());
}

/// Reading events only adds blocks and hashtags: those read and found before stay, in
/// order, at the start.
pub proof fn law_events_only_append(
    before: MarkdownEventsReader,
    after: MarkdownEventsReader,
    events: Seq<SpannedEvent>,
)
    requires
        events_taken(before, after, events),
    ensures
        only_appends(before, after),
    decreases events.len(),
{
    if events.len() == 0 {
        lemma_same_appends(before, after);
    } else {
        let mid = choose|mid: MarkdownEventsReader|
            events_taken(before, mid, events.drop_last()) && #[trigger] event_taken(
                mid,
                after,
                events.last(),
            );
        law_events_only_append(before, mid, events.drop_last());
        lemma_event_appends(mid, after, events.last());
        lemma_appends_trans(before, mid, after);
    }
}

/// What reading the events of the parse of a source with bytes `content` does: the line
/// starts of the source are taken first, then the events one after the other; on success
/// all of them are taken, on failure those before the first event that cannot be taken, and
/// the reader stays as they left it.
pub open spec fn events_read(
    before: MarkdownEventsReader,
    after: MarkdownEventsReader,
    content: Seq<u8>,
    events: Seq<SpannedEvent>,
    ok: bool,
) -> bool {
    exists|first: MarkdownEventsReader|
        {
            &&& #[trigger] first.starts().len() == text_line_starts(content).len()
            &&& forall|k: int|
                0 <= k < first.starts().len() ==> first.starts()[k] as int
                    == #[trigger] text_line_starts(content)[k]
            &&& first.open_inlines() == before.open_inlines()
            &&& first.open_blocks() == before.open_blocks()
            &&& first.read_blocks() == before.read_blocks()
            &&& first.task_marks() == before.task_marks()
            &&& first.found_tags() == before.found_tags()
            &&& first.in_metadata() == before.in_metadata()
            &&& first.metadata_text() == before.metadata_text()
            &&& ok ==> events_taken(first, after, events)
            &&& !ok ==> exists|k: int|
                0 <= k < events.len() && events_taken(first, after, events.take(k))
                    && #[trigger] event_may_fail(after, events[k])
        }
}

impl MarkdownEventsReader {
    /// Takes one event; fails, changing nothing, when the event cannot be taken.
    pub fn handle_event(&mut self, event: &SpannedEvent) -> (ok: bool)
        ensures
            ok ==> event_taken(*old(self), *final(self), *event),
            !ok ==> *final(self) == *old(self) && event_may_fail(*old(self), *event),
            !event_may_fail(*old(self), *event) ==> ok,
    {
        let start = event.start;
        let end = event.end;
        match &event.event {
            MarkdownEvent::Start(tag) => self.start_tag(tag, start, end),
            MarkdownEvent::End(tag) => self.end_tag(*tag),
            MarkdownEvent::Text(text) => self.text(text, start, end),
            MarkdownEvent::Code(text) => {
                let inline_range = self.positions(start, end);
                let lines = self.lines(start, end);
                self.emit_inline(DocumentInline::Code(Code { text: text.clone(), inline_range }), lines)
            },
            MarkdownEvent::InlineMath(content) => {
                let inline_range = self.positions(start, end);
                let lines = self.lines(start, end);
                self.emit_inline(
                    DocumentInline::Math(Math { content: content.clone(), inline_range }),
                    lines,
                )
            },
            MarkdownEvent::InlineHtml(text) => {
                let lines = self.lines(start, end);
                self.emit_inline(DocumentInline::Str(text.clone()), lines)
            },
            MarkdownEvent::Rule => {
                let line_range = self.lines(start, end);
                let ghost before = *self;
                self.push_block(DocumentBlock::HorizontalRule(HorizontalRule { line_range }));
                let ghost mid = *self;
                assert(mid.open_blocks().drop_last() =~= before.open_blocks());
                let popped = self.pop_block();
                assert(popped);
                assert(block_opened(before, mid));
                true
            },
            MarkdownEvent::TaskListMarker(checked) => {
                if self.blocks_stack.len() == 0 {
                    return false;
                }
                self.taskslists.push(*checked);
                true
            },
            _ => true,
        }
    }

    /// Reads the parse of `content`: its events, each with the byte range of `content` that
    /// it covers. The line starts of `content` are taken first, then the events one after
    /// the other; fails at the first event that cannot be taken.
    pub fn read_events(&mut self, content: &str, events: &Vec<SpannedEvent>) -> (ok: bool)
        requires
            content.spec_bytes().len() < usize::MAX,
        ensures
            events_read(*old(self), *final(self), content.spec_bytes(), events@, ok),
            only_appends(*old(self), *final(self)),
    {
        self.line_starts = crate::markdown::lines::line_starts(content);
        let ghost first = *self;
        assert(first.starts().len() == text_line_starts(content.spec_bytes()).len());
        let mut i: usize = 0;
        assert(events@.take(0) =~= Seq::<SpannedEvent>::empty());
        while i < events.len()
            invariant
                i <= events@.len(),
                events_taken(first, *self, events@.take(i as int)),
                first.starts().len() == text_line_starts(content.spec_bytes()).len(),
                forall|k: int|
                    0 <= k < first.starts().len() ==> first.starts()[k] as int
                        == #[trigger] text_line_starts(content.spec_bytes())[k],
                first.open_inlines() == old(self).open_inlines(),
                first.open_blocks() == old(self).open_blocks(),
                first.read_blocks() == old(self).read_blocks(),
                first.task_marks() == old(self).task_marks(),
                first.found_tags() == old(self).found_tags(),
                first.in_metadata() == old(self).in_metadata(),
                first.metadata_text() == old(self).metadata_text(),
            decreases events@.len() - i,
        {
            let ghost prev = *self;
            let ok = self.handle_event(&events[i]);
            if !ok {
                assert(events_taken(first, prev, events@.take(i as int)));
                assert(event_may_fail(prev, events@[i as int]));
                proof {
                    law_events_only_append(first, *self, events@.take(i as int));
                }
                return false;
            }
            proof {
                assert(events@.take(i + 1).drop_last() =~= events@.take(i as int));
                assert(events@.take(i + 1).last() == events@[i as int]);
                assert(event_taken(prev, *self, events@.take(i + 1).last()));
            }
            i = i + 1;
        }
        assert(events@.take(events@.len() as int) =~= events@);
        proof {
            law_events_only_append(first, *self, events@);
        }
        true
    }

    /// Reads a document from the events of its parse (as `read_events` does) and gives a copy
    /// of all the blocks read so far; nothing when an event cannot be taken.
    pub fn read(&mut self, content: &str, events: &Vec<SpannedEvent>) -> (r: Option<Vec<DocumentBlock>>)
        requires
            content.spec_bytes().len() < usize::MAX,
        ensures
            events_read(*old(self), *final(self), content.spec_bytes(), events@, r is Some),
            only_appends(*old(self), *final(self)),
            r matches Some(blocks) ==> same_blocks(final(self).read_blocks(), blocks@),
    {
        if self.read_events(content, events) {
            Some(self.blocks())
        } else {
            None
        }
    }
}


/// Emitting inlines while a paragraph is the innermost open element, and no inline is open,
/// adds them at the end of the paragraph.
proof fn lemma_emitted_into_para(
    before: MarkdownEventsReader,
    after: MarkdownEventsReader,
    inlines: Seq<DocumentInline>,
    lines: LineRange,
)
    requires
        inlines_emitted(before, after, inlines, lines),
        before.open_inlines().len() == 0,
        before.open_blocks().len() > 0,
        before.open_blocks().last() is Para,
    ensures
        after.open_inlines().len() == 0,
        after.open_blocks().len() == before.open_blocks().len(),
        after.open_blocks().last() matches DocumentBlock::Para(q) && q.inlines@
            == before.open_blocks().last()->Para_0.inlines@ + inlines,
    decreases inlines.len(),
{
    let p = before.open_blocks().last()->Para_0;
    if inlines.len() == 0 {
        assert(p.inlines@ + inlines =~= p.inlines@);
    } else {
        let mid = choose|mid: MarkdownEventsReader|
            inlines_emitted(before, mid, inlines.drop_last(), lines) && #[trigger] inline_emitted(
                mid,
                after,
                inlines.last(),
                lines,
            );
        lemma_emitted_into_para(before, mid, inlines.drop_last(), lines);
        assert(p.inlines@ + inlines =~= (p.inlines@ + inlines.drop_last()).push(inlines.last()));
    }
}

/// Reading a text into a paragraph keeps every character of it: the text of the paragraph
/// grows by exactly the text read.
pub proof fn law_text_read_into_paragraph(
    before: MarkdownEventsReader,
    after: MarkdownEventsReader,
    text: String,
    start: int,
    end: int,
)
    requires
        text_taken(before, after, text, start, end),
        !before.in_metadata(),
        before.open_inlines().len() == 0,
        before.open_blocks().len() > 0,
        before.open_blocks().last() is Para,
    ensures
        after.open_blocks().last() matches DocumentBlock::Para(q) && doc_inlines_text(q.inlines@)
            == doc_inlines_text(before.open_blocks().last()->Para_0.inlines@) + text@,
{
    let bytes = encode_utf8(text@);
    let spans = hashtag_spans(text@);
    let lines = lines_of_range(before.starts(), start, end);
    let p = before.open_blocks().last()->Para_0;
    let (mid, pieces) = choose|mid: MarkdownEventsReader, pieces: Seq<DocumentInline>|
        are_pieces(pieces, hashtag_pieces(bytes, spans, 0)) && #[trigger] inlines_emitted(
            before,
            mid,
            pieces,
            lines,
        ) && tags_added(mid, after, span_texts(bytes, spans));
    lemma_emitted_into_para(before, mid, pieces, lines);
    lemma_doc_inlines_text_concat(p.inlines@, pieces);
    lemma_pieces_text(pieces, hashtag_pieces(bytes, spans, 0));
    vstd::utf8::encode_utf8_valid_utf8(text@);
    vstd::utf8::is_char_boundary_start_end_of_seq(bytes);
    vstd::utf8::encode_utf8_decode_utf8(text@);
    assert(is_char_boundary(bytes, 0));
    law_hashtag_pieces_spell_text(bytes, spans, 0);
    assert(bytes.subrange(0, bytes.len() as int) =~= bytes);
    assert(byte_text(bytes, 0, bytes.len() as int) == text@);
}

/// Reading a text outside metadata, code and raw blocks loses nothing and adds nothing: the
/// strings and tags that go, one after the other, into the innermost open element spell the
/// text (each tag with its `#`), no string is empty, and the tag names are recorded in the
/// same order.
pub proof fn law_text_pieces_spell_text(
    before: MarkdownEventsReader,
    after: MarkdownEventsReader,
    text: String,
    start: int,
    end: int,
)
    requires
        text_taken(before, after, text, start, end),
        !before.in_metadata(),
        !takes_raw_text(before),
    ensures
        exists|mid: MarkdownEventsReader, pieces: Seq<DocumentInline>|
            {
                &&& #[trigger] inlines_emitted(
                    before,
                    mid,
                    pieces,
                    lines_of_range(before.starts(), start, end),
                )
                &&& doc_inlines_text(pieces) == text@
                &&& forall|k: int|
                    0 <= k < pieces.len() && (#[trigger] pieces[k]) is Str ==> pieces[k]->Str_0@.len()
                        > 0
                &&& tags_added(mid, after, span_texts(encode_utf8(text@), hashtag_spans(text@)))
            },
{
    let bytes = encode_utf8(text@);
    let spans = hashtag_spans(text@);
    let lines = lines_of_range(before.starts(), start, end);
    let (mid, pieces) = choose|mid: MarkdownEventsReader, pieces: Seq<DocumentInline>|
        are_pieces(pieces, hashtag_pieces(bytes, spans, 0)) && #[trigger] inlines_emitted(
            before,
            mid,
            pieces,
            lines,
        ) && tags_added(mid, after, span_texts(bytes, spans));
    lemma_pieces_text(pieces, hashtag_pieces(bytes, spans, 0));
    vstd::utf8::encode_utf8_valid_utf8(text@);
    vstd::utf8::is_char_boundary_start_end_of_seq(bytes);
    vstd::utf8::encode_utf8_decode_utf8(text@);
    assert(is_char_boundary(bytes, 0));
    law_hashtag_pieces_spell_text(bytes, spans, 0);
    law_hashtag_strings_not_empty(bytes, spans, 0);
    assert(bytes.subrange(0, bytes.len() as int) =~= bytes);
    assert(byte_text(bytes, 0, bytes.len() as int) == text@);
    assert forall|k: int| 0 <= k < pieces.len() && (#[trigger] pieces[k]) is Str implies pieces[k]->Str_0@.len()
        > 0 by {
        assert(is_piece(pieces[k], hashtag_pieces(bytes, spans, 0)[k]));
    }
}

} // verus!
