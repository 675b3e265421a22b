use vstd::prelude::*;

use crate::model::Key;

verus! {

/// How a link to another document was written.
#[derive(Clone, Copy, Debug, PartialEq, Eq, Structural)]
pub enum LinkType {
    Regular,
    WikiLink,
    WikiLinkPiped,
}

/// A piece of inline content stored in a graph line.
#[derive(Clone, Debug, PartialEq)]
pub enum GraphInline {
    Str(String),
    Code(String),
    Tag(String),
    Link(String, String),
    Reference(Key, String, LinkType),
}

/// The mathematical value of a [`GraphInline`].
pub enum InlineView {
    Str(Seq<char>),
    Code(Seq<char>),
    Tag(Seq<char>),
    Link(Seq<char>, Seq<char>),
    Reference(Seq<char>, Seq<char>, LinkType),
}

/// A line of inline content.
pub type GraphInlines = Vec<GraphInline>;

impl View for GraphInline {
    type V = InlineView;

    open spec fn view(&self) -> InlineView {
        match self {
            GraphInline::Str(s) => InlineView::Str(s@),
            GraphInline::Code(s) => InlineView::Code(s@),
            GraphInline::Tag(s) => InlineView::Tag(s@),
            GraphInline::Link(url, text) => InlineView::Link(url@, text@),
            GraphInline::Reference(key, text, t) => InlineView::Reference(key@, text@, *t),
        }
    }
}

/// The values of a line of inlines.
pub open spec fn inlines_view(line: Seq<GraphInline>) -> Seq<InlineView> {
    line.map_values(|i: GraphInline| i@)
}

/// The values of a sequence of lines.
pub open spec fn lines_view(lines: Seq<Vec<GraphInline>>) -> Seq<Seq<InlineView>> {
    lines.map_values(|l: Vec<GraphInline>| inlines_view(l@))
}

/// The plain text of one inline: its text without markup; a tag keeps its `#`.
pub open spec fn inline_text(i: InlineView) -> Seq<char> {
    match i {
        InlineView::Str(s) => s,
        InlineView::Code(s) => s,
        InlineView::Tag(t) => seq!['#'] + t,
        InlineView::Link(_, text) => text,
        InlineView::Reference(_, text, _) => text,
    }
}

/// The plain text of a line: the plain texts of its inlines, one after another.
pub open spec fn inlines_text(line: Seq<InlineView>) -> Seq<char>
    decreases line.len(),
{
    if line.len() == 0 {
        Seq::empty()
    } else {
        inlines_text(line.drop_last()) + inline_text(line.last())
    }
}

/// The keys that the references of a line point to, in order.
pub open spec fn inlines_ref_keys(line: Seq<InlineView>) -> Seq<Seq<char>>
    decreases line.len(),
{
    if line.len() == 0 {
        Seq::empty()
    } else {
        let rest = inlines_ref_keys(line.drop_last());
        match line.last() {
            InlineView::Reference(key, _, _) => rest.push(key),
            _ => rest,
        }
    }
}

impl GraphInline {
    /// A copy of the inline with the same value.
    pub fn duplicate(&self) -> (r: GraphInline)
        ensures
            r@ == self@,
    {
        match self {
            GraphInline::Str(s) => GraphInline::Str(s.clone()),
            GraphInline::Code(s) => GraphInline::Code(s.clone()),
            GraphInline::Tag(s) => GraphInline::Tag(s.clone()),
            GraphInline::Link(url, text) => GraphInline::Link(url.clone(), text.clone()),
            GraphInline::Reference(key, text, t) => GraphInline::Reference(
                key.copy(),
                text.clone(),
                *t,
            ),
        }
    }

    /// The plain text of the inline.
    pub fn plain_text(&self) -> (r: String)
        ensures
            r@ == inline_text(self@),
    {
        match self {
            GraphInline::Str(s) => s.clone(),
            GraphInline::Code(s) => s.clone(),
            GraphInline::Tag(t) => {
                let mut r = String::from_str("#");
                proof {
                    reveal_strlit("#");
                }
                r.append(t.as_str());
                r
            },
            GraphInline::Link(_, text) => text.clone(),
            GraphInline::Reference(_, text, _) => text.clone(),
        }
    }
}

/// A copy of a line with the same values.
pub fn duplicate_inlines(line: &Vec<GraphInline>) -> (r: Vec<GraphInline>)
    ensures
        inlines_view(r@) == inlines_view(line@),
{
    let mut r: Vec<GraphInline> = Vec::new();
    let mut i: usize = 0;
    while i < line.len()
        invariant
            i <= line.len(),
            r@.len() == i,
            inlines_view(r@) == inlines_view(line@.take(i as int)),
        decreases line.len() - i,
    {
        let ghost before = r@;
        r.push(line[i].duplicate());
        proof {
            assert(r@.len() == i + 1);
            assert(r@[i as int]@ == line@[i as int]@);
            assert(inlines_view(r@).len() == i + 1);
            assert(inlines_view(line@.take(i + 1)).len() == i + 1);
            assert(inlines_view(r@)[i as int] == r@[i as int]@);
            assert forall|j: int| 0 <= j < i + 1 implies inlines_view(r@)[j] == inlines_view(
                line@.take(i + 1),
            )[j] by {
                if j < i {
                    assert(r@[j] == before[j]);
                    assert(inlines_view(before)[j] == inlines_view(line@.take(i as int))[j]);
                }
            }
            assert(inlines_view(r@) =~= inlines_view(line@.take(i + 1)));
        }
        i = i + 1;
    }
    assert(line@.take(line.len() as int) == line@);
    r
}

/// The plain text of a line.
pub fn line_plain_text(line: &Vec<GraphInline>) -> (r: String)
    ensures
        r@ == inlines_text(inlines_view(line@)),
{
    let mut r = String::new();
    let mut i: usize = 0;
    while i < line.len()
        invariant
            i <= line.len(),
            r@ == inlines_text(inlines_view(line@.take(i as int))),
        decreases line.len() - i,
    {
        let t = line[i].plain_text();
        r.append(t.as_str());
        proof {
            let s = inlines_view(line@.take(i + 1));
            assert(s.drop_last() == inlines_view(line@.take(i as int)));
            assert(s.last() == line@[i as int]@);
        }
        i = i + 1;
    }
    assert(line@.take(line.len() as int) == line@);
    r
}

/// The keys that the references of a line point to, in order.
pub fn line_ref_keys(line: &Vec<GraphInline>) -> (r: Vec<Key>)
    ensures
        r@.map_values(|k: Key| k@) == inlines_ref_keys(inlines_view(line@)),
{
    let mut r: Vec<Key> = Vec::new();
    let mut i: usize = 0;
    while i < line.len()
        invariant
            i <= line.len(),
            r@.map_values(|k: Key| k@) == inlines_ref_keys(inlines_view(line@.take(i as int))),
        decreases line.len() - i,
    {
        let ghost before = r@;
        match &line[i] {
            GraphInline::Reference(key, _, _) => {
                r.push(key.copy());
                assert(r@ == before.push(r@.last()));
            },
            _ => {},
        }
        proof {
            let s = inlines_view(line@.take(i + 1));
            assert(s.drop_last() == inlines_view(line@.take(i as int)));
            assert(s.last() == line@[i as int]@);
            assert(r@.map_values(|k: Key| k@) == inlines_ref_keys(s));
        }
        i = i + 1;
    }
    assert(line@.take(line.len() as int) == line@);
    r
}

} // verus!
