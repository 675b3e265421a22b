use vstd::prelude::*;

use regex::Regex;

use crate::model::document::{doc_inline_text, doc_inlines_text, DocumentInline};
use crate::model::inline::InlineView;
use vstd::string::StringSliceAdditionalSpecFns;
use vstd::utf8::{
    decode_first_scalar, decode_utf8, encode_utf8, is_char_boundary, pop_first_scalar, valid_utf8,
};

verus! {

broadcast use vstd::utf8::group_utf8_lib;

/// What a hashtag looks like: a `#` at the start of the text or after a space or tab,
/// followed by letters, digits, `_`, `-` or `/`. The first group is the tag's name.
pub const HASHTAG_PATTERN: &'static str = r"(?:^|[\t ])#([a-zA-Z0-9_\-/]+)";

/// The byte spans that the capture group `group` of the regular expression `pattern`
/// takes in the successive non-overlapping matches in `text`, for each match in which
/// the group takes part.
pub uninterp spec fn capture_spans(pattern: Seq<char>, text: Seq<char>, group: usize) -> Seq<
    (usize, usize),
>;

/// A byte that a tag name may hold: an ASCII letter or digit, `_`, `-` or `/`.
pub open spec fn is_tag_byte(c: u8) -> bool {
    (48 <= c <= 57) || (65 <= c <= 90) || (97 <= c <= 122) || c == 95 || c == 45 || c == 47
}

/// Each span is a tag name as [`HASHTAG_PATTERN`] takes it: one or more name bytes, running
/// as far as they go, just after a `#` that opens the text or follows a space or a tab.
pub open spec fn tag_names_formed(b: Seq<u8>, spans: Seq<(usize, usize)>) -> bool {
    forall|k: int|
        #![trigger spans[k]]
        0 <= k < spans.len() ==> {
            let s = spans[k].0 as int;
            let e = spans[k].1 as int;
            &&& 2 <= s + 1 && s < e <= b.len()
            &&& b[s - 1] == 35
            &&& (s == 1 || b[s - 2] == 32 || b[s - 2] == 9)
            &&& forall|i: int| s <= i < e ==> is_tag_byte(#[trigger] b[i])
            &&& (e == b.len() || !is_tag_byte(b[e]))
        }
}

/// The spans of the hashtag names in `text`: compiles [`HASHTAG_PATTERN`] with
/// `regex::Regex::new` (the pattern is valid, so this cannot fail) and collects, over the
/// matches that `regex::Regex::captures_iter` yields in `text`, the start and end
/// (`regex::Match::start`, `regex::Match::end`) of the first capture group. The regex
/// documentation promises that the matches are successive and do not overlap, and that a
/// match starts no later than it ends, both offsets on character boundaries of `text`; as
/// the pattern puts a `#` just before the group and the group after the end of the previous
/// match, each name starts after the previous one ends, just after a `#` byte; and as the
/// pattern reads, the `#` opens the text or follows a space or a tab, and the name is the
/// longest run of letters, digits, `_`, `-` and `/` after it.
#[verifier::external_body]
pub(crate) fn hashtag_capture_spans(text: &str) -> (r: Vec<(usize, usize)>)
    ensures
        r@ == capture_spans(HASHTAG_PATTERN@, text@, 1),
        tags_after_hashes(text.spec_bytes(), r@, 0),
        tag_names_formed(text.spec_bytes(), r@),
{
    let re = Regex::new(HASHTAG_PATTERN).expect("the hashtag pattern is valid");
    re.captures_iter(text).filter_map(|c| c.get(1)).map(|m| (m.start(), m.end())).collect()
}

/// The text that the bytes `a..c` of `b` encode.
pub open spec fn byte_text(b: Seq<u8>, a: int, c: int) -> Seq<char> {
    decode_utf8(b.subrange(a, c))
}

/// Whether the pieces of a text can be cut at the given tag spans, from byte `pos` on: each
/// span runs forwards inside the text between character boundaries, and when text comes
/// before a tag, the byte just before the tag starts a character too.
pub open spec fn cuttable(b: Seq<u8>, spans: Seq<(usize, usize)>, pos: int) -> bool
    decreases spans.len(),
{
    if spans.len() == 0 {
        true
    } else {
        let s = spans[0].0 as int;
        let e = spans[0].1 as int;
        &&& s <= e <= b.len()
        &&& is_char_boundary(b, s)
        &&& is_char_boundary(b, e)
        &&& s > pos + 1 ==> is_char_boundary(b, s - 1)
        &&& cuttable(b, spans.drop_first(), e)
    }
}

/// The pieces of a text from byte `pos` on, cut at the tag spans: for each span, the text
/// before it up to the character just before the tag (when there is some), then the tag;
/// at the end, the rest of the text (when there is some).
pub open spec fn hashtag_pieces(b: Seq<u8>, spans: Seq<(usize, usize)>, pos: int) -> Seq<
    InlineView,
>
    decreases spans.len(),
{
    if spans.len() == 0 {
        if pos < b.len() {
            seq![InlineView::Str(byte_text(b, pos, b.len() as int))]
        } else {
            Seq::empty()
        }
    } else {
        let s = spans[0].0 as int;
        let e = spans[0].1 as int;
        let before = if s > pos + 1 {
            seq![InlineView::Str(byte_text(b, pos, s - 1))]
        } else {
            Seq::<InlineView>::empty()
        };
        before + seq![InlineView::Tag(byte_text(b, s, e))] + hashtag_pieces(
            b,
            spans.drop_first(),
            e,
        )
    }
}

/// The names of the tags at the given spans.
pub open spec fn span_texts(b: Seq<u8>, spans: Seq<(usize, usize)>) -> Seq<Seq<char>> {
    spans.map_values(|sp: (usize, usize)| byte_text(b, sp.0 as int, sp.1 as int))
}

/// Whether a document inline is the string or tag piece `v`.
pub open spec fn is_piece(i: DocumentInline, v: InlineView) -> bool {
    match (i, v) {
        (DocumentInline::Str(s), InlineView::Str(t)) => s@ == t,
        (DocumentInline::Tag(s), InlineView::Tag(t)) => s@ == t,
        _ => false,
    }
}

pub open spec fn are_pieces(r: Seq<DocumentInline>, v: Seq<InlineView>) -> bool {
    r.len() == v.len() && forall|k: int| 0 <= k < r.len() ==> is_piece(#[trigger] r[k], v[k])
}

proof fn lemma_sub_boundary(b: Seq<u8>, x: int, z: int, i: int)
    requires
        valid_utf8(b),
        0 <= x <= i <= z <= b.len(),
        is_char_boundary(b, x),
        is_char_boundary(b, z),
        is_char_boundary(b, i),
    ensures
        valid_utf8(b.subrange(x, z)),
        is_char_boundary(b.subrange(x, z), i - x),
{
    let p = b.subrange(0, z);
    assert(valid_utf8(p));
    if x < z {
        assert(p[x] == b[x]);
        vstd::utf8::is_char_boundary_iff_not_is_continuation_byte(b, x);
        vstd::utf8::is_char_boundary_iff_not_is_continuation_byte(p, x);
        assert(is_char_boundary(p, x));
    } else {
        assert(is_char_boundary(p, p.len() as int));
    }
    assert(valid_utf8(p.subrange(x, z as int)));
    assert(p.subrange(x, z) =~= b.subrange(x, z));
    let c = b.subrange(x, z);
    if i < z {
        assert(c[i - x] == b[i]);
        vstd::utf8::is_char_boundary_iff_not_is_continuation_byte(b, i);
        vstd::utf8::is_char_boundary_iff_not_is_continuation_byte(c, i - x);
        assert(is_char_boundary(c, i - x));
    } else {
        assert(is_char_boundary(c, c.len() as int));
    }
}

/// The texts of the bytes `x..y` and `y..z` together are the text of `x..z`.
proof fn lemma_byte_text_concat(b: Seq<u8>, x: int, y: int, z: int)
    requires
        valid_utf8(b),
        0 <= x <= y <= z <= b.len(),
        is_char_boundary(b, x),
        is_char_boundary(b, y),
        is_char_boundary(b, z),
    ensures
        byte_text(b, x, y) + byte_text(b, y, z) == byte_text(b, x, z),
{
    lemma_sub_boundary(b, x, z, y);
    let c = b.subrange(x, z);
    assert(decode_utf8(c) =~= decode_utf8(c.subrange(0, y - x)) + decode_utf8(
        c.subrange(y - x, c.len() as int),
    ));
    assert(c.subrange(0, y - x) =~= b.subrange(x, y));
    assert(c.subrange(y - x, c.len() as int) =~= b.subrange(y, z));
}

/// The bytes `a..c` of `text` as a string.
fn byte_slice(text: &str, a: usize, c: usize) -> (r: String)
    requires
        a <= c <= text.spec_bytes().len(),
        is_char_boundary(text.spec_bytes(), a as int),
        is_char_boundary(text.spec_bytes(), c as int),
    ensures
        r@ == byte_text(text.spec_bytes(), a as int, c as int),
{
    let ghost b = text.spec_bytes();
    proof {
        lemma_sub_boundary(b, 0, c as int, a as int);
    }
    let (left, _) = text.split_at(c);
    assert(left.spec_bytes() =~= b.subrange(0, c as int));
    let (_, mid) = left.split_at(a);
    assert(mid.spec_bytes() =~= b.subrange(a as int, c as int));
    assert(decode_utf8(encode_utf8(mid@)) == mid@);
    mid.to_owned()
}

/// Cuts `text` into strings and tags at the given tag spans: for each span, the text from
/// the end of the previous tag up to the character just before this tag (when there is
/// some) and the tag; then the rest of the text. Gives nothing when a span cannot be cut.
pub fn split_hashtags(text: &str, spans: &Vec<(usize, usize)>) -> (r: Option<
    (Vec<DocumentInline>, Vec<String>),
>)
    ensures
        r is Some <==> cuttable(text.spec_bytes(), spans@, 0),
        r matches Some(v) ==> {
            &&& are_pieces(v.0@, hashtag_pieces(text.spec_bytes(), spans@, 0))
            &&& v.1@.len() == spans@.len()
            &&& forall|k: int|
                0 <= k < spans@.len() ==> (#[trigger] v.1@[k])@ == span_texts(
                    text.spec_bytes(),
                    spans@,
                )[k]
            &&& tags_after_hashes(text.spec_bytes(), spans@, 0) ==> doc_inlines_text(v.0@)
                == text@
        },
{
    let ghost b = text.spec_bytes();
    let n = text.as_bytes().len();
    let mut r: Vec<DocumentInline> = Vec::new();
    let mut names: Vec<String> = Vec::new();
    let mut pos: usize = 0;
    let mut i: usize = 0;
    let ghost mut done: Seq<InlineView> = Seq::empty();
    assert(spans@.skip(0) =~= spans@);
    assert(done + hashtag_pieces(b, spans@, 0) =~= hashtag_pieces(b, spans@, 0));
    while i < spans.len()
        invariant
            b == text.spec_bytes(),
            n == b.len(),
            i <= spans@.len(),
            pos <= n,
            is_char_boundary(b, pos as int),
            cuttable(b, spans@, 0) == cuttable(b, spans@.skip(i as int), pos as int),
            are_pieces(r@, done),
            names@.len() == i,
            forall|k: int|
                0 <= k < i ==> (#[trigger] names@[k])@ == span_texts(b, spans@)[k],
            hashtag_pieces(b, spans@, 0) == done + hashtag_pieces(
                b,
                spans@.skip(i as int),
                pos as int,
            ),
        decreases spans@.len() - i,
    {
        let (s, e) = spans[i];
        let ghost rest = spans@.skip(i as int);
        assert(rest[0] == spans@[i as int]);
        assert(rest.drop_first() =~= spans@.skip(i + 1));
        if !(s <= e && e <= n && text.is_char_boundary(s) && text.is_char_boundary(e)) {
            return None;
        }
        let text_before = s > pos && s - 1 > pos;
        if text_before && !text.is_char_boundary(s - 1) {
            return None;
        }
        let ghost mut added: Seq<InlineView> = Seq::empty();
        if text_before {
            let piece = byte_slice(text, pos, s - 1);
            r.push(DocumentInline::Str(piece));
            proof {
                added = seq![InlineView::Str(byte_text(b, pos as int, s - 1))];
            }
        }
        let tag = byte_slice(text, s, e);
        names.push(tag.clone());
        r.push(DocumentInline::Tag(tag));
        proof {
            added = added + seq![InlineView::Tag(byte_text(b, s as int, e as int))];
            assert(hashtag_pieces(b, rest, pos as int) == added + hashtag_pieces(
                b,
                spans@.skip(i + 1),
                e as int,
            ));
            assert(are_pieces(r@, done + added));
            assert(hashtag_pieces(b, spans@, 0) =~= (done + added) + hashtag_pieces(
                b,
                spans@.skip(i + 1),
                e as int,
            ));
            done = done + added;
        }
        pos = e;
        i = i + 1;
    }
    assert(spans@.skip(i as int) =~= Seq::<(usize, usize)>::empty());
    if pos < n {
        proof {
            assert(is_char_boundary(b, n as int));
        }
        let piece = byte_slice(text, pos, n);
        r.push(DocumentInline::Str(piece));
        assert(are_pieces(r@, done + seq![InlineView::Str(byte_text(b, pos as int, n as int))]));
    } else {
        assert(done + Seq::<InlineView>::empty() =~= done);
    }
    proof {
        if tags_after_hashes(b, spans@, 0) {
            assert(is_char_boundary(b, 0));
            law_hashtag_pieces_spell_text(b, spans@, 0);
            lemma_pieces_text(r@, hashtag_pieces(b, spans@, 0));
            assert(b.subrange(0, b.len() as int) =~= b);
        }
    }
    Some((r, names))
}

/// What a string or tag piece spells in the text: a string itself, a tag after its `#`.
pub open spec fn piece_text(v: InlineView) -> Seq<char> {
    match v {
        InlineView::Tag(t) => seq!['#'] + t,
        InlineView::Str(t) => t,
        _ => Seq::empty(),
    }
}

pub open spec fn pieces_text(s: Seq<InlineView>) -> Seq<char>
    decreases s.len(),
{
    if s.len() == 0 {
        Seq::empty()
    } else {
        pieces_text(s.drop_last()) + piece_text(s.last())
    }
}

proof fn lemma_pieces_text_concat(a: Seq<InlineView>, c: Seq<InlineView>)
    ensures
        pieces_text(a + c) == pieces_text(a) + pieces_text(c),
    decreases c.len(),
{
    if c.len() == 0 {
        assert(a + c =~= a);
    } else {
        lemma_pieces_text_concat(a, c.drop_last());
        assert((a + c).drop_last() =~= a + c.drop_last());
        assert((a + c).last() == c.last());
    }
}

proof fn lemma_pieces_text_one(x: InlineView)
    ensures
        pieces_text(seq![x]) == piece_text(x),
{
    reveal_with_fuel(pieces_text, 2);
    assert(seq![x].drop_last() =~= Seq::<InlineView>::empty());
    assert(Seq::<char>::empty() + piece_text(x) =~= piece_text(x));
}

/// The text of inlines that are string and tag pieces is the text that the pieces spell.
pub proof fn lemma_pieces_text(r: Seq<DocumentInline>, v: Seq<InlineView>)
    requires
        are_pieces(r, v),
    ensures
        doc_inlines_text(r) == pieces_text(v),
    decreases r.len(),
{
    if r.len() > 0 {
        assert(are_pieces(r.drop_last(), v.drop_last()));
        lemma_pieces_text(r.drop_last(), v.drop_last());
        assert(is_piece(r[r.len() - 1], v[v.len() - 1]));
        assert(doc_inline_text(r.last()) == piece_text(v.last()));
    }
}

/// Whether each tag span comes after a `#` that itself comes after the previous tag (from
/// byte `pos` on), as the tags that [`HASHTAG_PATTERN`] finds do.
pub open spec fn tags_after_hashes(b: Seq<u8>, spans: Seq<(usize, usize)>, pos: int) -> bool
    decreases spans.len(),
{
    if spans.len() == 0 {
        true
    } else {
        let s = spans[0].0 as int;
        let e = spans[0].1 as int;
        &&& pos < s <= e <= b.len()
        &&& b[s - 1] == 35
        &&& is_char_boundary(b, s)
        &&& is_char_boundary(b, e)
        &&& tags_after_hashes(b, spans.drop_first(), e)
    }
}

/// The byte 35 encodes `#`.
proof fn lemma_hash_byte()
    ensures
        decode_utf8(seq![35u8]) == seq!['#'],
{
    let b = seq![35u8];
    assert(35u8 & 0x7Fu8 == 35u8) by (bit_vector);
    assert(pop_first_scalar(b) =~= Seq::<u8>::empty());
    assert(decode_first_scalar(b) == 35u32);
    reveal_with_fuel(valid_utf8, 2);
    assert(valid_utf8(b));
    vstd::utf8::char_u32_cast('#', 35u32);
    reveal_with_fuel(decode_utf8, 2);
    assert(decode_utf8(b) =~= seq!['#']);
}

/// Cutting a text into strings and tags loses nothing: when every tag comes after its `#`,
/// the strings and the tags, each tag with its `#`, spell the text.
pub proof fn law_hashtag_pieces_spell_text(b: Seq<u8>, spans: Seq<(usize, usize)>, pos: int)
    requires
        valid_utf8(b),
        0 <= pos <= b.len(),
        is_char_boundary(b, pos),
        tags_after_hashes(b, spans, pos),
    ensures
        pieces_text(hashtag_pieces(b, spans, pos)) == byte_text(b, pos, b.len() as int),
    decreases spans.len(),
{
    let n = b.len() as int;
    assert(is_char_boundary(b, n));
    if spans.len() == 0 {
        if pos < n {
            lemma_pieces_text_one(InlineView::Str(byte_text(b, pos, n)));
        } else {
            assert(b.subrange(pos, n) =~= Seq::<u8>::empty());
        }
    } else {
        let s = spans[0].0 as int;
        let e = spans[0].1 as int;
        let rest = spans.drop_first();
        law_hashtag_pieces_spell_text(b, rest, e);
        assert(vstd::utf8::is_leading_byte_width_1(b[s - 1]));
        vstd::utf8::is_char_boundary_iff_is_leading_byte(b, s - 1);
        assert(is_char_boundary(b, s - 1));
        assert(b.subrange(s - 1, s) =~= seq![35u8]);
        lemma_hash_byte();
        assert(byte_text(b, s - 1, s) == seq!['#']);
        lemma_byte_text_concat(b, pos, s - 1, s);
        lemma_byte_text_concat(b, pos, s, e);
        lemma_byte_text_concat(b, pos, e, n);
        let before = if s > pos + 1 {
            seq![InlineView::Str(byte_text(b, pos, s - 1))]
        } else {
            Seq::<InlineView>::empty()
        };
        let tag = seq![InlineView::Tag(byte_text(b, s, e))];
        lemma_pieces_text_concat(before + tag, hashtag_pieces(b, rest, e));
        lemma_pieces_text_concat(before, tag);
        lemma_pieces_text_one(InlineView::Tag(byte_text(b, s, e)));
        if s > pos + 1 {
            lemma_pieces_text_one(InlineView::Str(byte_text(b, pos, s - 1)));
        } else {
            assert(b.subrange(pos, s - 1) =~= Seq::<u8>::empty());
        }
        assert(pieces_text(hashtag_pieces(b, spans, pos)) =~= byte_text(b, pos, n));
    }
}

/// Tags that each come after their `#` can be cut out of the text.
pub proof fn lemma_hashes_cuttable(b: Seq<u8>, spans: Seq<(usize, usize)>, pos: int)
    requires
        valid_utf8(b),
        0 <= pos,
        tags_after_hashes(b, spans, pos),
    ensures
        cuttable(b, spans, pos),
    decreases spans.len(),
{
    if spans.len() > 0 {
        let s = spans[0].0 as int;
        lemma_hashes_cuttable(b, spans.drop_first(), spans[0].1 as int);
        assert(vstd::utf8::is_leading_byte_width_1(b[s - 1]));
        vstd::utf8::is_char_boundary_iff_is_leading_byte(b, s - 1);
    }
}

/// The text of a non-empty run of whole characters is not empty.
proof fn lemma_byte_text_not_empty(b: Seq<u8>, a: int, c: int)
    requires
        valid_utf8(b),
        0 <= a < c <= b.len(),
        is_char_boundary(b, a),
        is_char_boundary(b, c),
    ensures
        byte_text(b, a, c).len() > 0,
{
    lemma_sub_boundary(b, a, c, a);
    assert(b.subrange(a, c).len() > 0);
}

/// Cutting a text at tags that come after their `#` gives no empty string.
pub proof fn law_hashtag_strings_not_empty(b: Seq<u8>, spans: Seq<(usize, usize)>, pos: int)
    requires
        valid_utf8(b),
        0 <= pos <= b.len(),
        is_char_boundary(b, pos),
        tags_after_hashes(b, spans, pos),
    ensures
        forall|k: int|
            0 <= k < hashtag_pieces(b, spans, pos).len() && (#[trigger] hashtag_pieces(
                b,
                spans,
                pos,
            )[k]) is Str ==> hashtag_pieces(b, spans, pos)[k]->Str_0.len() > 0,
    decreases spans.len(),
{
    let n = b.len() as int;
    assert(is_char_boundary(b, n)) by {
        vstd::utf8::is_char_boundary_start_end_of_seq(b);
    }
    let v = hashtag_pieces(b, spans, pos);
    if spans.len() == 0 {
        if pos < n {
            lemma_byte_text_not_empty(b, pos, n);
        }
    } else {
        let s = spans[0].0 as int;
        let e = spans[0].1 as int;
        let rest = spans.drop_first();
        law_hashtag_strings_not_empty(b, rest, e);
        let before = if s > pos + 1 {
            seq![InlineView::Str(byte_text(b, pos, s - 1))]
        } else {
            Seq::<InlineView>::empty()
        };
        if s > pos + 1 {
            assert(vstd::utf8::is_leading_byte_width_1(b[s - 1]));
            vstd::utf8::is_char_boundary_iff_is_leading_byte(b, s - 1);
            lemma_byte_text_not_empty(b, pos, s - 1);
        }
        let r = hashtag_pieces(b, rest, e);
        assert(v == before + seq![InlineView::Tag(byte_text(b, s, e))] + r);
        assert forall|k: int| 0 <= k < v.len() && (#[trigger] v[k]) is Str implies v[k]->Str_0.len()
            > 0 by {
            if k >= before.len() + 1 {
                assert(v[k] == r[k - before.len() - 1]);
            }
        }
    }
}

} // verus!
