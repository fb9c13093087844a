//! From the event stream of the rewritten text to the deck: blocks with
//! their inline spans, directives and slide breaks, then cells, speaker
//! notes and slides.

use super::ast::{
    block_v, blocks_v, cell_v, deck_v, directive_v, directives_v, item_v, items_v,
    lemma_blocks_v_push, lemma_items_v_push, lemma_spans_v_push, slide_v, span_v, spans_v, Block,
    BlockV, Cell, CellV, DeckV, Directive, DirectiveV, ImageMeta, ImageMetaV, InlineSpan,
    InlineSpanV, ListItem, ListItemV, ParseError, ParseErrorV, Slide, SlideDeck, SlideV, SourceSpan,
};
use super::directive::{marker_v, parse_marker, spec_marker, Marker, MarkerV};
use super::markdown::{cmark_events, markdown_events, MdEvent, MdItem, MdTag};
use super::prepass::{
    map_back, metas_view, rewritten_to_original, ImageMetaAt, Line, OffsetEntry, PrepassOutput,
};
use super::text;
use vstd::prelude::*;
use vstd::string::{StringExecFns, StringSliceAdditionalSpecFns};
use vstd::utf8::*;

verus! {

// ---------------------------------------------------------------------------
// Inline content
// ---------------------------------------------------------------------------

/// The tags of inline content: emphasis, strong emphasis, links and images.
pub open spec fn is_inline_tag(t: MdTag) -> bool {
    t is Emphasis || t is Strong || t is Link || t is Image
}

/// The position after the `End` at `j` that closes what opened at `i`,
/// never before `i + 1` nor past `n`.
pub open spec fn after(n: int, i: int, j: int) -> int {
    let k = if j + 1 > i + 1 {
        j + 1
    } else {
        i + 1
    };
    if k > n {
        n
    } else {
        k
    }
}

/// `acc` with text `t` added: joined to a last text span, or as a new one.
pub open spec fn push_text(acc: Seq<InlineSpanV>, t: Seq<char>) -> Seq<InlineSpanV> {
    if acc.len() > 0 && acc.last() is Text {
        acc.drop_last().push(
            InlineSpanV::Text(
                match acc.last() {
                    InlineSpanV::Text(s) => s,
                    _ => Seq::empty(),
                } + t,
            ),
        )
    } else {
        acc.push(InlineSpanV::Text(t))
    }
}

/// `acc` with the group opened by `tag` around spans `inner` (of plain text
/// `itxt`) added; a group of another tag is left out.
pub open spec fn wrap(tag: MdTag, inner: Seq<InlineSpanV>, itxt: Seq<char>, acc: Seq<InlineSpanV>) -> Seq<
    InlineSpanV,
> {
    match tag {
        MdTag::Strong => acc.push(InlineSpanV::Strong(inner)),
        MdTag::Emphasis => acc.push(InlineSpanV::Emphasis(inner)),
        MdTag::Link(u) => acc.push(InlineSpanV::Link { url: u@, text: inner }),
        MdTag::Image(u) => acc.push(InlineSpanV::Image { src: u@, alt: itxt }),
        _ => acc,
    }
}

/// The plain text that a group opened by `tag` with plain text `itxt` adds.
pub open spec fn wrap_text(tag: MdTag, itxt: Seq<char>) -> Seq<char> {
    if is_inline_tag(tag) {
        itxt
    } else {
        Seq::empty()
    }
}

/// Inline content from event `i` on, added to spans `acc` and plain text
/// `txt`: the spans, the plain text, and the position where it stops, at an
/// `End` of the enclosing group, at the end of the events, or (when `stop`)
/// at the start of a block. Text joins the text before it; a soft break reads
/// as a space and a hard break as a line break; an image's alternative text
/// is the plain text of its description.
pub open spec fn inl(
    evs: Seq<MdItem>,
    i: int,
    stop: bool,
    acc: Seq<InlineSpanV>,
    txt: Seq<char>,
) -> (Seq<InlineSpanV>, Seq<char>, int)
    decreases evs.len() - i,
{
    if i < 0 || i >= evs.len() {
        (acc, txt, evs.len() as int)
    } else {
        match evs[i].event {
            MdEvent::End => (acc, txt, i),
            MdEvent::Text(t) => inl(evs, i + 1, stop, push_text(acc, t@), txt + t@),
            MdEvent::Code(t) => inl(evs, i + 1, stop, acc.push(InlineSpanV::Code(t@)), txt + t@),
            MdEvent::SoftBreak => inl(evs, i + 1, stop, push_text(acc, seq![' ']), txt + seq![' ']),
            MdEvent::HardBreak => inl(
                evs,
                i + 1,
                stop,
                push_text(acc, seq!['\n']),
                txt + seq!['\n'],
            ),
            MdEvent::Start(tag) => if stop && !is_inline_tag(tag) {
                (acc, txt, i)
            } else {
                let r = inl(evs, i + 1, false, Seq::empty(), Seq::empty());
                inl(
                    evs,
                    after(evs.len() as int, i, r.2),
                    stop,
                    wrap(tag, r.0, r.1, acc),
                    txt + wrap_text(tag, r.1),
                )
            },
            _ => inl(evs, i + 1, stop, acc, txt),
        }
    }
}

proof fn lemma_inl_bounds(evs: Seq<MdItem>, i: int, stop: bool, acc: Seq<InlineSpanV>, txt: Seq<char>)
    requires
        0 <= i <= evs.len(),
    ensures
        i <= inl(evs, i, stop, acc, txt).2 <= evs.len(),
    decreases evs.len() - i,
{
    if i < evs.len() {
        match evs[i].event {
            MdEvent::End => {},
            MdEvent::Text(t) => lemma_inl_bounds(evs, i + 1, stop, push_text(acc, t@), txt + t@),
            MdEvent::Code(t) => lemma_inl_bounds(
                evs,
                i + 1,
                stop,
                acc.push(InlineSpanV::Code(t@)),
                txt + t@,
            ),
            MdEvent::SoftBreak => lemma_inl_bounds(
                evs,
                i + 1,
                stop,
                push_text(acc, seq![' ']),
                txt + seq![' '],
            ),
            MdEvent::HardBreak => lemma_inl_bounds(
                evs,
                i + 1,
                stop,
                push_text(acc, seq!['\n']),
                txt + seq!['\n'],
            ),
            MdEvent::Start(tag) => if !(stop && !is_inline_tag(tag)) {
                let r = inl(evs, i + 1, false, Seq::empty(), Seq::empty());
                lemma_inl_bounds(
                    evs,
                    after(evs.len() as int, i, r.2),
                    stop,
                    wrap(tag, r.0, r.1, acc),
                    txt + wrap_text(tag, r.1),
                );
            },
            _ => lemma_inl_bounds(evs, i + 1, stop, acc, txt),
        }
    }
}

/// The position after the `End` at `j` that closes what opened at `i`.
fn after_exec(n: usize, i: usize, j: usize) -> (r: usize)
    requires
        i < n,
        j <= n,
    ensures
        r == after(n as int, i as int, j as int),
{
    if j >= n {
        n
    } else if j > i {
        j + 1
    } else {
        i + 1
    }
}

/// Adds text `t` to the spans `acc`.
fn push_text_exec(acc: &mut Vec<InlineSpan>, t: &str)
    ensures
        spans_v(final(acc)@) == push_text(spans_v(old(acc)@), t@),
{
    let ghost a = acc@;
    proof {
        super::ast::lemma_spans_v_len(a);
        if a.len() > 0 {
            assert(a =~= a.drop_last().push(a.last()));
            lemma_spans_v_push(a.drop_last(), a.last());
        }
    }
    let n = acc.len();
    if n > 0 {
        let is_text = match &acc[n - 1] {
            InlineSpan::Text(_) => true,
            _ => false,
        };
        if is_text {
            let last = acc.pop();
            assert(a =~= acc@.push(a.last()));
            proof {
                lemma_spans_v_push(acc@, a.last());
            }
            match last {
                Some(InlineSpan::Text(mut s)) => {
                    s.append(t);
                    let x = InlineSpan::Text(s);
                    proof {
                        lemma_spans_v_push(acc@, x);
                    }
                    acc.push(x);
                },
                _ => {},
            }
            return;
        }
    }
    let x = InlineSpan::Text(t.to_owned());
    proof {
        lemma_spans_v_push(acc@, x);
    }
    acc.push(x);
}

fn is_inline_tag_exec(t: &MdTag) -> (r: bool)
    ensures
        r == is_inline_tag(*t),
{
    match t {
        MdTag::Emphasis | MdTag::Strong | MdTag::Link(_) | MdTag::Image(_) => true,
        _ => false,
    }
}

/// Inline content from event `i0` on, as [`inl`] reads it from nothing.
fn parse_inlines(evs: &Vec<MdItem>, i0: usize, stop: bool) -> (r: (Vec<InlineSpan>, String, usize))
    requires
        i0 <= evs@.len(),
    ensures
        (spans_v(r.0@), r.1@, r.2 as int) == inl(evs@, i0 as int, stop, Seq::empty(), Seq::empty()),
    decreases evs@.len() - i0,
{
    let n = evs.len();
    let mut acc: Vec<InlineSpan> = Vec::new();
    let mut txt = String::new();
    let mut i = i0;
    proof {
        assert(spans_v(acc@) =~= Seq::<InlineSpanV>::empty());
    }
    while i < n
        invariant
            n == evs@.len(),
            i0 <= i <= n,
            inl(evs@, i0 as int, stop, Seq::empty(), Seq::empty()) == inl(
                evs@,
                i as int,
                stop,
                spans_v(acc@),
                txt@,
            ),
        decreases n - i,
    {
        match &evs[i].event {
            MdEvent::End => {
                return (acc, txt, i);
            },
            MdEvent::Text(t) => {
                push_text_exec(&mut acc, t.as_str());
                txt.append(t.as_str());
                i = i + 1;
            },
            MdEvent::Code(t) => {
                let x = InlineSpan::Code(t.clone());
                proof {
                    lemma_spans_v_push(acc@, x);
                }
                acc.push(x);
                txt.append(t.as_str());
                i = i + 1;
            },
            MdEvent::SoftBreak => {
                push_text_exec(&mut acc, " ");
                txt.append(" ");
                proof {
                    reveal_strlit(" ");
                    assert(" "@ =~= seq![' ']);
                }
                i = i + 1;
            },
            MdEvent::HardBreak => {
                push_text_exec(&mut acc, "\n");
                txt.append("\n");
                proof {
                    reveal_strlit("\n");
                    assert("\n"@ =~= seq!['\n']);
                }
                i = i + 1;
            },
            MdEvent::Start(tag) => {
                let inline = is_inline_tag_exec(tag);
                if stop && !inline {
                    return (acc, txt, i);
                }
                let (inner, itxt, j) = parse_inlines(evs, i + 1, false);
                proof {
                    lemma_inl_bounds(evs@, i + 1, false, Seq::empty(), Seq::empty());
                }
                let ghost a0 = acc@;
                match tag {
                    MdTag::Strong => {
                        let x = InlineSpan::Strong(inner);
                        proof {
                            lemma_spans_v_push(a0, x);
                        }
                        acc.push(x);
                    },
                    MdTag::Emphasis => {
                        let x = InlineSpan::Emphasis(inner);
                        proof {
                            lemma_spans_v_push(a0, x);
                        }
                        acc.push(x);
                    },
                    MdTag::Link(u) => {
                        let x = InlineSpan::Link { url: u.clone(), text: inner };
                        proof {
                            lemma_spans_v_push(a0, x);
                        }
                        acc.push(x);
                    },
                    MdTag::Image(u) => {
                        let x = InlineSpan::Image { src: u.clone(), alt: itxt.clone() };
                        proof {
                            lemma_spans_v_push(a0, x);
                        }
                        acc.push(x);
                    },
                    _ => {},
                }
                if inline {
                    txt.append(itxt.as_str());
                } else {
                    assert(txt@ + wrap_text(*tag, itxt@) =~= txt@);
                }
                i = after_exec(n, i, j);
            },
            _ => {
                i = i + 1;
            },
        }
    }
    (acc, txt, i)
}

// ---------------------------------------------------------------------------
// Blocks
// ---------------------------------------------------------------------------

/// Offset `rw` of the rewritten text in the original source, as
/// [`rewritten_to_original`] computes it.
pub open spec fn to_orig(rw: int, es: Seq<OffsetEntry>) -> usize {
    let v = map_back(rw, es, 0, 0);
    if v <= usize::MAX {
        v as usize
    } else {
        (v - usize::MAX - 1) as usize
    }
}

/// The end of the range of event `j`, or of event `i` when `j` is past the
/// events.
pub open spec fn end_at(evs: Seq<MdItem>, i: int, j: int) -> usize {
    if 0 <= j < evs.len() {
        evs[j].end
    } else {
        evs[i].end
    }
}

/// The original source range from the start of event `i` to the end of
/// event `j`.
pub open spec fn span_of(evs: Seq<MdItem>, es: Seq<OffsetEntry>, i: int, j: int) -> SourceSpan {
    SourceSpan { start: to_orig(evs[i].start as int, es), end: to_orig(end_at(evs, i, j) as int, es) }
}

/// `j`, but at least `i + 1` and at most `n`.
pub open spec fn forward(n: int, i: int, j: int) -> int {
    if j > n {
        n
    } else if j > i {
        j
    } else {
        i + 1
    }
}

/// The position of the `End` that closes the group whose contents start at
/// `i` (or the end of the events).
pub open spec fn group_end(evs: Seq<MdItem>, i: int) -> int
    decreases evs.len() - i,
{
    if i < 0 || i >= evs.len() {
        evs.len() as int
    } else {
        match evs[i].event {
            MdEvent::End => i,
            MdEvent::Start(_) => group_end(evs, after(evs.len() as int, i, group_end(evs, i + 1))),
            _ => group_end(evs, i + 1),
        }
    }
}

/// The text of a code block from event `i` on, added to `acc`, and the
/// position of the `End` that closes it.
pub open spec fn code_text(evs: Seq<MdItem>, i: int, acc: Seq<char>) -> (Seq<char>, int)
    decreases evs.len() - i,
{
    if i < 0 || i >= evs.len() {
        (acc, evs.len() as int)
    } else {
        match evs[i].event {
            MdEvent::End => (acc, i),
            MdEvent::Text(t) => code_text(evs, i + 1, acc + t@),
            MdEvent::Start(_) => code_text(
                evs,
                after(evs.len() as int, i, group_end(evs, i + 1)),
                acc,
            ),
            _ => code_text(evs, i + 1, acc),
        }
    }
}

/// The first position at or after `i` (before `hi`) where white space starts.
pub open spec fn word_end(b: Seq<u8>, i: int, hi: int) -> int
    decreases hi - i,
{
    if i >= hi || text::ws_len(b, i) > 0 {
        i
    } else {
        word_end(b, i + 1, hi)
    }
}

/// The first word of the text with bytes `b`, if it has one: the language of
/// a fenced code block's info string.
pub open spec fn first_word(b: Seq<u8>) -> Option<Seq<char>> {
    let a = text::trim_start_pos(b, 0, b.len() as int);
    let e = word_end(b, a, b.len() as int);
    if e > a {
        Some(decode_utf8(b.subrange(a, e)))
    } else {
        None
    }
}

/// The metadata recorded for the image rewritten at offset `rw`: that of the
/// first record from `k` on made at `rw`.
pub open spec fn meta_at(ms: Seq<(usize, ImageMetaV)>, rw: int, k: int) -> Option<ImageMetaV>
    decreases ms.len() - k,
{
    if k < 0 || k >= ms.len() {
        None
    } else if ms[k].0 == rw {
        Some(ms[k].1)
    } else {
        meta_at(ms, rw, k + 1)
    }
}

/// The block that opens at event `i`, if it is one the deck keeps, and the
/// position after it. A paragraph that holds a single image is an image
/// block, with the metadata recorded for it; a fenced code block's language is
/// the first word of its info string; other blocks (block quotes and the like)
/// are passed over.
pub open spec fn block_at(
    evs: Seq<MdItem>,
    es: Seq<OffsetEntry>,
    ms: Seq<(usize, ImageMetaV)>,
    i: int,
) -> (Option<BlockV>, int)
    decreases evs.len() - i, 1int,
{
    if i < 0 || i >= evs.len() {
        (None, evs.len() as int)
    } else {
        let n = evs.len() as int;
        match evs[i].event {
            MdEvent::Start(tag) => match tag {
                MdTag::Paragraph => {
                    let r = inl(evs, i + 1, false, Seq::empty(), Seq::empty());
                    let sp = span_of(evs, es, i, r.2);
                    (
                        Some(
                            if r.0.len() == 1 && r.0[0] is Image {
                                BlockV::Image {
                                    src: r.0[0]->src,
                                    alt: r.0[0]->alt,
                                    meta: meta_at(ms, evs[i].start as int, 0),
                                    span: sp,
                                }
                            } else {
                                BlockV::Paragraph { spans: r.0, span: sp }
                            },
                        ),
                        after(n, i, r.2),
                    )
                },
                MdTag::Heading(l) => {
                    let r = inl(evs, i + 1, false, Seq::empty(), Seq::empty());
                    (
                        Some(BlockV::Heading { level: l, spans: r.0, span: span_of(evs, es, i, r.2) }),
                        after(n, i, r.2),
                    )
                },
                MdTag::List(o) => {
                    let r = list_items(evs, es, ms, i + 1, Seq::empty());
                    (
                        Some(BlockV::List { ordered: o, items: r.0, span: span_of(evs, es, i, r.1) }),
                        after(n, i, r.1),
                    )
                },
                MdTag::CodeBlock(info) => {
                    let r = code_text(evs, i + 1, Seq::empty());
                    (
                        Some(
                            BlockV::CodeBlock {
                                lang: match info {
                                    Some(s) => first_word(encode_utf8(s@)),
                                    None => None,
                                },
                                source: r.0,
                                span: span_of(evs, es, i, r.1),
                            },
                        ),
                        after(n, i, r.1),
                    )
                },
                _ => (None, after(n, i, group_end(evs, i + 1))),
            },
            _ => (None, i + 1),
        }
    }
}

/// The items of a list from event `i` on, added to `acc`, and the position of
/// the `End` that closes the list.
pub open spec fn list_items(
    evs: Seq<MdItem>,
    es: Seq<OffsetEntry>,
    ms: Seq<(usize, ImageMetaV)>,
    i: int,
    acc: Seq<ListItemV>,
) -> (Seq<ListItemV>, int)
    decreases evs.len() - i, 0int,
{
    if i < 0 || i >= evs.len() {
        (acc, evs.len() as int)
    } else {
        let n = evs.len() as int;
        match evs[i].event {
            MdEvent::End => (acc, i),
            MdEvent::Start(MdTag::Item) => {
                let r = item_blocks(evs, es, ms, i + 1, Seq::empty());
                list_items(
                    evs,
                    es,
                    ms,
                    after(n, i, r.1),
                    acc.push(ListItemV { blocks: r.0, span: span_of(evs, es, i, r.1) }),
                )
            },
            MdEvent::Start(_) => list_items(evs, es, ms, after(n, i, group_end(evs, i + 1)), acc),
            _ => list_items(evs, es, ms, i + 1, acc),
        }
    }
}

/// The blocks of a list item from event `i` on, added to `acc`, and the
/// position of the `End` that closes the item. Inline content that is not
/// inside a paragraph (a tight item's text) makes a paragraph of its own.
pub open spec fn item_blocks(
    evs: Seq<MdItem>,
    es: Seq<OffsetEntry>,
    ms: Seq<(usize, ImageMetaV)>,
    i: int,
    acc: Seq<BlockV>,
) -> (Seq<BlockV>, int)
    decreases evs.len() - i, 2int,
{
    if i < 0 || i >= evs.len() {
        (acc, evs.len() as int)
    } else {
        let n = evs.len() as int;
        match evs[i].event {
            MdEvent::End => (acc, i),
            MdEvent::Start(tag) if !is_inline_tag(tag) => {
                let r = block_at(evs, es, ms, i);
                item_blocks(
                    evs,
                    es,
                    ms,
                    forward(n, i, r.1),
                    match r.0 {
                        Some(b) => acc.push(b),
                        None => acc,
                    },
                )
            },
            _ => {
                let r = inl(evs, i, true, Seq::empty(), Seq::empty());
                let next = forward(n, i, r.2);
                item_blocks(
                    evs,
                    es,
                    ms,
                    next,
                    if r.0.len() > 0 {
                        acc.push(
                            BlockV::Paragraph {
                                spans: r.0,
                                span: SourceSpan {
                                    start: to_orig(evs[i].start as int, es),
                                    end: to_orig(evs[next - 1].end as int, es),
                                },
                            },
                        )
                    } else {
                        acc
                    },
                )
            },
        }
    }
}

fn to_orig_exec(rw: usize, es: &Vec<OffsetEntry>) -> (r: usize)
    ensures
        r == to_orig(rw as int, es@),
{
    rewritten_to_original(rw, es.as_slice())
}

fn span_exec(evs: &Vec<MdItem>, es: &Vec<OffsetEntry>, i: usize, j: usize) -> (r: SourceSpan)
    requires
        i < evs@.len(),
    ensures
        r == span_of(evs@, es@, i as int, j as int),
{
    let e = if j < evs.len() {
        evs[j].end
    } else {
        evs[i].end
    };
    SourceSpan { start: to_orig_exec(evs[i].start, es), end: to_orig_exec(e, es) }
}

fn forward_exec(n: usize, i: usize, j: usize) -> (r: usize)
    requires
        i < n,
    ensures
        r == forward(n as int, i as int, j as int),
{
    if j > n {
        n
    } else if j > i {
        j
    } else {
        i + 1
    }
}

proof fn lemma_group_end_bounds(evs: Seq<MdItem>, i: int)
    requires
        0 <= i <= evs.len(),
    ensures
        i <= group_end(evs, i) <= evs.len(),
    decreases evs.len() - i,
{
    if i < evs.len() {
        match evs[i].event {
            MdEvent::End => {},
            MdEvent::Start(_) => {
                lemma_group_end_bounds(evs, i + 1);
                lemma_group_end_bounds(evs, after(evs.len() as int, i, group_end(evs, i + 1)));
            },
            _ => lemma_group_end_bounds(evs, i + 1),
        }
    }
}

/// The position of the `End` that closes the group whose contents start at
/// `i0`.
fn group_end_exec(evs: &Vec<MdItem>, i0: usize) -> (r: usize)
    requires
        i0 <= evs@.len(),
    ensures
        r == group_end(evs@, i0 as int),
    decreases evs@.len() - i0,
{
    let n = evs.len();
    let mut i = i0;
    while i < n
        invariant
            n == evs@.len(),
            i0 <= i <= n,
            group_end(evs@, i0 as int) == group_end(evs@, i as int),
        decreases n - i,
    {
        match &evs[i].event {
            MdEvent::End => {
                return i;
            },
            MdEvent::Start(_) => {
                let j = group_end_exec(evs, i + 1);
                proof {
                    lemma_group_end_bounds(evs@, i + 1);
                }
                i = after_exec(n, i, j);
            },
            _ => {
                i = i + 1;
            },
        }
    }
    i
}

/// The text of a code block from event `i0` on.
fn code_text_exec(evs: &Vec<MdItem>, i0: usize) -> (r: (String, usize))
    requires
        i0 <= evs@.len(),
    ensures
        (r.0@, r.1 as int) == code_text(evs@, i0 as int, Seq::empty()),
{
    let n = evs.len();
    let mut acc = String::new();
    let mut i = i0;
    while i < n
        invariant
            n == evs@.len(),
            i0 <= i <= n,
            code_text(evs@, i0 as int, Seq::empty()) == code_text(evs@, i as int, acc@),
        decreases n - i,
    {
        match &evs[i].event {
            MdEvent::End => {
                return (acc, i);
            },
            MdEvent::Text(t) => {
                acc.append(t.as_str());
                i = i + 1;
            },
            MdEvent::Start(_) => {
                let j = group_end_exec(evs, i + 1);
                proof {
                    lemma_group_end_bounds(evs@, i + 1);
                }
                i = after_exec(n, i, j);
            },
            _ => {
                i = i + 1;
            },
        }
    }
    (acc, i)
}

/// The first word of `info`.
fn first_word_exec(info: &str) -> (r: Option<String>)
    ensures
        match r {
            Some(w) => first_word(info.spec_bytes()) == Some(w@),
            None => first_word(info.spec_bytes()) is None,
        },
{
    let s = info.as_bytes();
    let ghost b = s@;
    let n = s.len();
    proof {
        encode_utf8_valid_utf8(info@);
        super::prepass::lemma_trim_start_boundary(b, 0, n as int);
    }
    let a = text::trim_start_at(s, 0, n);
    let mut e = a;
    while e < n && text::ws_len_at(s, e) == 0
        invariant
            a <= e <= n == b.len(),
            s@ == b,
            word_end(b, a as int, n as int) == word_end(b, e as int, n as int),
        decreases n - e,
    {
        e = e + 1;
    }
    if e > a {
        proof {
            assert(text::boundary(b, e as int)) by {
                if e < n {
                    assert(text::ws_len(b, e as int) > 0);
                    assert(!is_continuation_byte(b[e as int]));
                }
            }
        }
        let w = text::str_slice(info, a, e);
        proof {
            encode_utf8_decode_utf8(w@);
        }
        Some(w.to_owned())
    } else {
        None
    }
}

/// A copy of image metadata.
fn copy_meta(m: &ImageMeta) -> (r: ImageMeta)
    ensures
        r@ == m@,
{
    ImageMeta {
        size: m.size,
        x: m.x,
        y: m.y,
        background: match &m.background {
            Some(b) => Some(b.clone()),
            None => None,
        },
        opacity: m.opacity,
    }
}

/// The metadata recorded for the image rewritten at offset `rw`.
fn meta_at_exec(ms: &Vec<ImageMetaAt>, rw: usize) -> (r: Option<ImageMeta>)
    ensures
        match r {
            Some(m) => meta_at(metas_view(ms@), rw as int, 0) == Some(m@),
            None => meta_at(metas_view(ms@), rw as int, 0) is None,
        },
{
    let mut k: usize = 0;
    while k < ms.len()
        invariant
            k <= ms@.len(),
            meta_at(metas_view(ms@), rw as int, 0) == meta_at(metas_view(ms@), rw as int, k as int),
        decreases ms@.len() - k,
    {
        if ms[k].rw_start == rw {
            return Some(copy_meta(&ms[k].meta));
        }
        k = k + 1;
    }
    None
}

pub open spec fn opt_block_v(o: Option<Block>) -> Option<BlockV> {
    match o {
        Some(b) => Some(block_v(b)),
        None => None,
    }
}

/// The block that opens at event `i`, as [`block_at`] reads it.
fn block_at_exec(evs: &Vec<MdItem>, es: &Vec<OffsetEntry>, ms: &Vec<ImageMetaAt>, i: usize) -> (r: (
    Option<Block>,
    usize,
))
    requires
        i < evs@.len(),
    ensures
        opt_block_v(r.0) == block_at(evs@, es@, metas_view(ms@), i as int).0,
        r.1 as int == block_at(evs@, es@, metas_view(ms@), i as int).1,
        i < r.1 <= evs@.len(),
    decreases evs@.len() - i, 1int,
{
    let n = evs.len();
    match &evs[i].event {
        MdEvent::Start(tag) => match tag {
            MdTag::Paragraph => {
                let (sp, _t, j) = parse_inlines(evs, i + 1, false);
                proof {
                    lemma_inl_bounds(evs@, i + 1, false, Seq::empty(), Seq::empty());
                    super::ast::lemma_spans_v_len(sp@);
                    if sp@.len() == 1 {
                        super::ast::lemma_spans_v_index(sp@, 0);
                    }
                }
                let span = span_exec(evs, es, i, j);
                let is_img = sp.len() == 1 && match &sp[0] {
                    InlineSpan::Image { .. } => true,
                    _ => false,
                };
                let b = if is_img {
                    let mut sp2 = sp;
                    match sp2.pop() {
                        Some(InlineSpan::Image { src, alt }) => Block::Image {
                            src,
                            alt,
                            meta: meta_at_exec(ms, evs[i].start),
                            span,
                        },
                        _ => Block::Paragraph { spans: sp2, span },
                    }
                } else {
                    Block::Paragraph { spans: sp, span }
                };
                (Some(b), after_exec(n, i, j))
            },
            MdTag::Heading(l) => {
                let (sp, _t, j) = parse_inlines(evs, i + 1, false);
                proof {
                    lemma_inl_bounds(evs@, i + 1, false, Seq::empty(), Seq::empty());
                }
                let span = span_exec(evs, es, i, j);
                (Some(Block::Heading { level: *l, spans: sp, span }), after_exec(n, i, j))
            },
            MdTag::List(o) => {
                let (items, j) = list_items_exec(evs, es, ms, i + 1);
                let span = span_exec(evs, es, i, j);
                (Some(Block::List { ordered: *o, items, span }), after_exec(n, i, j))
            },
            MdTag::CodeBlock(info) => {
                let (source, j) = code_text_exec(evs, i + 1);
                proof {
                    lemma_code_text_bounds(evs@, i + 1, Seq::empty());
                }
                let lang = match info {
                    Some(s) => first_word_exec(s.as_str()),
                    None => None,
                };
                let span = span_exec(evs, es, i, j);
                (Some(Block::CodeBlock { lang, source, span }), after_exec(n, i, j))
            },
            _ => {
                let j = group_end_exec(evs, i + 1);
                proof {
                    lemma_group_end_bounds(evs@, i + 1);
                }
                (None, after_exec(n, i, j))
            },
        },
        _ => (None, i + 1),
    }
}

proof fn lemma_code_text_bounds(evs: Seq<MdItem>, i: int, acc: Seq<char>)
    requires
        0 <= i <= evs.len(),
    ensures
        i <= code_text(evs, i, acc).1 <= evs.len(),
    decreases evs.len() - i,
{
    if i < evs.len() {
        match evs[i].event {
            MdEvent::End => {},
            MdEvent::Text(t) => lemma_code_text_bounds(evs, i + 1, acc + t@),
            MdEvent::Start(_) => {
                lemma_group_end_bounds(evs, i + 1);
                lemma_code_text_bounds(evs, after(evs.len() as int, i, group_end(evs, i + 1)), acc);
            },
            _ => lemma_code_text_bounds(evs, i + 1, acc),
        }
    }
}

/// The items of a list from event `i0` on, as [`list_items`] reads them.
fn list_items_exec(evs: &Vec<MdItem>, es: &Vec<OffsetEntry>, ms: &Vec<ImageMetaAt>, i0: usize) -> (r: (
    Vec<ListItem>,
    usize,
))
    requires
        i0 <= evs@.len(),
    ensures
        items_v(r.0@) == list_items(evs@, es@, metas_view(ms@), i0 as int, Seq::empty()).0,
        r.1 as int == list_items(evs@, es@, metas_view(ms@), i0 as int, Seq::empty()).1,
        i0 <= r.1 <= evs@.len(),
    decreases evs@.len() - i0, 0int,
{
    let n = evs.len();
    let mut acc: Vec<ListItem> = Vec::new();
    let mut i = i0;
    assert(items_v(acc@) =~= Seq::<ListItemV>::empty());
    while i < n
        invariant
            n == evs@.len(),
            i0 <= i <= n,
            list_items(evs@, es@, metas_view(ms@), i0 as int, Seq::empty()) == list_items(
                evs@,
                es@,
                metas_view(ms@),
                i as int,
                items_v(acc@),
            ),
        decreases n - i,
    {
        match &evs[i].event {
            MdEvent::End => {
                return (acc, i);
            },
            MdEvent::Start(MdTag::Item) => {
                let (blocks, j) = item_blocks_exec(evs, es, ms, i + 1);
                let item = ListItem { blocks, span: span_exec(evs, es, i, j) };
                proof {
                    lemma_items_v_push(acc@, item);
                }
                acc.push(item);
                i = after_exec(n, i, j);
            },
            MdEvent::Start(_) => {
                let j = group_end_exec(evs, i + 1);
                proof {
                    lemma_group_end_bounds(evs@, i + 1);
                }
                i = after_exec(n, i, j);
            },
            _ => {
                i = i + 1;
            },
        }
    }
    (acc, i)
}

/// The blocks of a list item from event `i0` on, as [`item_blocks`] reads
/// them.
fn item_blocks_exec(evs: &Vec<MdItem>, es: &Vec<OffsetEntry>, ms: &Vec<ImageMetaAt>, i0: usize) -> (r: (
    Vec<Block>,
    usize,
))
    requires
        i0 <= evs@.len(),
    ensures
        blocks_v(r.0@) == item_blocks(evs@, es@, metas_view(ms@), i0 as int, Seq::empty()).0,
        r.1 as int == item_blocks(evs@, es@, metas_view(ms@), i0 as int, Seq::empty()).1,
        i0 <= r.1 <= evs@.len(),
    decreases evs@.len() - i0, 2int,
{
    let n = evs.len();
    let mut acc: Vec<Block> = Vec::new();
    let mut i = i0;
    assert(blocks_v(acc@) =~= Seq::<BlockV>::empty());
    while i < n
        invariant
            n == evs@.len(),
            i0 <= i <= n,
            item_blocks(evs@, es@, metas_view(ms@), i0 as int, Seq::empty()) == item_blocks(
                evs@,
                es@,
                metas_view(ms@),
                i as int,
                blocks_v(acc@),
            ),
        decreases n - i,
    {
        let block_start = match &evs[i].event {
            MdEvent::End => {
                return (acc, i);
            },
            MdEvent::Start(tag) => !is_inline_tag_exec(tag),
            _ => false,
        };
        if block_start {
            let (b, j) = block_at_exec(evs, es, ms, i);
            match b {
                Some(b) => {
                    proof {
                        lemma_blocks_v_push(acc@, b);
                    }
                    acc.push(b);
                },
                None => {},
            }
            i = forward_exec(n, i, j);
        } else {
            let (sp, _t, j) = parse_inlines(evs, i, true);
            proof {
                lemma_inl_bounds(evs@, i as int, true, Seq::empty(), Seq::empty());
                super::ast::lemma_spans_v_len(sp@);
            }
            let next = forward_exec(n, i, j);
            if sp.len() > 0 {
                let span = SourceSpan {
                    start: to_orig_exec(evs[i].start, es),
                    end: to_orig_exec(evs[next - 1].end, es),
                };
                let b = Block::Paragraph { spans: sp, span };
                proof {
                    lemma_blocks_v_push(acc@, b);
                }
                acc.push(b);
            }
            i = next;
        }
    }
    (acc, i)
}

// ---------------------------------------------------------------------------
// The top level: blocks, directives and slide breaks
// ---------------------------------------------------------------------------

/// What the top level of the text holds, in order.
pub enum TopItem {
    Block(BlockV),
    Break,
    Directive(DirectiveV),
}

/// What HTML text that asks `m` of the presenter adds, found at `span`.
pub open spec fn marker_items(m: Option<MarkerV>, span: SourceSpan) -> Seq<TopItem> {
    match m {
        Some(MarkerV::SlideBreak) => seq![TopItem::Break],
        Some(MarkerV::Directive { name, args }) => seq![
            TopItem::Directive(DirectiveV { name, args, span }),
        ],
        None => Seq::empty(),
    }
}

/// The top-level items from event `i` on, after `acc`: a thematic break or
/// the slide-break marker ends a slide, a directive comment is a directive,
/// other HTML is ignored, and each block that opens at the top level is read
/// with [`block_at`].
pub open spec fn tops(
    evs: Seq<MdItem>,
    es: Seq<OffsetEntry>,
    ms: Seq<(usize, ImageMetaV)>,
    i: int,
    acc: Seq<TopItem>,
) -> Seq<TopItem>
    decreases evs.len() - i,
{
    if i < 0 || i >= evs.len() {
        acc
    } else {
        match evs[i].event {
            MdEvent::Rule => tops(evs, es, ms, i + 1, acc.push(TopItem::Break)),
            MdEvent::Html(h) => tops(
                evs,
                es,
                ms,
                i + 1,
                acc + marker_items(spec_marker(encode_utf8(h@)), span_of(evs, es, i, i)),
            ),
            MdEvent::InlineHtml(h) => tops(
                evs,
                es,
                ms,
                i + 1,
                acc + marker_items(spec_marker(encode_utf8(h@)), span_of(evs, es, i, i)),
            ),
            MdEvent::Start(MdTag::HtmlBlock) => tops(evs, es, ms, i + 1, acc),
            MdEvent::Start(_) => {
                let r = block_at(evs, es, ms, i);
                tops(
                    evs,
                    es,
                    ms,
                    forward(evs.len() as int, i, r.1),
                    match r.0 {
                        Some(b) => acc.push(TopItem::Block(b)),
                        None => acc,
                    },
                )
            },
            _ => tops(evs, es, ms, i + 1, acc),
        }
    }
}

// ---------------------------------------------------------------------------
// Cells, notes and slides
// ---------------------------------------------------------------------------

/// The deck being built: the deck's directives, the finished slides, and the
/// current slide's finished cells, current cell (its blocks and directives),
/// notes, directives and source range.
pub struct GState {
    pub deck_dirs: Seq<DirectiveV>,
    pub slides: Seq<SlideV>,
    pub cells: Seq<CellV>,
    pub blocks: Seq<BlockV>,
    pub cell_dirs: Seq<DirectiveV>,
    pub notes: Seq<BlockV>,
    pub slide_dirs: Seq<DirectiveV>,
    pub seen_break: bool,
    pub slide_span: Option<SourceSpan>,
}

pub open spec fn init_gstate() -> GState {
    GState {
        deck_dirs: Seq::empty(),
        slides: Seq::empty(),
        cells: Seq::empty(),
        blocks: Seq::empty(),
        cell_dirs: Seq::empty(),
        notes: Seq::empty(),
        slide_dirs: Seq::empty(),
        seen_break: false,
        slide_span: None,
    }
}

/// The current cell closed, when it holds a block.
pub open spec fn flush_cell(st: GState) -> GState {
    if st.blocks.len() == 0 {
        st
    } else {
        GState {
            cells: st.cells.push(
                CellV {
                    blocks: st.blocks,
                    directives: st.cell_dirs,
                    span: SourceSpan {
                        start: st.blocks[0].span().start,
                        end: st.blocks.last().span().end,
                    },
                },
            ),
            blocks: Seq::empty(),
            cell_dirs: Seq::empty(),
            ..st
        }
    }
}

/// The current slide closed, when it holds a cell or a note; a slide with
/// neither is not made, and its directives wait for the next one.
pub open spec fn flush_slide(st: GState) -> GState {
    if st.cells.len() == 0 && st.notes.len() == 0 {
        st
    } else {
        GState {
            slides: st.slides.push(
                SlideV {
                    cells: st.cells,
                    notes: st.notes,
                    directives: st.slide_dirs,
                    span: match st.slide_span {
                        Some(sp) => sp,
                        None => SourceSpan { start: 0, end: 0 },
                    },
                },
            ),
            cells: Seq::empty(),
            notes: Seq::empty(),
            slide_dirs: Seq::empty(),
            slide_span: None,
            ..st
        }
    }
}

/// A slide's range widened to the end of block range `b`.
pub open spec fn widen(sp: Option<SourceSpan>, b: SourceSpan) -> Option<SourceSpan> {
    match sp {
        Some(s) => Some(SourceSpan { start: s.start, end: b.end }),
        None => Some(b),
    }
}

/// The start of the line of `src` that holds offset `p`.
pub open spec fn line_start(src: Seq<u8>, p: int) -> int
    decreases p,
{
    if p <= 0 {
        0
    } else if p > src.len() {
        line_start(src, src.len() as int)
    } else if src[p - 1] == 10 {
        p
    } else {
        line_start(src, p - 1)
    }
}

/// Whether block `b` of source `src` is shown on the slide: headings, code
/// blocks and images always are; a paragraph or a list is when the source
/// line it starts on begins with a tab, and is a speaker note otherwise.
pub open spec fn visible(src: Seq<u8>, b: BlockV) -> bool {
    match b {
        BlockV::Paragraph { .. } | BlockV::List { .. } => {
            let ls = line_start(src, b.span().start as int);
            0 <= ls < src.len() && src[ls] == 9
        },
        _ => true,
    }
}

/// A blank line lies between offsets `a` and `b`.
pub open spec fn blank_between(ls: Seq<Line>, a: int, b: int) -> bool {
    exists|k: int| 0 <= k < ls.len() && (#[trigger] ls[k]).blank && a <= ls[k].end && ls[k].start < b
}

/// The deck after one more top-level item: a shown block joins the current
/// cell, or starts a new one when a blank line parts it from the cell's last
/// block; a note joins the slide's notes; a directive goes to the current
/// cell when it holds a block, else to the deck before the first slide
/// break, else to the current slide; a break closes the cell and the slide.
pub open spec fn gstep(src: Seq<u8>, ls: Seq<Line>, st: GState, item: TopItem) -> GState {
    match item {
        TopItem::Block(b) => if visible(src, b) {
            let st1 = if st.blocks.len() > 0 && blank_between(
                ls,
                st.blocks.last().span().end as int,
                b.span().start as int,
            ) {
                flush_cell(st)
            } else {
                st
            };
            GState { blocks: st1.blocks.push(b), slide_span: widen(st1.slide_span, b.span()), ..st1 }
        } else {
            GState { notes: st.notes.push(b), slide_span: widen(st.slide_span, b.span()), ..st }
        },
        TopItem::Directive(d) => if st.blocks.len() > 0 {
            GState { cell_dirs: st.cell_dirs.push(d), ..st }
        } else if !st.seen_break {
            GState { deck_dirs: st.deck_dirs.push(d), ..st }
        } else {
            GState { slide_dirs: st.slide_dirs.push(d), ..st }
        },
        TopItem::Break => GState { seen_break: true, ..flush_slide(flush_cell(st)) },
    }
}

/// The deck state after the items `items`.
pub open spec fn group(src: Seq<u8>, ls: Seq<Line>, items: Seq<TopItem>) -> GState
    decreases items.len(),
{
    if items.len() == 0 {
        init_gstate()
    } else {
        gstep(src, ls, group(src, ls, items.drop_last()), items.last())
    }
}

/// The deck made of the top-level items `items` of source `src` with lines
/// `ls`: every item placed, then the last cell and slide closed.
pub open spec fn spec_deck(src: Seq<u8>, ls: Seq<Line>, items: Seq<TopItem>) -> DeckV {
    let st = flush_slide(flush_cell(group(src, ls, items)));
    DeckV { slides: st.slides, directives: st.deck_dirs }
}

/// Every slide holds a cell or a note, and every cell holds a block.
pub open spec fn no_empty_parts(ss: Seq<SlideV>) -> bool {
    forall|k: int|
        0 <= k < ss.len() ==> ((#[trigger] ss[k]).cells.len() > 0 || ss[k].notes.len() > 0) && forall|
            c: int,
        |
            0 <= c < ss[k].cells.len() ==> (#[trigger] ss[k].cells[c]).blocks.len() > 0
}

/// Cell `c` holds a block, and its range runs from its first block's start
/// to its last block's end.
pub open spec fn cell_spans_blocks(c: CellV) -> bool {
    &&& c.blocks.len() > 0
    &&& c.span == SourceSpan { start: c.blocks[0].span().start, end: c.blocks.last().span().end }
}

/// Every cell of every slide of `ss` spans its blocks.
pub open spec fn cells_span_blocks(ss: Seq<SlideV>) -> bool {
    forall|k: int, c: int|
        0 <= k < ss.len() && 0 <= c < ss[k].cells.len() ==> cell_spans_blocks(
            #[trigger] ss[k].cells[c],
        )
}

/// A slide with no speaker note runs from its first cell's start to its
/// last cell's end.
pub open spec fn slide_spans_cells(sl: SlideV) -> bool {
    sl.notes.len() == 0 && sl.cells.len() > 0 ==> sl.span == SourceSpan {
        start: sl.cells[0].span.start,
        end: sl.cells.last().span.end,
    }
}

/// The range of the slide being built, when it has no note: from its first
/// cell or block to its last.
spec fn open_slide_span_ok(st: GState) -> bool {
    st.notes.len() == 0 ==> if st.cells.len() == 0 && st.blocks.len() == 0 {
        st.slide_span is None
    } else {
        st.slide_span == Some(
            SourceSpan {
                start: if st.cells.len() > 0 {
                    st.cells[0].span.start
                } else {
                    st.blocks[0].span().start
                },
                end: if st.blocks.len() > 0 {
                    st.blocks.last().span().end
                } else {
                    st.cells.last().span.end
                },
            },
        )
    }
}

spec fn gstate_ok(st: GState) -> bool {
    &&& no_empty_parts(st.slides)
    &&& forall|c: int| 0 <= c < st.cells.len() ==> (#[trigger] st.cells[c]).blocks.len() > 0
    &&& cells_span_blocks(st.slides)
    &&& forall|c: int| 0 <= c < st.cells.len() ==> cell_spans_blocks(#[trigger] st.cells[c])
    &&& forall|k: int| 0 <= k < st.slides.len() ==> slide_spans_cells(#[trigger] st.slides[k])
    &&& open_slide_span_ok(st)
}

proof fn lemma_flush_ok(st: GState)
    requires
        gstate_ok(st),
    ensures
        gstate_ok(flush_cell(st)),
        gstate_ok(flush_slide(flush_cell(st))),
{
    let s1 = flush_cell(st);
    assert(gstate_ok(s1));
    let s2 = flush_slide(s1);
    if !(s1.cells.len() == 0 && s1.notes.len() == 0) {
        assert forall|k: int| 0 <= k < s2.slides.len() implies ((#[trigger] s2.slides[k]).cells.len()
            > 0 || s2.slides[k].notes.len() > 0) && forall|c: int|
            0 <= c < s2.slides[k].cells.len() ==> (#[trigger] s2.slides[k].cells[c]).blocks.len()
                > 0 by {
            if k < s1.slides.len() {
                assert(s2.slides[k] == s1.slides[k]);
            }
        }
        assert forall|k: int| 0 <= k < s2.slides.len() implies slide_spans_cells(
            #[trigger] s2.slides[k],
        ) by {
            if k < s1.slides.len() {
                assert(s2.slides[k] == s1.slides[k]);
            }
        }
        assert forall|k: int, c: int|
            0 <= k < s2.slides.len() && 0 <= c < s2.slides[k].cells.len() implies cell_spans_blocks(
            #[trigger] s2.slides[k].cells[c],
        ) by {
            if k < s1.slides.len() {
                assert(s2.slides[k] == s1.slides[k]);
            }
        }
    }
}

proof fn lemma_group_ok(src: Seq<u8>, ls: Seq<Line>, items: Seq<TopItem>)
    ensures
        gstate_ok(group(src, ls, items)),
    decreases items.len(),
{
    if items.len() > 0 {
        let st = group(src, ls, items.drop_last());
        lemma_group_ok(src, ls, items.drop_last());
        lemma_flush_ok(st);
    }
}

/// A deck has no empty slide and no empty cell: slide breaks with nothing
/// between them (leading, trailing or repeated rules, runs of blank lines)
/// make no slide, and a cell only ever closes with a block in it.
pub proof fn lemma_deck_has_no_empty_parts(src: Seq<u8>, ls: Seq<Line>, items: Seq<TopItem>)
    ensures
        no_empty_parts(spec_deck(src, ls, items).slides),
{
    lemma_group_ok(src, ls, items);
    lemma_flush_ok(group(src, ls, items));
}

/// Every cell of a deck runs from its first block's start to its last
/// block's end.
pub proof fn lemma_deck_cells_span_blocks(src: Seq<u8>, ls: Seq<Line>, items: Seq<TopItem>)
    ensures
        cells_span_blocks(spec_deck(src, ls, items).slides),
{
    lemma_group_ok(src, ls, items);
    lemma_flush_ok(group(src, ls, items));
}

/// A slide of a deck with no speaker note runs from its first cell's start
/// to its last cell's end.
pub proof fn lemma_deck_slides_span_cells(src: Seq<u8>, ls: Seq<Line>, items: Seq<TopItem>)
    ensures
        forall|k: int|
            0 <= k < spec_deck(src, ls, items).slides.len() ==> slide_spans_cells(
                #[trigger] spec_deck(src, ls, items).slides[k],
            ),
{
    lemma_group_ok(src, ls, items);
    lemma_flush_ok(group(src, ls, items));
}

// ---------------------------------------------------------------------------
// Source ranges lie within the source
// ---------------------------------------------------------------------------

/// Range `sp` ends within the first `n` bytes.
pub open spec fn span_in(sp: SourceSpan, n: nat) -> bool {
    sp.start <= n && sp.end <= n
}

/// The range of block `b`, and those of the items and blocks of a list, end
/// within the first `n` bytes.
pub open spec fn block_in(b: BlockV, n: nat) -> bool
    decreases b,
{
    &&& span_in(b.span(), n)
    &&& match b {
        BlockV::List { items, .. } => forall|k: int|
            0 <= k < items.len() ==> span_in(items[k].span, n) && forall|j: int|
                0 <= j < items[k].blocks.len() ==> block_in(#[trigger] items[k].blocks[j], n),
        _ => true,
    }
}

pub open spec fn blocks_in(bs: Seq<BlockV>, n: nat) -> bool {
    forall|j: int| 0 <= j < bs.len() ==> block_in(#[trigger] bs[j], n)
}

pub open spec fn items_in(items: Seq<ListItemV>, n: nat) -> bool {
    forall|k: int|
        0 <= k < items.len() ==> span_in((#[trigger] items[k]).span, n) && blocks_in(items[k].blocks, n)
}

/// Every range in deck `d` (of its slides, cells and blocks, list items
/// included) ends within the first `n` bytes.
pub open spec fn deck_in(d: DeckV, n: nat) -> bool {
    forall|k: int|
        0 <= k < d.slides.len() ==> {
            &&& span_in((#[trigger] d.slides[k]).span, n)
            &&& blocks_in(d.slides[k].notes, n)
            &&& forall|c: int|
                0 <= c < d.slides[k].cells.len() ==> span_in((#[trigger] d.slides[k].cells[c]).span, n)
                    && blocks_in(d.slides[k].cells[c].blocks, n)
        }
}

/// Every offset of every event maps back within the first `n` bytes.
pub open spec fn events_in(evs: Seq<MdItem>, es: Seq<OffsetEntry>, n: nat) -> bool {
    forall|k: int|
        0 <= k < evs.len() ==> to_orig((#[trigger] evs[k]).start as int, es) <= n && to_orig(
            evs[k].end as int,
            es,
        ) <= n
}

proof fn lemma_span_of_in(evs: Seq<MdItem>, es: Seq<OffsetEntry>, i: int, j: int, n: nat)
    requires
        events_in(evs, es, n),
        0 <= i < evs.len(),
    ensures
        span_in(span_of(evs, es, i, j), n),
{
    assert(to_orig(evs[i].start as int, es) <= n);
    if 0 <= j < evs.len() {
        assert(to_orig(evs[j].end as int, es) <= n);
    }
}

proof fn lemma_items_in_push(items: Seq<ListItemV>, it: ListItemV, n: nat)
    requires
        items_in(items, n),
        span_in(it.span, n),
        blocks_in(it.blocks, n),
    ensures
        items_in(items.push(it), n),
{
    assert forall|k: int| 0 <= k < items.push(it).len() implies span_in((#[trigger] items.push(it)[k]).span, n)
        && blocks_in(items.push(it)[k].blocks, n) by {
        if k < items.len() {
            assert(items.push(it)[k] == items[k]);
        }
    }
}

proof fn lemma_blocks_in_push(bs: Seq<BlockV>, b: BlockV, n: nat)
    requires
        blocks_in(bs, n),
        block_in(b, n),
    ensures
        blocks_in(bs.push(b), n),
{
    assert forall|j: int| 0 <= j < bs.push(b).len() implies block_in(#[trigger] bs.push(b)[j], n) by {
        if j < bs.len() {
            assert(bs.push(b)[j] == bs[j]);
        }
    }
}

proof fn lemma_block_at_in(evs: Seq<MdItem>, es: Seq<OffsetEntry>, ms: Seq<(usize, ImageMetaV)>, i: int, n: nat)
    requires
        events_in(evs, es, n),
    ensures
        block_at(evs, es, ms, i).0 matches Some(b) ==> block_in(b, n),
    decreases evs.len() - i, 1int,
{
    if 0 <= i < evs.len() {
        match evs[i].event {
            MdEvent::Start(tag) => match tag {
                MdTag::Paragraph => {
                    let r = inl(evs, i + 1, false, Seq::empty(), Seq::empty());
                    lemma_span_of_in(evs, es, i, r.2, n);
                },
                MdTag::Heading(l) => {
                    let r = inl(evs, i + 1, false, Seq::empty(), Seq::empty());
                    lemma_span_of_in(evs, es, i, r.2, n);
                },
                MdTag::List(o) => {
                    lemma_list_items_in(evs, es, ms, i + 1, Seq::empty(), n);
                    let r = list_items(evs, es, ms, i + 1, Seq::empty());
                    lemma_span_of_in(evs, es, i, r.1, n);
                    let b = BlockV::List { ordered: o, items: r.0, span: span_of(evs, es, i, r.1) };
                    assert(items_in(r.0, n));
                    assert forall|k: int| 0 <= k < r.0.len() implies span_in(r.0[k].span, n) && forall|j: int|
                        0 <= j < r.0[k].blocks.len() ==> block_in(#[trigger] r.0[k].blocks[j], n) by {
                        assert(span_in(r.0[k].span, n) && blocks_in(r.0[k].blocks, n));
                    }
                    assert(block_in(b, n));
                },
                MdTag::CodeBlock(info) => {
                    let r = code_text(evs, i + 1, Seq::empty());
                    lemma_span_of_in(evs, es, i, r.1, n);
                },
                _ => {},
            },
            _ => {},
        }
    }
}

proof fn lemma_list_items_in(
    evs: Seq<MdItem>,
    es: Seq<OffsetEntry>,
    ms: Seq<(usize, ImageMetaV)>,
    i: int,
    acc: Seq<ListItemV>,
    n: nat,
)
    requires
        events_in(evs, es, n),
        items_in(acc, n),
    ensures
        items_in(list_items(evs, es, ms, i, acc).0, n),
    decreases evs.len() - i, 0int,
{
    if 0 <= i < evs.len() {
        let len = evs.len() as int;
        match evs[i].event {
            MdEvent::End => {},
            MdEvent::Start(MdTag::Item) => {
                lemma_item_blocks_in(evs, es, ms, i + 1, Seq::empty(), n);
                let r = item_blocks(evs, es, ms, i + 1, Seq::empty());
                lemma_span_of_in(evs, es, i, r.1, n);
                let it = ListItemV { blocks: r.0, span: span_of(evs, es, i, r.1) };
                lemma_items_in_push(acc, it, n);
                lemma_list_items_in(evs, es, ms, after(len, i, r.1), acc.push(it), n);
            },
            MdEvent::Start(_) => {
                lemma_list_items_in(evs, es, ms, after(len, i, group_end(evs, i + 1)), acc, n);
            },
            _ => {
                lemma_list_items_in(evs, es, ms, i + 1, acc, n);
            },
        }
    }
}

proof fn lemma_item_blocks_in(
    evs: Seq<MdItem>,
    es: Seq<OffsetEntry>,
    ms: Seq<(usize, ImageMetaV)>,
    i: int,
    acc: Seq<BlockV>,
    n: nat,
)
    requires
        events_in(evs, es, n),
        blocks_in(acc, n),
    ensures
        blocks_in(item_blocks(evs, es, ms, i, acc).0, n),
    decreases evs.len() - i, 2int,
{
    if 0 <= i < evs.len() {
        let len = evs.len() as int;
        match evs[i].event {
            MdEvent::End => {},
            MdEvent::Start(tag) if !is_inline_tag(tag) => {
                lemma_block_at_in(evs, es, ms, i, n);
                let r = block_at(evs, es, ms, i);
                let acc2 = match r.0 {
                    Some(b) => acc.push(b),
                    None => acc,
                };
                if let Some(b) = r.0 {
                    lemma_blocks_in_push(acc, b, n);
                }
                lemma_item_blocks_in(evs, es, ms, forward(len, i, r.1), acc2, n);
            },
            _ => {
                let r = inl(evs, i, true, Seq::empty(), Seq::empty());
                let next = forward(len, i, r.2);
                let acc2 = if r.0.len() > 0 {
                    acc.push(
                        BlockV::Paragraph {
                            spans: r.0,
                            span: SourceSpan {
                                start: to_orig(evs[i].start as int, es),
                                end: to_orig(evs[next - 1].end as int, es),
                            },
                        },
                    )
                } else {
                    acc
                };
                if r.0.len() > 0 {
                    assert(to_orig(evs[next - 1].end as int, es) <= n);
                    assert(to_orig(evs[i].start as int, es) <= n);
                    lemma_blocks_in_push(
                        acc,
                        BlockV::Paragraph {
                            spans: r.0,
                            span: SourceSpan {
                                start: to_orig(evs[i].start as int, es),
                                end: to_orig(evs[next - 1].end as int, es),
                            },
                        },
                        n,
                    );
                }
                lemma_item_blocks_in(evs, es, ms, next, acc2, n);
            },
        }
    }
}

/// Every block among the items `items` has its ranges within `n` bytes.
pub open spec fn tops_in(items: Seq<TopItem>, n: nat) -> bool {
    forall|k: int| 0 <= k < items.len() ==> ((#[trigger] items[k]) matches TopItem::Block(b) ==> block_in(b, n))
}

proof fn lemma_tops_in(evs: Seq<MdItem>, es: Seq<OffsetEntry>, ms: Seq<(usize, ImageMetaV)>, i: int, acc: Seq<TopItem>, n: nat)
    requires
        events_in(evs, es, n),
        tops_in(acc, n),
    ensures
        tops_in(tops(evs, es, ms, i, acc), n),
    decreases evs.len() - i,
{
    if 0 <= i < evs.len() {
        match evs[i].event {
            MdEvent::Rule => {
                let a2 = acc.push(TopItem::Break);
                assert forall|k: int| 0 <= k < a2.len() implies ((#[trigger] a2[k]) matches TopItem::Block(b) ==> block_in(b, n)) by {
                    if k < acc.len() {
                        assert(a2[k] == acc[k]);
                    }
                }
                lemma_tops_in(evs, es, ms, i + 1, a2, n);
            },
            MdEvent::Html(h) => {
                let a2 = acc + marker_items(spec_marker(encode_utf8(h@)), span_of(evs, es, i, i));
                assert forall|k: int| 0 <= k < a2.len() implies ((#[trigger] a2[k]) matches TopItem::Block(b) ==> block_in(b, n)) by {
                    if k < acc.len() {
                        assert(a2[k] == acc[k]);
                    }
                }
                lemma_tops_in(evs, es, ms, i + 1, a2, n);
            },
            MdEvent::InlineHtml(h) => {
                let a2 = acc + marker_items(spec_marker(encode_utf8(h@)), span_of(evs, es, i, i));
                assert forall|k: int| 0 <= k < a2.len() implies ((#[trigger] a2[k]) matches TopItem::Block(b) ==> block_in(b, n)) by {
                    if k < acc.len() {
                        assert(a2[k] == acc[k]);
                    }
                }
                lemma_tops_in(evs, es, ms, i + 1, a2, n);
            },
            MdEvent::Start(MdTag::HtmlBlock) => {
                lemma_tops_in(evs, es, ms, i + 1, acc, n);
            },
            MdEvent::Start(_) => {
                lemma_block_at_in(evs, es, ms, i, n);
                let r = block_at(evs, es, ms, i);
                let a2 = match r.0 {
                    Some(b) => acc.push(TopItem::Block(b)),
                    None => acc,
                };
                assert forall|k: int| 0 <= k < a2.len() implies ((#[trigger] a2[k]) matches TopItem::Block(b) ==> block_in(b, n)) by {
                    if k < acc.len() {
                        assert(a2[k] == acc[k]);
                    }
                }
                lemma_tops_in(evs, es, ms, forward(evs.len() as int, i, r.1), a2, n);
            },
            _ => {
                lemma_tops_in(evs, es, ms, i + 1, acc, n);
            },
        }
    }
}

/// The ranges of the deck being built end within `n` bytes.
spec fn gstate_in(st: GState, n: nat) -> bool {
    &&& deck_in(DeckV { slides: st.slides, directives: st.deck_dirs }, n)
    &&& forall|c: int| 0 <= c < st.cells.len() ==> span_in((#[trigger] st.cells[c]).span, n) && blocks_in(st.cells[c].blocks, n)
    &&& blocks_in(st.blocks, n)
    &&& blocks_in(st.notes, n)
    &&& (st.slide_span matches Some(sp) ==> span_in(sp, n))
}

proof fn lemma_flush_in(st: GState, n: nat)
    requires
        gstate_in(st, n),
    ensures
        gstate_in(flush_cell(st), n),
        gstate_in(flush_slide(flush_cell(st)), n),
{
    let s1 = flush_cell(st);
    if st.blocks.len() > 0 {
        assert(block_in(st.blocks[0], n));
        assert(block_in(st.blocks[st.blocks.len() - 1], n));
        assert forall|c: int| 0 <= c < s1.cells.len() implies span_in((#[trigger] s1.cells[c]).span, n) && blocks_in(s1.cells[c].blocks, n) by {
            if c < st.cells.len() {
                assert(s1.cells[c] == st.cells[c]);
            }
        }
    }
    assert(gstate_in(s1, n));
    let s2 = flush_slide(s1);
    if !(s1.cells.len() == 0 && s1.notes.len() == 0) {
        let d2 = DeckV { slides: s2.slides, directives: s2.deck_dirs };
        assert forall|k: int| 0 <= k < d2.slides.len() implies {
            &&& span_in((#[trigger] d2.slides[k]).span, n)
            &&& blocks_in(d2.slides[k].notes, n)
            &&& forall|c: int|
                0 <= c < d2.slides[k].cells.len() ==> span_in((#[trigger] d2.slides[k].cells[c]).span, n)
                    && blocks_in(d2.slides[k].cells[c].blocks, n)
        } by {
            if k < s1.slides.len() {
                assert(d2.slides[k] == s1.slides[k]);
            }
        }
    }
}

proof fn lemma_group_in(src: Seq<u8>, ls: Seq<Line>, items: Seq<TopItem>, n: nat)
    requires
        tops_in(items, n),
    ensures
        gstate_in(group(src, ls, items), n),
    decreases items.len(),
{
    if items.len() > 0 {
        let front = items.drop_last();
        assert forall|k: int| 0 <= k < front.len() implies ((#[trigger] front[k]) matches TopItem::Block(b) ==> block_in(b, n)) by {
            assert(front[k] == items[k]);
        }
        lemma_group_in(src, ls, front, n);
        let st = group(src, ls, front);
        lemma_flush_in(st, n);
        let item = items.last();
        assert(item == items[items.len() - 1]);
        match item {
            TopItem::Block(b) => {
                assert(block_in(b, n));
                let st1 = if st.blocks.len() > 0 && blank_between(ls, st.blocks.last().span().end as int, b.span().start as int) {
                    flush_cell(st)
                } else {
                    st
                };
                lemma_blocks_in_push(st1.blocks, b, n);
                lemma_blocks_in_push(st.notes, b, n);
            },
            _ => {},
        }
    }
}

/// Every range of the deck that items `items` make ends within `n` bytes,
/// when every block among the items does.
pub proof fn lemma_deck_in(src: Seq<u8>, ls: Seq<Line>, items: Seq<TopItem>, n: nat)
    requires
        tops_in(items, n),
    ensures
        deck_in(spec_deck(src, ls, items), n),
{
    lemma_group_in(src, ls, items, n);
    lemma_flush_in(group(src, ls, items), n);
}

/// Every range of a deck made of events `evs` ends within `n` bytes, when
/// every event offset maps back there.
pub proof fn lemma_deck_of_in(
    evs: Seq<MdItem>,
    es: Seq<OffsetEntry>,
    ms: Seq<(usize, ImageMetaV)>,
    ls: Seq<Line>,
    src: Seq<u8>,
    n: nat,
)
    requires
        events_in(evs, es, n),
    ensures
        deck_of(evs, es, ms, ls, src) matches Ok(d) ==> deck_in(d, n),
{
    lemma_tops_in(evs, es, ms, 0, Seq::empty(), n);
    lemma_deck_in(src, ls, tops(evs, es, ms, 0, Seq::empty()), n);
}

/// What the events `evs` make: an error at the first indented code block,
/// which decks do not support, else the deck of the top-level items.
pub open spec fn deck_of(
    evs: Seq<MdItem>,
    es: Seq<OffsetEntry>,
    ms: Seq<(usize, ImageMetaV)>,
    ls: Seq<Line>,
    src: Seq<u8>,
) -> Result<DeckV, ParseErrorV> {
    match first_indented(evs, 0) {
        Some(k) => Err(ParseErrorV::UnsupportedIndentedCodeBlock { span: span_of(evs, es, k, k) }),
        None => Ok(spec_deck(src, ls, tops(evs, es, ms, 0, Seq::empty()))),
    }
}

/// The first indented code block from event `i` on, if any.
pub open spec fn first_indented(evs: Seq<MdItem>, i: int) -> Option<int>
    decreases evs.len() - i,
{
    if i < 0 || i >= evs.len() {
        None
    } else if evs[i].event == MdEvent::Start(MdTag::CodeBlock(None)) {
        Some(i)
    } else {
        first_indented(evs, i + 1)
    }
}

/// The deck being built, as [`GState`] describes it.
struct Grouper {
    deck_dirs: Vec<Directive>,
    slides: Vec<Slide>,
    cells: Vec<Cell>,
    blocks: Vec<Block>,
    cell_dirs: Vec<Directive>,
    notes: Vec<Block>,
    slide_dirs: Vec<Directive>,
    seen_break: bool,
    slide_span: Option<SourceSpan>,
}

spec fn gv(g: &Grouper) -> GState {
    GState {
        deck_dirs: directives_v(g.deck_dirs@),
        slides: g.slides@.map_values(|s: Slide| slide_v(s)),
        cells: g.cells@.map_values(|c: Cell| cell_v(c)),
        blocks: blocks_v(g.blocks@),
        cell_dirs: directives_v(g.cell_dirs@),
        notes: blocks_v(g.notes@),
        slide_dirs: directives_v(g.slide_dirs@),
        seen_break: g.seen_break,
        slide_span: g.slide_span,
    }
}

fn new_grouper() -> (g: Grouper)
    ensures
        gv(&g) == init_gstate(),
{
    let g = Grouper {
        deck_dirs: Vec::new(),
        slides: Vec::new(),
        cells: Vec::new(),
        blocks: Vec::new(),
        cell_dirs: Vec::new(),
        notes: Vec::new(),
        slide_dirs: Vec::new(),
        seen_break: false,
        slide_span: None,
    };
    assert(gv(&g) =~= init_gstate()) by {
        assert(blocks_v(g.blocks@) =~= Seq::<BlockV>::empty());
        assert(blocks_v(g.notes@) =~= Seq::<BlockV>::empty());
        assert(directives_v(g.deck_dirs@) =~= Seq::<DirectiveV>::empty());
        assert(directives_v(g.cell_dirs@) =~= Seq::<DirectiveV>::empty());
        assert(directives_v(g.slide_dirs@) =~= Seq::<DirectiveV>::empty());
        assert(g.slides@.map_values(|s: Slide| slide_v(s)) =~= Seq::<SlideV>::empty());
        assert(g.cells@.map_values(|c: Cell| cell_v(c)) =~= Seq::<CellV>::empty());
    }
    g
}

fn flush_cell_exec(g: &mut Grouper)
    ensures
        gv(final(g)) == flush_cell(gv(old(g))),
{
    let n = g.blocks.len();
    if n == 0 {
        return ;
    }
    proof {
        super::ast::lemma_blocks_v_index(g.blocks@, 0);
        super::ast::lemma_blocks_v_index(g.blocks@, n - 1);
    }
    let span = SourceSpan { start: g.blocks[0].span().start, end: g.blocks[n - 1].span().end };
    let mut blocks: Vec<Block> = Vec::new();
    let mut dirs: Vec<Directive> = Vec::new();
    std::mem::swap(&mut blocks, &mut g.blocks);
    std::mem::swap(&mut dirs, &mut g.cell_dirs);
    let c = Cell { blocks, directives: dirs, span };
    let ghost cs = g.cells@;
    g.cells.push(c);
    proof {
        assert(cs.push(c).map_values(|c: Cell| cell_v(c)) =~= cs.map_values(|c: Cell| cell_v(c)).push(cell_v(c)));
        assert(blocks_v(g.blocks@) =~= Seq::<BlockV>::empty());
        assert(directives_v(g.cell_dirs@) =~= Seq::<DirectiveV>::empty());
    }
}

fn flush_slide_exec(g: &mut Grouper)
    ensures
        gv(final(g)) == flush_slide(gv(old(g))),
{
    proof {
        super::ast::lemma_blocks_v_len(g.notes@);
    }
    if g.cells.len() == 0 && g.notes.len() == 0 {
        return ;
    }
    let span = match g.slide_span {
        Some(sp) => sp,
        None => SourceSpan { start: 0, end: 0 },
    };
    let mut cells: Vec<Cell> = Vec::new();
    let mut notes: Vec<Block> = Vec::new();
    let mut dirs: Vec<Directive> = Vec::new();
    std::mem::swap(&mut cells, &mut g.cells);
    std::mem::swap(&mut notes, &mut g.notes);
    std::mem::swap(&mut dirs, &mut g.slide_dirs);
    let sl = Slide { cells, notes, directives: dirs, span };
    let ghost ss = g.slides@;
    g.slides.push(sl);
    g.slide_span = None;
    proof {
        assert(ss.push(sl).map_values(|s: Slide| slide_v(s)) =~= ss.map_values(|s: Slide| slide_v(s)).push(slide_v(sl)));
        assert(blocks_v(g.notes@) =~= Seq::<BlockV>::empty());
        assert(directives_v(g.slide_dirs@) =~= Seq::<DirectiveV>::empty());
        assert(g.cells@.map_values(|c: Cell| cell_v(c)) =~= Seq::<CellV>::empty());
    }
}

fn brk(g: &mut Grouper)
    ensures
        gv(final(g)) == (GState { seen_break: true, ..flush_slide(flush_cell(gv(old(g)))) }),
{
    flush_cell_exec(g);
    flush_slide_exec(g);
    g.seen_break = true;
}

fn add_directive(g: &mut Grouper, d: Directive)
    ensures
        forall|src: Seq<u8>, ls: Seq<Line>|
            gv(final(g)) == #[trigger] gstep(src, ls, gv(old(g)), TopItem::Directive(directive_v(d))),
{
    proof {
        super::ast::lemma_blocks_v_len(g.blocks@);
    }
    if g.blocks.len() > 0 {
        let ghost ds = g.cell_dirs@;
        g.cell_dirs.push(d);
        assert(directives_v(ds.push(d)) =~= directives_v(ds).push(directive_v(d)));
    } else if !g.seen_break {
        let ghost ds = g.deck_dirs@;
        g.deck_dirs.push(d);
        assert(directives_v(ds.push(d)) =~= directives_v(ds).push(directive_v(d)));
    } else {
        let ghost ds = g.slide_dirs@;
        g.slide_dirs.push(d);
        assert(directives_v(ds.push(d)) =~= directives_v(ds).push(directive_v(d)));
    }
}

fn line_start_exec(src: &[u8], p: usize) -> (r: usize)
    ensures
        r == line_start(src@, p as int),
        r <= src@.len(),
{
    let mut q = if p > src.len() {
        src.len()
    } else {
        p
    };
    while q > 0 && src[q - 1] != 10
        invariant
            q <= src@.len(),
            line_start(src@, p as int) == line_start(src@, q as int),
        decreases q,
    {
        q = q - 1;
    }
    q
}

fn visible_exec(src: &[u8], b: &Block) -> (r: bool)
    ensures
        r == visible(src@, block_v(*b)),
{
    match b {
        Block::Paragraph { span, .. } | Block::List { span, .. } => {
            let ls = line_start_exec(src, span.start);
            ls < src.len() && src[ls] == 9
        },
        _ => true,
    }
}

fn blank_between_exec(lines: &Vec<Line>, a: usize, b: usize) -> (r: bool)
    ensures
        r == blank_between(lines@, a as int, b as int),
{
    let mut k: usize = 0;
    while k < lines.len()
        invariant
            k <= lines@.len(),
            forall|j: int|
                0 <= j < k ==> !((#[trigger] lines@[j]).blank && a <= lines@[j].end && lines@[j].start
                    < b),
        decreases lines@.len() - k,
    {
        let l = lines[k];
        if l.blank && a <= l.end && l.start < b {
            return true;
        }
        k = k + 1;
    }
    false
}

fn add_block(g: &mut Grouper, b: Block, src: &[u8], lines: &Vec<Line>)
    ensures
        gv(final(g)) == gstep(src@, lines@, gv(old(g)), TopItem::Block(block_v(b))),
{
    let sp = b.span();
    assert(block_v(b).span() == sp);
    proof {
        super::ast::lemma_blocks_v_len(g.blocks@);
    }
    if visible_exec(src, &b) {
        let n = g.blocks.len();
        if n > 0 {
            proof {
                super::ast::lemma_blocks_v_index(g.blocks@, n - 1);
            }
            let last_end = g.blocks[n - 1].span().end;
            if blank_between_exec(lines, last_end, sp.start) {
                flush_cell_exec(g);
            }
        }
        let ghost bs = g.blocks@;
        g.blocks.push(b);
        proof {
            lemma_blocks_v_push(bs, b);
        }
    } else {
        let ghost ns = g.notes@;
        g.notes.push(b);
        proof {
            lemma_blocks_v_push(ns, b);
        }
    }
    g.slide_span = match g.slide_span {
        Some(s) => Some(SourceSpan { start: s.start, end: sp.end }),
        None => Some(sp),
    };
}

/// The deck that the events `evs` of the rewritten text make, with the
/// rewrites `out.entries`, the image metadata `out.image_metas` and the
/// source's lines `out.lines` from the prepass of `source`: an error at the
/// first indented code block, else the deck of [`spec_deck`] over the
/// top-level items of [`tops`], with its source.
pub fn fold_events(out: &PrepassOutput, source: &str, evs: &Vec<MdItem>) -> (r: Result<
    SlideDeck,
    ParseError,
>)
    ensures
        match r {
            Ok(d) => deck_of(
                evs@,
                out.entries@,
                metas_view(out.image_metas@),
                out.lines@,
                source.spec_bytes(),
            ) == Ok::<DeckV, ParseErrorV>(deck_v(d)) && d.source@ == source@,
            Err(e) => deck_of(
                evs@,
                out.entries@,
                metas_view(out.image_metas@),
                out.lines@,
                source.spec_bytes(),
            ) == Err::<DeckV, ParseErrorV>(e@),
        },
{
    let n = evs.len();
    let es = &out.entries;
    let ms = &out.image_metas;
    let mut k: usize = 0;
    while k < n
        invariant
            n == evs@.len(),
            k <= n,
            es == &out.entries,
            first_indented(evs@, 0) == first_indented(evs@, k as int),
        decreases n - k,
    {
        let indented = match &evs[k].event {
            MdEvent::Start(MdTag::CodeBlock(None)) => true,
            _ => false,
        };
        if indented {
            return Err(ParseError::UnsupportedIndentedCodeBlock { span: span_exec(evs, es, k, k) });
        }
        k = k + 1;
    }
    let src = source.as_bytes();
    let ghost ms_v = metas_view(ms@);
    let mut g = new_grouper();
    let ghost mut produced: Seq<TopItem> = Seq::empty();
    let mut i: usize = 0;
    while i < n
        invariant
            n == evs@.len(),
            i <= n,
            es == &out.entries,
            ms == &out.image_metas,
            ms_v == metas_view(ms@),
            src@ == source.spec_bytes(),
            tops(evs@, es@, ms_v, 0, Seq::empty()) == tops(evs@, es@, ms_v, i as int, produced),
            gv(&g) == group(src@, out.lines@, produced),
        decreases n - i,
    {
        let ghost before = produced;
        let ghost st = gv(&g);
        match &evs[i].event {
            MdEvent::Rule => {
                brk(&mut g);
                proof {
                    produced = produced.push(TopItem::Break);
                    assert(produced.drop_last() =~= before);
                }
                i = i + 1;
            },
            MdEvent::Html(h) | MdEvent::InlineHtml(h) => {
                let span = span_exec(evs, es, i, i);
                let m = parse_marker(h.as_str());
                proof {
                    produced = produced + marker_items(spec_marker(encode_utf8(h@)), span);
                }
                match m {
                    Some(Marker::SlideBreak) => {
                        brk(&mut g);
                        proof {
                            assert(produced =~= before.push(TopItem::Break));
                            assert(produced.drop_last() =~= before);
                        }
                    },
                    Some(Marker::Directive { name, args }) => {
                        let d = Directive::Raw { name, args, span };
                        add_directive(&mut g, d);
                        proof {
                            assert(produced =~= before.push(TopItem::Directive(directive_v(d))));
                            assert(produced.drop_last() =~= before);
                            assert(gv(&g) == gstep(src@, out.lines@, st, TopItem::Directive(directive_v(d))));
                        }
                    },
                    None => {
                        assert(produced =~= before);
                    },
                }
                i = i + 1;
            },
            MdEvent::Start(MdTag::HtmlBlock) => {
                i = i + 1;
            },
            MdEvent::Start(_) => {
                let (b, j) = block_at_exec(evs, es, ms, i);
                match b {
                    Some(b) => {
                        proof {
                            produced = produced.push(TopItem::Block(block_v(b)));
                            assert(produced.drop_last() =~= before);
                        }
                        add_block(&mut g, b, src, &out.lines);
                    },
                    None => {},
                }
                i = forward_exec(n, i, j);
            },
            _ => {
                i = i + 1;
            },
        }
    }
    flush_cell_exec(&mut g);
    flush_slide_exec(&mut g);
    let deck = SlideDeck { slides: g.slides, directives: g.deck_dirs, source: source.to_owned() };
    Ok(deck)
}

/// The deck that the prepass output `prepass_out` of `source` makes, reading
/// the rewritten text with `pulldown-cmark`.
pub fn fold(prepass_out: &PrepassOutput, source: &str) -> (r: Result<SlideDeck, ParseError>)
    ensures
        match r {
            Ok(d) => deck_of(
                cmark_events(prepass_out.rewritten@),
                prepass_out.entries@,
                metas_view(prepass_out.image_metas@),
                prepass_out.lines@,
                source.spec_bytes(),
            ) == Ok::<DeckV, ParseErrorV>(deck_v(d)) && d.source@ == source@,
            Err(e) => deck_of(
                cmark_events(prepass_out.rewritten@),
                prepass_out.entries@,
                metas_view(prepass_out.image_metas@),
                prepass_out.lines@,
                source.spec_bytes(),
            ) == Err::<DeckV, ParseErrorV>(e@),
        },
        // When every offset of the rewritten text maps back within the
        // source, so does every range of the deck.
        r matches Ok(d) ==> ((forall|rw: int|
            0 <= rw <= prepass_out.rewritten@.len() + encode_utf8(prepass_out.rewritten@).len()
                - prepass_out.rewritten@.len() ==> #[trigger] to_orig(rw, prepass_out.entries@)
                <= source.spec_bytes().len()) ==> deck_in(deck_v(d), source.spec_bytes().len())),
{
    let evs = markdown_events(prepass_out.rewritten.as_str());
    let r = fold_events(prepass_out, source, &evs);
    proof {
        let n = source.spec_bytes().len();
        let text_len = encode_utf8(prepass_out.rewritten@).len();
        if r is Ok && (forall|rw: int|
            0 <= rw <= prepass_out.rewritten@.len() + text_len - prepass_out.rewritten@.len()
                ==> #[trigger] to_orig(rw, prepass_out.entries@) <= n) {
            assert forall|k: int| 0 <= k < evs@.len() implies to_orig((#[trigger] evs@[k]).start as int, prepass_out.entries@)
                <= n && to_orig(evs@[k].end as int, prepass_out.entries@) <= n by {
                assert(to_orig(evs@[k].start as int, prepass_out.entries@) <= n);
                assert(to_orig(evs@[k].end as int, prepass_out.entries@) <= n);
            }
            lemma_deck_of_in(
                evs@,
                prepass_out.entries@,
                metas_view(prepass_out.image_metas@),
                prepass_out.lines@,
                source.spec_bytes(),
                n,
            );
        }
    }
    r
}

} // verus!
