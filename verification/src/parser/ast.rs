use vstd::prelude::*;

verus! {

/// A half-open byte range `[start, end)` into the original deck source.
#[derive(Debug, Clone, Copy, PartialEq, Eq)]
pub struct SourceSpan {
    pub start: usize,
    pub end: usize,
}

#[derive(Debug, PartialEq, Eq)]
pub enum InlineSpan {
    Text(String),
    Strong(Vec<InlineSpan>),
    Emphasis(Vec<InlineSpan>),
    Code(String),
    Link { url: String, text: Vec<InlineSpan> },
    Image { src: String, alt: String },
}

#[derive(Debug, Clone, Copy, PartialEq, Eq)]
pub enum ImageSize {
    Contain,
    Cover,
    FitWidth,
    FitHeight,
}

#[derive(Debug, Clone, Copy, PartialEq, Eq)]
pub enum ImageAlign {
    Start,
    Center,
    End,
}

/// An opacity in `[0, 1]`, held exactly as billionths.
#[derive(Debug, Clone, Copy, PartialEq, Eq)]
pub struct Opacity {
    pub parts_per_billion: u32,
}

#[derive(Debug, Clone, PartialEq, Eq)]
pub struct ImageMeta {
    pub size: Option<ImageSize>,
    pub x: Option<ImageAlign>,
    pub y: Option<ImageAlign>,
    pub background: Option<String>,
    pub opacity: Option<Opacity>,
}

#[derive(Debug, PartialEq, Eq)]
pub struct ListItem {
    pub blocks: Vec<Block>,
    pub span: SourceSpan,
}

#[derive(Debug, PartialEq, Eq)]
pub enum Block {
    Paragraph { spans: Vec<InlineSpan>, span: SourceSpan },
    Heading { level: u8, spans: Vec<InlineSpan>, span: SourceSpan },
    List { ordered: bool, items: Vec<ListItem>, span: SourceSpan },
    CodeBlock { lang: Option<String>, source: String, span: SourceSpan },
    Image { src: String, alt: String, meta: Option<ImageMeta>, span: SourceSpan },
    Qr { url: String, span: SourceSpan },
}

impl Block {
    pub open spec fn spec_span(&self) -> SourceSpan {
        match self {
            Block::Paragraph { span, .. } => *span,
            Block::Heading { span, .. } => *span,
            Block::List { span, .. } => *span,
            Block::CodeBlock { span, .. } => *span,
            Block::Image { span, .. } => *span,
            Block::Qr { span, .. } => *span,
        }
    }

    /// The source range that the block covers.
    pub fn span(&self) -> (res: SourceSpan)
        ensures
            res == self.spec_span(),
    {
        match self {
            Block::Paragraph { span, .. } => *span,
            Block::Heading { span, .. } => *span,
            Block::List { span, .. } => *span,
            Block::CodeBlock { span, .. } => *span,
            Block::Image { span, .. } => *span,
            Block::Qr { span, .. } => *span,
        }
    }
}

#[derive(Debug, Clone, PartialEq, Eq)]
pub enum Directive {
    Raw { name: String, args: String, span: SourceSpan },
}

#[derive(Debug, PartialEq, Eq)]
pub struct Cell {
    pub blocks: Vec<Block>,
    pub directives: Vec<Directive>,
    pub span: SourceSpan,
}

#[derive(Debug, PartialEq, Eq)]
pub struct Slide {
    pub cells: Vec<Cell>,
    pub notes: Vec<Block>,
    pub directives: Vec<Directive>,
    pub span: SourceSpan,
}

#[derive(Debug, PartialEq, Eq)]
pub struct SlideDeck {
    pub slides: Vec<Slide>,
    pub directives: Vec<Directive>,
    pub source: String,
}

#[derive(Debug, Clone, PartialEq, Eq)]
pub enum ParseError {
    InvalidImageMeta { span: SourceSpan, key: String, value: String },
    UnsupportedIndentedCodeBlock { span: SourceSpan },
}


/// The value of an [`ImageMeta`], with its text as characters.
pub struct ImageMetaV {
    pub size: Option<ImageSize>,
    pub x: Option<ImageAlign>,
    pub y: Option<ImageAlign>,
    pub background: Option<Seq<char>>,
    pub opacity: Option<Opacity>,
}

impl ImageMetaV {
    pub open spec fn empty() -> ImageMetaV {
        ImageMetaV { size: None, x: None, y: None, background: None, opacity: None }
    }
}

impl View for ImageMeta {
    type V = ImageMetaV;

    open spec fn view(&self) -> ImageMetaV {
        ImageMetaV {
            size: self.size,
            x: self.x,
            y: self.y,
            background: match self.background {
                Some(b) => Some(b@),
                None => None,
            },
            opacity: self.opacity,
        }
    }
}

/// The value of a [`ParseError`], with its text as characters.
pub enum ParseErrorV {
    InvalidImageMeta { span: SourceSpan, key: Seq<char>, value: Seq<char> },
    UnsupportedIndentedCodeBlock { span: SourceSpan },
}

impl View for ParseError {
    type V = ParseErrorV;

    open spec fn view(&self) -> ParseErrorV {
        match self {
            ParseError::InvalidImageMeta { span, key, value } => ParseErrorV::InvalidImageMeta {
                span: *span,
                key: key@,
                value: value@,
            },
            ParseError::UnsupportedIndentedCodeBlock { span } =>
                ParseErrorV::UnsupportedIndentedCodeBlock { span: *span },
        }
    }
}

/// The value of an [`InlineSpan`], with its text as characters.
pub enum InlineSpanV {
    Text(Seq<char>),
    Strong(Seq<InlineSpanV>),
    Emphasis(Seq<InlineSpanV>),
    Code(Seq<char>),
    Link { url: Seq<char>, text: Seq<InlineSpanV> },
    Image { src: Seq<char>, alt: Seq<char> },
}

/// The value of inline span `s`.
pub open spec fn span_v(s: InlineSpan) -> InlineSpanV
    decreases s,
{
    match s {
        InlineSpan::Text(t) => InlineSpanV::Text(t@),
        InlineSpan::Strong(v) => InlineSpanV::Strong(spans_v(v@)),
        InlineSpan::Emphasis(v) => InlineSpanV::Emphasis(spans_v(v@)),
        InlineSpan::Code(t) => InlineSpanV::Code(t@),
        InlineSpan::Link { url, text } => InlineSpanV::Link { url: url@, text: spans_v(text@) },
        InlineSpan::Image { src, alt } => InlineSpanV::Image { src: src@, alt: alt@ },
    }
}

/// The values of the inline spans `s`.
pub open spec fn spans_v(s: Seq<InlineSpan>) -> Seq<InlineSpanV>
    decreases s,
{
    if s.len() == 0 {
        Seq::empty()
    } else {
        spans_v(s.subrange(0, s.len() - 1)).push(span_v(s[s.len() - 1]))
    }
}

/// The value of a [`ListItem`].
pub struct ListItemV {
    pub blocks: Seq<BlockV>,
    pub span: SourceSpan,
}

/// The value of a [`Block`], with its text as characters.
pub enum BlockV {
    Paragraph { spans: Seq<InlineSpanV>, span: SourceSpan },
    Heading { level: u8, spans: Seq<InlineSpanV>, span: SourceSpan },
    List { ordered: bool, items: Seq<ListItemV>, span: SourceSpan },
    CodeBlock { lang: Option<Seq<char>>, source: Seq<char>, span: SourceSpan },
    Image { src: Seq<char>, alt: Seq<char>, meta: Option<ImageMetaV>, span: SourceSpan },
    Qr { url: Seq<char>, span: SourceSpan },
}

impl BlockV {
    pub open spec fn span(self) -> SourceSpan {
        match self {
            BlockV::Paragraph { span, .. } => span,
            BlockV::Heading { span, .. } => span,
            BlockV::List { span, .. } => span,
            BlockV::CodeBlock { span, .. } => span,
            BlockV::Image { span, .. } => span,
            BlockV::Qr { span, .. } => span,
        }
    }
}

/// The value of block `b`.
pub open spec fn block_v(b: Block) -> BlockV
    decreases b,
{
    match b {
        Block::Paragraph { spans, span } => BlockV::Paragraph { spans: spans_v(spans@), span },
        Block::Heading { level, spans, span } => BlockV::Heading {
            level,
            spans: spans_v(spans@),
            span,
        },
        Block::List { ordered, items, span } => BlockV::List {
            ordered,
            items: items_v(items@),
            span,
        },
        Block::CodeBlock { lang, source, span } => BlockV::CodeBlock {
            lang: match lang {
                Some(l) => Some(l@),
                None => None,
            },
            source: source@,
            span,
        },
        Block::Image { src, alt, meta, span } => BlockV::Image {
            src: src@,
            alt: alt@,
            meta: match meta {
                Some(m) => Some(m@),
                None => None,
            },
            span,
        },
        Block::Qr { url, span } => BlockV::Qr { url: url@, span },
    }
}

/// The values of the blocks `s`.
pub open spec fn blocks_v(s: Seq<Block>) -> Seq<BlockV>
    decreases s,
{
    if s.len() == 0 {
        Seq::empty()
    } else {
        blocks_v(s.subrange(0, s.len() - 1)).push(block_v(s[s.len() - 1]))
    }
}

/// The value of list item `it`.
pub open spec fn item_v(it: ListItem) -> ListItemV
    decreases it,
{
    ListItemV { blocks: blocks_v(it.blocks@), span: it.span }
}

/// The values of the list items `s`.
pub open spec fn items_v(s: Seq<ListItem>) -> Seq<ListItemV>
    decreases s,
{
    if s.len() == 0 {
        Seq::empty()
    } else {
        items_v(s.subrange(0, s.len() - 1)).push(item_v(s[s.len() - 1]))
    }
}

pub proof fn lemma_spans_v_push(s: Seq<InlineSpan>, x: InlineSpan)
    ensures
        spans_v(s.push(x)) == spans_v(s).push(span_v(x)),
        spans_v(s).len() == s.len(),
{
    assert(s.push(x).subrange(0, s.len() as int) =~= s);
    lemma_spans_v_len(s);
}

pub proof fn lemma_spans_v_len(s: Seq<InlineSpan>)
    ensures
        spans_v(s).len() == s.len(),
    decreases s.len(),
{
    if s.len() > 0 {
        lemma_spans_v_len(s.subrange(0, s.len() - 1));
    }
}

pub proof fn lemma_blocks_v_push(s: Seq<Block>, x: Block)
    ensures
        blocks_v(s.push(x)) == blocks_v(s).push(block_v(x)),
{
    assert(s.push(x).subrange(0, s.len() as int) =~= s);
}

pub proof fn lemma_items_v_push(s: Seq<ListItem>, x: ListItem)
    ensures
        items_v(s.push(x)) == items_v(s).push(item_v(x)),
{
    assert(s.push(x).subrange(0, s.len() as int) =~= s);
}

/// The value of a [`Directive`].
pub struct DirectiveV {
    pub name: Seq<char>,
    pub args: Seq<char>,
    pub span: SourceSpan,
}

pub open spec fn directive_v(d: Directive) -> DirectiveV {
    match d {
        Directive::Raw { name, args, span } => DirectiveV { name: name@, args: args@, span },
    }
}

pub open spec fn directives_v(s: Seq<Directive>) -> Seq<DirectiveV> {
    s.map_values(|d: Directive| directive_v(d))
}

/// The value of a [`Cell`].
pub struct CellV {
    pub blocks: Seq<BlockV>,
    pub directives: Seq<DirectiveV>,
    pub span: SourceSpan,
}

pub open spec fn cell_v(c: Cell) -> CellV {
    CellV { blocks: blocks_v(c.blocks@), directives: directives_v(c.directives@), span: c.span }
}

/// The value of a [`Slide`].
pub struct SlideV {
    pub cells: Seq<CellV>,
    pub notes: Seq<BlockV>,
    pub directives: Seq<DirectiveV>,
    pub span: SourceSpan,
}

pub open spec fn slide_v(s: Slide) -> SlideV {
    SlideV {
        cells: s.cells@.map_values(|c: Cell| cell_v(c)),
        notes: blocks_v(s.notes@),
        directives: directives_v(s.directives@),
        span: s.span,
    }
}

/// The value of a [`SlideDeck`], without its source text.
pub struct DeckV {
    pub slides: Seq<SlideV>,
    pub directives: Seq<DirectiveV>,
}

pub open spec fn deck_v(d: SlideDeck) -> DeckV {
    DeckV {
        slides: d.slides@.map_values(|s: Slide| slide_v(s)),
        directives: directives_v(d.directives@),
    }
}

pub proof fn lemma_spans_v_index(s: Seq<InlineSpan>, k: int)
    requires
        0 <= k < s.len(),
    ensures
        spans_v(s).len() == s.len(),
        spans_v(s)[k] == span_v(s[k]),
    decreases s.len(),
{
    let t = s.subrange(0, s.len() - 1);
    assert(s =~= t.push(s.last()));
    lemma_spans_v_push(t, s.last());
    lemma_spans_v_len(t);
    if k < s.len() - 1 {
        lemma_spans_v_index(t, k);
    }
}

pub proof fn lemma_blocks_v_index(s: Seq<Block>, k: int)
    requires
        0 <= k < s.len(),
    ensures
        blocks_v(s).len() == s.len(),
        blocks_v(s)[k] == block_v(s[k]),
        block_v(s[k]).span() == s[k].spec_span(),
    decreases s.len(),
{
    let t = s.subrange(0, s.len() - 1);
    assert(s =~= t.push(s.last()));
    lemma_blocks_v_push(t, s.last());
    lemma_blocks_v_len(t);
    if k < s.len() - 1 {
        lemma_blocks_v_index(t, k);
    }
}

pub proof fn lemma_blocks_v_len(s: Seq<Block>)
    ensures
        blocks_v(s).len() == s.len(),
    decreases s.len(),
{
    if s.len() > 0 {
        lemma_blocks_v_len(s.subrange(0, s.len() - 1));
    }
}

} // verus!
