//! The CommonMark event stream of a text, as `pulldown-cmark` reads it with
//! no extension enabled: each event with the byte range of the text it comes
//! from.

use pulldown_cmark::{CodeBlockKind, Event, Options, Parser, Tag};
use vstd::prelude::*;
use vstd::string::StringSliceAdditionalSpecFns;

verus! {

/// The opening tags that the deck's parser tells apart.
#[derive(Debug, Clone, PartialEq, Eq)]
pub enum MdTag {
    Paragraph,
    /// A heading of level 1 to 6.
    Heading(u8),
    /// A list, ordered or not.
    List(bool),
    Item,
    /// A code block: its info string when fenced, `None` when indented.
    CodeBlock(Option<String>),
    HtmlBlock,
    Emphasis,
    Strong,
    /// A link to the URL.
    Link(String),
    /// An image of the URL.
    Image(String),
    /// Any other tag (block quotes, footnotes, ...).
    Other,
}

/// One event of the stream. Every `Start` is closed by a matching `End`,
/// the events in between being its contents.
#[derive(Debug, Clone, PartialEq, Eq)]
pub enum MdEvent {
    Start(MdTag),
    End,
    Text(String),
    Code(String),
    Html(String),
    InlineHtml(String),
    SoftBreak,
    HardBreak,
    Rule,
    Other,
}

/// An event and the byte range `start..end` of the text it comes from.
#[derive(Debug, Clone, PartialEq, Eq)]
pub struct MdItem {
    pub event: MdEvent,
    pub start: usize,
    pub end: usize,
}

#[verifier::external_type_specification]
#[verifier::external_body]
pub struct ExEvent<'a>(Event<'a>);

#[verifier::external_type_specification]
#[verifier::external_body]
pub struct ExTag<'a>(Tag<'a>);

/// The events that `pulldown-cmark`'s parser gives for `text` with
/// `Options::empty()`, in order, with their ranges.
pub uninterp spec fn cmark_events(text: Seq<char>) -> Seq<MdItem>;

/// Converts a `pulldown-cmark` tag, variant by variant.
#[verifier::external_body]
fn tag_of(t: Tag) -> MdTag {
    match t {
        Tag::Paragraph => MdTag::Paragraph,
        Tag::Heading { level, .. } => MdTag::Heading(level as u8),
        Tag::List(first) => MdTag::List(first.is_some()),
        Tag::Item => MdTag::Item,
        Tag::CodeBlock(CodeBlockKind::Indented) => MdTag::CodeBlock(None),
        Tag::CodeBlock(CodeBlockKind::Fenced(info)) => MdTag::CodeBlock(Some(info.into_string())),
        Tag::HtmlBlock => MdTag::HtmlBlock,
        Tag::Emphasis => MdTag::Emphasis,
        Tag::Strong => MdTag::Strong,
        Tag::Link { dest_url, .. } => MdTag::Link(dest_url.into_string()),
        Tag::Image { dest_url, .. } => MdTag::Image(dest_url.into_string()),
        _ => MdTag::Other,
    }
}

/// Converts a `pulldown-cmark` event, variant by variant.
#[verifier::external_body]
fn event_of(e: Event) -> MdEvent {
    match e {
        Event::Start(t) => MdEvent::Start(tag_of(t)),
        Event::End(_) => MdEvent::End,
        Event::Text(s) => MdEvent::Text(s.into_string()),
        Event::Code(s) => MdEvent::Code(s.into_string()),
        Event::Html(s) => MdEvent::Html(s.into_string()),
        Event::InlineHtml(s) => MdEvent::InlineHtml(s.into_string()),
        Event::SoftBreak => MdEvent::SoftBreak,
        Event::HardBreak => MdEvent::HardBreak,
        Event::Rule => MdEvent::Rule,
        _ => MdEvent::Other,
    }
}

/// Runs `pulldown-cmark`'s `Parser::new_ext(text, Options::empty())` with
/// `into_offset_iter`, and converts each event with its range. What the
/// parser gives is a function of `text` alone; the contract names it, and
/// states what `into_offset_iter` documents: each range is a range of the
/// text.
#[verifier::external_body]
pub(crate) fn markdown_events(text: &str) -> (r: Vec<MdItem>)
    ensures
        r@ == cmark_events(text@),
        forall|k: int|
            0 <= k < r@.len() ==> (#[trigger] r@[k]).start <= r@[k].end <= text.spec_bytes().len(),
{
    Parser::new_ext(text, Options::empty())
        .into_offset_iter()
        .map(|(e, range)| MdItem { event: event_of(e), start: range.start, end: range.end })
        .collect()
}

} // verus!
