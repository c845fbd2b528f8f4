//! The document tree as the section extractor reads it: a flat sequence
//! of block-level events, supplied by the markdown parser, plus the
//! HTML-fragment sanitizer.

use vstd::prelude::*;

use pulldown_cmark::{Event, Options, Parser, Tag, TagEnd};

verus! {

/// One event of a parsed document.  Heading boundaries keep their depth;
/// text and code spans carry their content; raw HTML spans are kept for
/// sanitizing; footnote definitions and references carry their label;
/// `Break` stands for any other structural boundary that separates words;
/// `Skip` is an event with no effect on the index.
pub enum MdEvent {
    HeadingStart(u32),
    HeadingEnd(u32),
    Text(String),
    Html(String),
    FootnoteDef(String),
    FootnoteRef(String),
    Break,
    Skip,
}

/// The mathematical shape of an event.
pub enum MdEventV {
    HeadingStart(u32),
    HeadingEnd(u32),
    Text(Seq<char>),
    Html(Seq<char>),
    FootnoteDef(Seq<char>),
    FootnoteRef(Seq<char>),
    Break,
    Skip,
}

impl View for MdEvent {
    type V = MdEventV;

    open spec fn view(&self) -> MdEventV {
        match self {
            MdEvent::HeadingStart(d) => MdEventV::HeadingStart(*d),
            MdEvent::HeadingEnd(d) => MdEventV::HeadingEnd(*d),
            MdEvent::Text(t) => MdEventV::Text(t@),
            MdEvent::Html(t) => MdEventV::Html(t@),
            MdEvent::FootnoteDef(t) => MdEventV::FootnoteDef(t@),
            MdEvent::FootnoteRef(t) => MdEventV::FootnoteRef(t@),
            MdEvent::Break => MdEventV::Break,
            MdEvent::Skip => MdEventV::Skip,
        }
    }
}

/// The views of a sequence of events.
pub open spec fn events_view(evs: Seq<MdEvent>) -> Seq<MdEventV> {
    evs.map_values(|e: MdEvent| e@)
}

/// What the markdown parser produces for a document, read through the
/// mapping of `parse_markdown`.
pub uninterp spec fn events_of(text: Seq<char>) -> Seq<MdEventV>;

/// Relies on `pulldown_cmark::Parser`: the event stream is a function of
/// the document text alone.  Each parser event maps to one `MdEvent`:
/// heading boundaries keep their depth, text-like and HTML-like spans
/// keep their content, any other tag boundary or break is a word
/// separator, and task-list markers are dropped, as the indexer treats
/// them.
#[verifier::external_body]
fn parse_markdown(text: &str) -> (r: Vec<MdEvent>)
    ensures
        events_view(r@) == events_of(text@),
{
    let opts = Options::ENABLE_TABLES | Options::ENABLE_FOOTNOTES | Options::ENABLE_STRIKETHROUGH
        | Options::ENABLE_TASKLISTS;
    Parser::new_ext(text, opts).map(|ev| match ev {
        Event::Start(Tag::Heading { level, .. }) => MdEvent::HeadingStart(level as u32),
        Event::End(TagEnd::Heading(level)) => MdEvent::HeadingEnd(level as u32),
        Event::Start(Tag::FootnoteDefinition(name)) => MdEvent::FootnoteDef(name.into_string()),
        Event::Text(t) | Event::Code(t) => MdEvent::Text(t.into_string()),
        Event::Html(h) | Event::InlineHtml(h) => MdEvent::Html(h.into_string()),
        Event::FootnoteReference(name) => MdEvent::FootnoteRef(name.into_string()),
        Event::TaskListMarker(_) => MdEvent::Skip,
        _ => MdEvent::Break,
    }).collect()
}

/// Turns a document's text into the event sequence the extractor walks.
pub fn document_events(text: &str) -> (r: Vec<MdEvent>)
    ensures
        events_view(r@) == events_of(text@),
{
    parse_markdown(text)
}

/// What the sanitizer leaves of an HTML fragment: its plain text, with
/// every tag stripped and the contents of `script` and `style` removed.
pub uninterp spec fn clean_of(html: Seq<char>) -> Seq<char>;

/// Relies on `ammonia::Builder::clean` with no allowed tags and with
/// `script` and `style` as clean-content tags: the result is the
/// fragment's plain text and a function of the fragment alone.
#[verifier::external_body]
pub fn clean_html(html: &str) -> (r: String)
    ensures
        r@ == clean_of(html@),
{
    let mut strip: std::collections::HashSet<&str> = std::collections::HashSet::new();
    strip.insert("script");
    strip.insert("style");
    ammonia::Builder::new()
        .tags(std::collections::HashSet::new())
        .generic_attributes(std::collections::HashSet::new())
        .link_rel(None)
        .clean_content_tags(strip)
        .clean(html)
        .to_string()
}

} // verus!
