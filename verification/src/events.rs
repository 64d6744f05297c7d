//! The markdown event stream consumed by heading extraction.
//!
//! Events come from a streaming markdown parser as (kind, byte range) pairs,
//! where the ranges index into the UTF-8 encoding of the document.

use vstd::prelude::*;

verus! {

use pulldown_cmark::{Event, Options, Parser, Tag, TagEnd};
use vstd::std_specs::iter::IteratorSpec;
use crate::text::byte_len;

/// What a single parser event means to heading extraction. Literal text and
/// inline code both carry their content as a `Chunk`; every event kind that
/// extraction does not react to is `Other`.
pub enum MdEventKind {
    HeadingStart { level: u8 },
    HeadingEnd,
    LinkStart,
    LinkEnd,
    Chunk { content: Vec<char> },
    Other,
}

/// One parser event with its byte range in the document.
pub struct MdToken {
    pub kind: MdEventKind,
    pub start: usize,
    pub end: usize,
}

#[verifier::ext_equal]
pub ghost enum MdEventKindV {
    HeadingStart { level: u8 },
    HeadingEnd,
    LinkStart,
    LinkEnd,
    Chunk { content: Seq<char> },
    Other,
}

#[verifier::ext_equal]
pub ghost struct MdTokenV {
    pub kind: MdEventKindV,
    pub start: usize,
    pub end: usize,
}

impl View for MdEventKind {
    type V = MdEventKindV;

    open spec fn view(&self) -> MdEventKindV {
        match self {
            MdEventKind::HeadingStart { level } => MdEventKindV::HeadingStart { level: *level },
            MdEventKind::HeadingEnd => MdEventKindV::HeadingEnd,
            MdEventKind::LinkStart => MdEventKindV::LinkStart,
            MdEventKind::LinkEnd => MdEventKindV::LinkEnd,
            MdEventKind::Chunk { content } => MdEventKindV::Chunk { content: content@ },
            MdEventKind::Other => MdEventKindV::Other,
        }
    }
}

impl View for MdToken {
    type V = MdTokenV;

    open spec fn view(&self) -> MdTokenV {
        MdTokenV { kind: self.kind@, start: self.start, end: self.end }
    }
}

/// True when every heading-start event in the sequence carries a level
/// between 1 and 6.
pub open spec fn levels_in_range(evs: Seq<MdTokenV>) -> bool {
    forall|i: int|
        0 <= i < evs.len() ==> ((#[trigger] evs[i]).kind matches MdEventKindV::HeadingStart {
            level,
        } ==> 1 <= level <= 6)
}

/// The event stream the markdown parser produces for a document. The parse
/// is a function of the text alone.
pub uninterp spec fn parsed_events(md: Seq<char>) -> Seq<MdTokenV>;

/// Relies on `pulldown_cmark::Parser::new_ext` (with all options) and
/// `into_offset_iter`: the emitted events with their byte ranges are a
/// function of the markdown text alone, and `pulldown_cmark::HeadingLevel`
/// has exactly the six variants `H1` = 1 through `H6` = 6.
#[verifier::external_body]
pub(crate) fn parse_events(markdown: &str) -> (r: Vec<MdToken>)
    ensures
        r@.map_values(|t: MdToken| t@) == parsed_events(markdown@),
        levels_in_range(r@.map_values(|t: MdToken| t@)),
{
    Parser::new_ext(markdown, Options::all())
        .into_offset_iter()
        .map(|(ev, rg)| MdToken { start: rg.start, end: rg.end, kind: match ev {
            Event::Start(Tag::Heading { level, .. }) => MdEventKind::HeadingStart { level: level as u8 },
            Event::Start(Tag::Link { .. }) => MdEventKind::LinkStart,
            Event::End(TagEnd::Heading(_)) => MdEventKind::HeadingEnd,
            Event::End(TagEnd::Link) => MdEventKind::LinkEnd,
            Event::Text(t) => MdEventKind::Chunk { content: t.chars().collect() },
            Event::Code(t) => MdEventKind::Chunk { content: t.chars().collect() },
            _ => MdEventKind::Other,
        } })
        .collect()
}

/// Relies on `String`'s `FromIterator<char>` implementation: collecting
/// yields a string of exactly those characters in order.
#[verifier::external_body]
pub(crate) fn chars_to_string(v: Vec<char>) -> (r: String)
    ensures
        r@ == v@,
{
    v.into_iter().collect()
}

/// The characters of a string slice, as a vector.
pub(crate) fn chars_of(s: &str) -> (r: Vec<char>)
    ensures
        r@ == s@,
{
    broadcast use vstd::string::axiom_spec_iter, vstd::string::next_postcondition;

    let mut it = s.chars();
    let mut r: Vec<char> = Vec::new();
    loop
        invariant_except_break
            it.obeys_prophetic_iter_laws(),
            it.decrease() is Some,
            r@ + it.remaining() == s@,
        ensures
            r@ == s@,
        decreases it.decrease()->0,
    {
        match it.next() {
            Some(c) => {
                r.push(c);
            },
            None => {
                proof {
                    assert(r@ =~= s@);
                }
                break ;
            },
        }
    }
    r
}

/// Length in bytes of the UTF-8 encoding of `s`. Establishes in passing
/// that this length fits in `usize`.
pub(crate) fn utf8_len_of(s: &str) -> (n: usize)
    ensures
        n == byte_len(s@),
{
    let b = s.as_bytes();
    b.len()
}

} // verus!
