//! Heading extraction: walking the markdown event stream, tracking line
//! numbers, excising empty anchor links, and materialising `Heading` records.

use vstd::prelude::*;

verus! {

use crate::events::{
    MdEventKindV,
    MdTokenV,
    MdToken,
    MdEventKind,
    parsed_events,
    parse_events,
    chars_of,
    chars_to_string,
    utf8_len_of,
    levels_in_range,
};
use crate::heading::{Heading, HeadingV, heading_views};
use crate::text::{
    byte_len,
    idx_of_byte,
    newlines_upto,
    count_nl,
    all_invisible,
    has_content,
    normalize_spec,
    ws_or_hash,
    lemma_normalize_keeps_blank,
    lemma_idx_of_byte,
    lemma_byte_len_take_mono,
    lemma_byte_len_take_le,
    lemma_byte_len_take_succ,
    lemma_byte_len_subrange,
    lemma_count_nl_take_succ,
    lemma_count_nl_le_len,
    lemma_newlines_window,
    char_width_of,
    copy_range,
    normalize_heading,
    has_content_chars,
    all_invisible_chars,
};

// ---------------------------------------------------------------------------
// The transient extraction state
// ---------------------------------------------------------------------------

/// A link that is open inside the current heading: where it starts and the
/// literal text collected so far.
#[verifier::ext_equal]
pub ghost struct LinkStV {
    pub start: usize,
    pub buf: Seq<char>,
}

/// A heading that is open: its level, starting byte offset, line number,
/// the byte ranges of empty anchor links seen so far, and an open link.
#[verifier::ext_equal]
pub ghost struct HeadStV {
    pub level: u8,
    pub start: usize,
    pub line: int,
    pub spans: Seq<(usize, usize)>,
    pub link: Option<LinkStV>,
}

/// The whole extraction state after some prefix of the event stream.
#[verifier::ext_equal]
pub ghost struct ExtractStV {
    pub last_pos: usize,
    pub cur: Option<HeadStV>,
    pub out: Seq<HeadingV>,
}

pub struct LinkAcc {
    pub start: usize,
    pub buf: Vec<char>,
}

pub struct HeadAcc {
    pub level: u8,
    pub start: usize,
    pub line: usize,
    pub spans: Vec<(usize, usize)>,
    pub link: Option<LinkAcc>,
}

impl View for LinkAcc {
    type V = LinkStV;

    open spec fn view(&self) -> LinkStV {
        LinkStV { start: self.start, buf: self.buf@ }
    }
}

impl View for HeadAcc {
    type V = HeadStV;

    open spec fn view(&self) -> HeadStV {
        HeadStV {
            level: self.level,
            start: self.start,
            line: self.line as int,
            spans: self.spans@,
            link: match self.link {
                Option::Some(l) => Some(l@),
                Option::None => None,
            },
        }
    }
}

pub open spec fn opt_head_view(c: Option<HeadAcc>) -> Option<HeadStV> {
    match c {
        Option::Some(h) => Some(h@),
        Option::None => None,
    }
}

// ---------------------------------------------------------------------------
// The extraction function, in specification form
// ---------------------------------------------------------------------------

/// The 1-indexed line number at byte position `pos` of the document.
pub open spec fn line_at(doc: Seq<char>, pos: usize) -> int {
    1 + newlines_upto(doc, pos as int) as int
}

pub open spec fn init_state() -> ExtractStV {
    ExtractStV { last_pos: 0, cur: None, out: Seq::empty() }
}

/// The cursor never moves backwards: a range that regresses leaves it alone.
pub open spec fn advance_pos(last_pos: usize, t: MdTokenV) -> usize {
    if t.start > last_pos {
        t.start
    } else {
        last_pos
    }
}

/// The document slice `[a, b)` in bytes, or empty when the range is
/// reversed or does not fall on character boundaries.
pub open spec fn heading_slice(doc: Seq<char>, a: usize, b: usize) -> Seq<char> {
    if a <= b {
        match (idx_of_byte(doc, a as int), idx_of_byte(doc, b as int)) {
            (Some(i), Some(j)) => if i <= j {
                doc.subrange(i, j)
            } else {
                Seq::empty()
            },
            _ => Seq::empty(),
        }
    } else {
        Seq::empty()
    }
}

/// The heading text left after removing the recorded empty-link spans from
/// the slice `ft`, processed from span `k` on with `last_end` bytes already
/// consumed. Spans are absolute; `hstart` converts them to slice-relative
/// offsets. Malformed spans are skipped.
pub open spec fn spans_text(
    ft: Seq<char>,
    spans: Seq<(usize, usize)>,
    k: int,
    last_end: usize,
    hstart: usize,
) -> Seq<char>
    decreases spans.len() - k,
{
    if k < 0 || k >= spans.len() {
        if last_end < byte_len(ft) {
            match idx_of_byte(ft, last_end as int) {
                Some(i) => ft.skip(i),
                None => Seq::empty(),
            }
        } else {
            Seq::empty()
        }
    } else {
        let rs = if spans[k].0 >= hstart {
            (spans[k].0 - hstart) as usize
        } else {
            0
        };
        let re = if spans[k].1 >= hstart {
            (spans[k].1 - hstart) as usize
        } else {
            0
        };
        if rs >= re || re > byte_len(ft) {
            spans_text(ft, spans, k + 1, last_end, hstart)
        } else {
            let piece = if last_end < rs {
                match (idx_of_byte(ft, last_end as int), idx_of_byte(ft, rs as int)) {
                    (Some(i), Some(j)) => if i <= j {
                        ft.subrange(i, j)
                    } else {
                        Seq::empty()
                    },
                    _ => Seq::empty(),
                }
            } else {
                Seq::empty()
            };
            piece + spans_text(ft, spans, k + 1, re, hstart)
        }
    }
}

/// The heading record an open heading yields when it is closed at byte
/// offset `end` — one record, or none when the normalised text is empty or
/// holds nothing but whitespace and `#`.
pub open spec fn emit_heading(doc: Seq<char>, h: HeadStV, end: usize) -> Seq<HeadingV> {
    let full = heading_slice(doc, h.start, end);
    let joined = spans_text(full, h.spans, 0, 0, h.start);
    let t = normalize_spec(joined);
    if t.len() > 0 && has_content(t) {
        seq![HeadingV { level: h.level, line_number: h.line, text: t }]
    } else {
        Seq::empty()
    }
}

/// One step of extraction: how a single event transforms the state.
pub open spec fn step(doc: Seq<char>, st: ExtractStV, t: MdTokenV) -> ExtractStV {
    let np = advance_pos(st.last_pos, t);
    match t.kind {
        MdEventKindV::HeadingStart { level } => ExtractStV {
            last_pos: np,
            cur: Some(
                HeadStV {
                    level,
                    start: t.start,
                    line: line_at(doc, np),
                    spans: Seq::empty(),
                    link: None,
                },
            ),
            out: st.out,
        },
        MdEventKindV::LinkStart => match st.cur {
            Some(h) => ExtractStV {
                last_pos: np,
                cur: Some(
                    HeadStV {
                        level: h.level,
                        start: h.start,
                        line: h.line,
                        spans: h.spans,
                        link: Some(LinkStV { start: t.start, buf: Seq::empty() }),
                    },
                ),
                out: st.out,
            },
            None => ExtractStV { last_pos: np, cur: st.cur, out: st.out },
        },
        MdEventKindV::Chunk { content } => match st.cur {
            Some(h) => match h.link {
                Some(l) => ExtractStV {
                    last_pos: np,
                    cur: Some(
                        HeadStV {
                            level: h.level,
                            start: h.start,
                            line: h.line,
                            spans: h.spans,
                            link: Some(LinkStV { start: l.start, buf: l.buf + content }),
                        },
                    ),
                    out: st.out,
                },
                None => ExtractStV { last_pos: np, cur: st.cur, out: st.out },
            },
            None => ExtractStV { last_pos: np, cur: st.cur, out: st.out },
        },
        MdEventKindV::LinkEnd => match st.cur {
            Some(h) => match h.link {
                Some(l) => ExtractStV {
                    last_pos: np,
                    cur: Some(
                        HeadStV {
                            level: h.level,
                            start: h.start,
                            line: h.line,
                            spans: if all_invisible(l.buf) {
                                h.spans.push((l.start, t.end))
                            } else {
                                h.spans
                            },
                            link: None,
                        },
                    ),
                    out: st.out,
                },
                None => ExtractStV { last_pos: np, cur: st.cur, out: st.out },
            },
            None => ExtractStV { last_pos: np, cur: st.cur, out: st.out },
        },
        MdEventKindV::HeadingEnd => match st.cur {
            Some(h) => ExtractStV {
                last_pos: np,
                cur: None,
                out: st.out + emit_heading(doc, h, t.end),
            },
            None => ExtractStV { last_pos: np, cur: st.cur, out: st.out },
        },
        MdEventKindV::Other => ExtractStV { last_pos: np, cur: st.cur, out: st.out },
    }
}

/// The state after the first `n` events.
pub open spec fn run(doc: Seq<char>, evs: Seq<MdTokenV>, n: int) -> ExtractStV
    decreases n,
{
    if n <= 0 {
        init_state()
    } else {
        step(doc, run(doc, evs, n - 1), evs[n - 1])
    }
}

/// The headings extracted from `doc` under the event stream `evs`.
pub open spec fn extract_spec(doc: Seq<char>, evs: Seq<MdTokenV>) -> Seq<HeadingV> {
    run(doc, evs, evs.len() as int).out
}

/// The headings extracted from a markdown document.
pub open spec fn spec_headings(md: Seq<char>) -> Seq<HeadingV> {
    extract_spec(md, parsed_events(md))
}

proof fn lemma_run_step(doc: Seq<char>, evs: Seq<MdTokenV>, i: int)
    requires
        0 <= i < evs.len(),
    ensures
        run(doc, evs, i + 1) == step(doc, run(doc, evs, i), evs[i]),
{
}

// ---------------------------------------------------------------------------
// Byte-offset machinery, executable
// ---------------------------------------------------------------------------

/// Prefix sums of the UTF-8 widths of the characters of `doc`:
/// `bounds[i]` is the byte offset of the `i`-th character.
pub(crate) fn build_bounds(doc: &Vec<char>) -> (bounds: Vec<usize>)
    requires
        byte_len(doc@) <= usize::MAX,
    ensures
        bounds@.len() == doc@.len() + 1,
        forall|i: int| 0 <= i <= doc@.len() ==> bounds@[i] == byte_len(#[trigger] doc@.take(i)),
{
    let mut bounds: Vec<usize> = Vec::new();
    bounds.push(0);
    proof {
        assert(doc@.take(0) =~= Seq::<char>::empty());
    }
    let mut acc: usize = 0;
    let mut i: usize = 0;
    while i < doc.len()
        invariant
            i <= doc@.len(),
            byte_len(doc@) <= usize::MAX,
            acc == byte_len(doc@.take(i as int)),
            bounds@.len() == i + 1,
            forall|j: int| 0 <= j <= i ==> bounds@[j] == byte_len(#[trigger] doc@.take(j)),
        decreases doc@.len() - i,
    {
        let w = char_width_of(doc[i]);
        proof {
            lemma_byte_len_take_succ(doc@, i as int);
            lemma_byte_len_take_le(doc@, i + 1);
        }
        acc = acc + (w as usize);
        bounds.push(acc);
        i = i + 1;
    }
    bounds
}

/// Finds the character index that byte offset `b` corresponds to, or
/// reports that `b` is not on a character boundary.
pub(crate) fn find_char_idx(doc: &Vec<char>, bounds: &Vec<usize>, b: usize) -> (r: Option<usize>)
    requires
        bounds@.len() == doc@.len() + 1,
        forall|i: int| 0 <= i <= doc@.len() ==> bounds@[i] == byte_len(#[trigger] doc@.take(i)),
    ensures
        match r {
            Some(i) => i <= doc@.len() && idx_of_byte(doc@, b as int) == Some(i as int),
            None => idx_of_byte(doc@, b as int) is None,
        },
{
    proof {
        lemma_idx_of_byte(doc@, b as int);
    }
    let mut i: usize = 0;
    while i < bounds.len()
        invariant
            bounds@.len() == doc@.len() + 1,
            forall|k: int| 0 <= k <= doc@.len() ==> bounds@[k] == byte_len(#[trigger] doc@.take(k)),
            i <= bounds@.len(),
            forall|j: int| 0 <= j < i ==> byte_len(#[trigger] doc@.take(j)) != b,
        decreases bounds@.len() - i,
    {
        if bounds[i] == b {
            proof {
                lemma_idx_of_byte(doc@, b as int);
                match idx_of_byte(doc@, b as int) {
                    Some(k) => {
                        if k < i {
                            assert(byte_len(doc@.take(k)) != b);
                        }
                        if k > i {
                            lemma_byte_len_take_mono(doc@, i as int, k);
                        }
                    },
                    None => {
                        assert(byte_len(doc@.take(i as int)) != b);
                    },
                }
            }
            return Some(i);
        }
        if bounds[i] > b {
            proof {
                lemma_idx_of_byte(doc@, b as int);
                assert forall|j: int| 0 <= j <= doc@.len() implies byte_len(#[trigger] doc@.take(j))
                    != b by {
                    if j >= i {
                        lemma_byte_len_take_mono(doc@, i as int, j);
                    }
                }
                if idx_of_byte(doc@, b as int) is Some {
                    let k = idx_of_byte(doc@, b as int)->Some_0;
                    assert(byte_len(doc@.take(k)) != b);
                }
            }
            return None;
        }
        i = i + 1;
    }
    proof {
        if idx_of_byte(doc@, b as int) is Some {
            let k = idx_of_byte(doc@, b as int)->Some_0;
            assert(byte_len(doc@.take(k)) != b);
        }
    }
    None
}

/// The document slice `[a, b)` in bytes, as characters.
fn slice_by_bytes(doc: &Vec<char>, bounds: &Vec<usize>, a: usize, b: usize) -> (r: Vec<char>)
    requires
        bounds@.len() == doc@.len() + 1,
        forall|i: int| 0 <= i <= doc@.len() ==> bounds@[i] == byte_len(#[trigger] doc@.take(i)),
    ensures
        r@ == heading_slice(doc@, a, b),
{
    if a > b {
        return Vec::new();
    }
    let ia = find_char_idx(doc, bounds, a);
    let ib = find_char_idx(doc, bounds, b);
    match (ia, ib) {
        (Some(i), Some(j)) => {
            if i <= j {
                proof {
                    lemma_idx_of_byte(doc@, b as int);
                }
                copy_range(doc, i, j)
            } else {
                Vec::new()
            }
        },
        _ => Vec::new(),
    }
}

/// Appends the characters of `src` to `dst`.
pub(crate) fn append_chars(dst: &mut Vec<char>, src: &Vec<char>)
    ensures
        final(dst)@ == old(dst)@ + src@,
{
    let mut k: usize = 0;
    while k < src.len()
        invariant
            k <= src@.len(),
            dst@ == old(dst)@ + src@.take(k as int),
        decreases src@.len() - k,
    {
        dst.push(src[k]);
        k = k + 1;
        proof {
            assert(old(dst)@ + src@.take(k as int) =~= (old(dst)@ + src@.take(k - 1)).push(
                src@[k - 1],
            ));
        }
    }
    proof {
        assert(src@.take(src@.len() as int) =~= src@);
    }
}

/// Removes the recorded empty-link spans from the heading slice `ft`.
fn remove_spans(ft: &Vec<char>, spans: &Vec<(usize, usize)>, hstart: usize) -> (r: Vec<char>)
    requires
        byte_len(ft@) <= usize::MAX,
    ensures
        r@ == spans_text(ft@, spans@, 0, 0, hstart),
{
    let fb = build_bounds(ft);
    proof {
        assert(ft@.take(ft@.len() as int) =~= ft@);
    }
    let ft_bytes: usize = fb[ft.len()];
    let mut r: Vec<char> = Vec::new();
    let mut last_end: usize = 0;
    let mut k: usize = 0;
    while k < spans.len()
        invariant
            k <= spans@.len(),
            fb@.len() == ft@.len() + 1,
            forall|i: int| 0 <= i <= ft@.len() ==> fb@[i] == byte_len(#[trigger] ft@.take(i)),
            ft_bytes == byte_len(ft@),
            spans_text(ft@, spans@, 0, 0, hstart) == r@ + spans_text(
                ft@,
                spans@,
                k as int,
                last_end,
                hstart,
            ),
        decreases spans@.len() - k,
    {
        let ghost pre_r = r@;
        let ghost pre_le = last_end;
        let (a, b) = spans[k];
        let rs: usize = if a >= hstart {
            a - hstart
        } else {
            0
        };
        let re: usize = if b >= hstart {
            b - hstart
        } else {
            0
        };
        if !(rs >= re || re > ft_bytes) {
            if last_end < rs {
                let ci = find_char_idx(ft, &fb, last_end);
                let cj = find_char_idx(ft, &fb, rs);
                match (ci, cj) {
                    (Some(i), Some(j)) => {
                        if i <= j {
                            let piece = copy_range(ft, i, j);
                            append_chars(&mut r, &piece);
                        }
                    },
                    _ => {},
                }
            }
            last_end = re;
        }
        k = k + 1;
        proof {
            let tail = spans_text(ft@, spans@, k as int, last_end, hstart);
            assert(pre_r + spans_text(ft@, spans@, k - 1, pre_le, hstart) =~= r@ + tail);
        }
    }
    let ghost pre_r = r@;
    if last_end < ft_bytes {
        let ci = find_char_idx(ft, &fb, last_end);
        match ci {
            Some(i) => {
                proof {
                    assert(ft@.skip(i as int) =~= ft@.subrange(i as int, ft@.len() as int));
                }
                let piece = copy_range(ft, i, ft.len());
                append_chars(&mut r, &piece);
            },
            None => {},
        }
    }
    proof {
        assert(pre_r + spans_text(ft@, spans@, spans@.len() as int, last_end, hstart) =~= r@);
    }
    r
}

/// The slice a heading covers never holds more bytes than the document.
proof fn lemma_heading_slice_bytes(doc: Seq<char>, a: usize, b: usize)
    ensures
        byte_len(heading_slice(doc, a, b)) <= byte_len(doc),
{
    if a <= b {
        lemma_idx_of_byte(doc, a as int);
        lemma_idx_of_byte(doc, b as int);
        match (idx_of_byte(doc, a as int), idx_of_byte(doc, b as int)) {
            (Some(i), Some(j)) => {
                if i <= j {
                    lemma_byte_len_subrange(doc, i, j);
                }
            },
            _ => {},
        }
    }
}

/// A heading whose remaining text — after the recorded empty-link spans
/// are removed — holds nothing but whitespace and `#` marks is never
/// materialised: closing it emits no record at all.
pub proof fn lemma_blank_heading_excluded(doc: Seq<char>, h: HeadStV, end: usize)
    requires
        ws_or_hash(spans_text(heading_slice(doc, h.start, end), h.spans, 0, 0, h.start)),
    ensures
        emit_heading(doc, h, end) == Seq::<HeadingV>::empty(),
{
    lemma_normalize_keeps_blank(spans_text(heading_slice(doc, h.start, end), h.spans, 0, 0, h.start));
}

/// A link whose collected text is not empty or invisible never joins the
/// excision list: closing it leaves the open heading's spans unchanged, so
/// its markup stays part of the heading text.
pub proof fn lemma_nonempty_link_kept(doc: Seq<char>, st: ExtractStV, t: MdTokenV)
    requires
        t.kind is LinkEnd,
        st.cur matches Some(h) && h.link matches Some(l) && !all_invisible(l.buf),
    ensures
        step(doc, st, t).cur matches Some(h2) && h2.spans == st.cur->Some_0.spans && h2.link
            is None,
        step(doc, st, t).out == st.out,
{
}

// ---------------------------------------------------------------------------
// Invariants of the extracted headings
// ---------------------------------------------------------------------------

/// A well-formed heading record: a level between 1 and 6, a positive line
/// number, and text that holds a character beyond whitespace and `#`.
pub open spec fn heading_wf(h: HeadingV) -> bool {
    1 <= h.level <= 6 && h.line_number >= 1 && h.text.len() > 0 && has_content(h.text)
}

/// The invariants the extraction state keeps: every emitted heading is
/// well-formed, line numbers never decrease, and an open heading lies at
/// or after every emitted one.
pub open spec fn state_wf(doc: Seq<char>, st: ExtractStV) -> bool {
    &&& forall|k: int| 0 <= k < st.out.len() ==> heading_wf(#[trigger] st.out[k])
    &&& forall|k: int|
        0 <= k < st.out.len() ==> (#[trigger] st.out[k]).line_number <= line_at(doc, st.last_pos)
    &&& forall|k1: int, k2: int|
        0 <= k1 <= k2 < st.out.len() ==> (#[trigger] st.out[k1]).line_number
            <= (#[trigger] st.out[k2]).line_number
    &&& match st.cur {
        Some(h) => {
            &&& 1 <= h.level <= 6
            &&& 1 <= h.line <= line_at(doc, st.last_pos)
            &&& forall|k: int|
                0 <= k < st.out.len() ==> (#[trigger] st.out[k]).line_number <= h.line
        },
        None => true,
    }
}

/// Extraction preserves `state_wf` along the whole event stream, as long
/// as the stream's heading levels lie between 1 and 6 — which the event
/// source guarantees.
pub proof fn lemma_run_invariants(doc: Seq<char>, evs: Seq<MdTokenV>, n: int)
    requires
        0 <= n <= evs.len(),
        levels_in_range(evs),
    ensures
        state_wf(doc, run(doc, evs, n)),
    decreases n,
{
    if n > 0 {
        lemma_run_invariants(doc, evs, n - 1);
        let st0 = run(doc, evs, n - 1);
        let t = evs[n - 1];
        let st = step(doc, st0, t);
        let np = advance_pos(st0.last_pos, t);
        crate::text::lemma_newlines_upto_mono(doc, st0.last_pos as int, np as int);
        assert(line_at(doc, st0.last_pos) <= line_at(doc, np));
        match t.kind {
            MdEventKindV::HeadingStart { level } => {
                assert(1 <= level <= 6);
            },
            MdEventKindV::HeadingEnd => {
                match st0.cur {
                    Some(h) => {
                        let em = emit_heading(doc, h, t.end);
                        assert forall|k: int| 0 <= k < st.out.len() implies heading_wf(
                            #[trigger] st.out[k],
                        ) && st.out[k].line_number <= line_at(doc, st.last_pos) by {
                            if k < st0.out.len() {
                                assert(st.out[k] == st0.out[k]);
                            } else {
                                assert(st.out[k] == em[k - st0.out.len()]);
                            }
                        }
                        assert forall|k1: int, k2: int|
                            0 <= k1 <= k2 < st.out.len() implies (#[trigger] st.out[k1]).line_number
                            <= (#[trigger] st.out[k2]).line_number by {
                            if k2 < st0.out.len() {
                                assert(st.out[k1] == st0.out[k1]);
                                assert(st.out[k2] == st0.out[k2]);
                            } else {
                                if k1 < st0.out.len() {
                                    assert(st.out[k1] == st0.out[k1]);
                                }
                            }
                        }
                    },
                    None => {},
                }
            },
            _ => {},
        }
    }
}

// ---------------------------------------------------------------------------
// The public face of extraction
// ---------------------------------------------------------------------------

/// True when `text` is empty or holds only whitespace, zero-width
/// characters, or the pilcrow sign — the test applied to the collected text
/// of an anchor link.
pub fn is_empty_or_invisible(text: &str) -> (r: bool)
    ensures
        r == all_invisible(text@),
{
    let v = chars_of(text);
    all_invisible_chars(&v)
}

/// Walks the markdown event stream and materialises one `Heading` record
/// per heading block, with 1-indexed line numbers and empty anchor links
/// removed from the text.
///
/// The character count is asked to lie below `usize::MAX` so that line
/// numbers fit in `usize`; every real string satisfies this.
pub fn extract_headings(markdown: &str) -> (r: Vec<Heading>)
    requires
        markdown@.len() < usize::MAX,
    ensures
        heading_views(r@) == spec_headings(markdown@),
        forall|k: int| 0 <= k < r@.len() ==> heading_wf((#[trigger] r@[k])@),
        forall|k1: int, k2: int|
            0 <= k1 <= k2 < r@.len() ==> (#[trigger] r@[k1])@.line_number
                <= (#[trigger] r@[k2])@.line_number,
{
    let doc = chars_of(markdown);
    let total_bytes = utf8_len_of(markdown);
    let bounds = build_bounds(&doc);
    let toks = parse_events(markdown);
    let ghost evs = parsed_events(markdown@);

    let mut out: Vec<Heading> = Vec::new();
    let mut cur: Option<HeadAcc> = None;
    let mut last_pos: usize = 0;
    let mut cc: usize = 0;
    let mut nl: usize = 0;
    let mut i: usize = 0;

    proof {
        assert(doc@.take(0) =~= Seq::<char>::empty());
        assert(heading_views(out@) =~~= run(doc@, evs, 0).out);
    }

    while i < toks.len()
        invariant
            doc@ == markdown@,
            doc@.len() < usize::MAX,
            byte_len(doc@) <= usize::MAX,
            bounds@.len() == doc@.len() + 1,
            forall|q: int| 0 <= q <= doc@.len() ==> bounds@[q] == byte_len(#[trigger] doc@.take(q)),
            toks@.map_values(|t: MdToken| t@) == evs,
            evs == parsed_events(markdown@),
            i <= toks@.len(),
            evs.len() == toks@.len(),
            last_pos == run(doc@, evs, i as int).last_pos,
            opt_head_view(cur) == run(doc@, evs, i as int).cur,
            heading_views(out@) == run(doc@, evs, i as int).out,
            cc <= doc@.len(),
            nl == count_nl(doc@.take(cc as int)),
            byte_len(doc@.take(cc as int)) <= last_pos,
            cc < doc@.len() ==> last_pos < byte_len(doc@.take(cc as int + 1)),
        decreases toks@.len() - i,
    {
        let ghost st = run(doc@, evs, i as int);
        proof {
            assert(evs[i as int] == toks@[i as int]@);
            lemma_run_step(doc@, evs, i as int);
        }
        let t_start = toks[i].start;
        let t_end = toks[i].end;
        if t_start > last_pos {
            while cc < doc.len() && bounds[cc + 1] <= t_start
                invariant
                    doc@.len() < usize::MAX,
                    bounds@.len() == doc@.len() + 1,
                    forall|q: int|
                        0 <= q <= doc@.len() ==> bounds@[q] == byte_len(#[trigger] doc@.take(q)),
                    cc <= doc@.len(),
                    nl == count_nl(doc@.take(cc as int)),
                    byte_len(doc@.take(cc as int)) <= t_start,
                decreases doc@.len() - cc,
            {
                proof {
                    lemma_count_nl_le_len(doc@.take(cc as int));
                    lemma_count_nl_take_succ(doc@, cc as int);
                }
                if doc[cc] == '\n' {
                    nl = nl + 1;
                }
                cc = cc + 1;
            }
            last_pos = t_start;
        }
        let ghost np = advance_pos(st.last_pos, evs[i as int]);
        proof {
            assert(last_pos == np);
        }
        let tk = &toks[i].kind;
        match tk {
            MdEventKind::HeadingStart { level } => {
                let lv: u8 = *level;
                proof {
                    lemma_count_nl_le_len(doc@.take(cc as int));
                    lemma_newlines_window(doc@, cc as int, last_pos as int);
                }
                let spans0: Vec<(usize, usize)> = Vec::new();
                let h = HeadAcc { level: lv, start: t_start, line: nl + 1, spans: spans0, link: None };
                proof {
                    assert(h@.spans =~= Seq::<(usize, usize)>::empty());
                    assert(h@ =~~= HeadStV {
                        level: lv,
                        start: t_start,
                        line: line_at(doc@, np),
                        spans: Seq::empty(),
                        link: None,
                    });
                }
                cur = Some(h);
            },
            MdEventKind::LinkStart => {
                let c = cur;
                cur = None;
                match c {
                    Some(mut h) => {
                        let buf0: Vec<char> = Vec::new();
                        h.link = Some(LinkAcc { start: t_start, buf: buf0 });
                        proof {
                            assert(h@.link =~~= Some(LinkStV { start: t_start, buf: Seq::empty() }));
                        }
                        cur = Some(h);
                    },
                    None => {},
                }
            },
            MdEventKind::Chunk { content } => {
                let c = cur;
                cur = None;
                match c {
                    Some(mut h) => {
                        let lk = h.link;
                        h.link = None;
                        match lk {
                            Some(mut l) => {
                                append_chars(&mut l.buf, content);
                                h.link = Some(l);
                            },
                            None => {},
                        }
                        cur = Some(h);
                    },
                    None => {},
                }
            },
            MdEventKind::LinkEnd => {
                let c = cur;
                cur = None;
                match c {
                    Some(mut h) => {
                        let lk = h.link;
                        h.link = None;
                        match lk {
                            Some(l) => {
                                if all_invisible_chars(&l.buf) {
                                    h.spans.push((l.start, t_end));
                                }
                            },
                            None => {},
                        }
                        cur = Some(h);
                    },
                    None => {},
                }
            },
            MdEventKind::HeadingEnd => {
                let c = cur;
                cur = None;
                match c {
                    Some(h) => {
                        let full = slice_by_bytes(&doc, &bounds, h.start, t_end);
                        proof {
                            lemma_heading_slice_bytes(doc@, h.start, t_end);
                        }
                        let joined = remove_spans(&full, &h.spans, h.start);
                        let txt = normalize_heading(joined);
                        let ghost pre_out = out@;
                        if txt.len() > 0 && has_content_chars(&txt) {
                            let text = chars_to_string(txt);
                            let hd = Heading { level: h.level, line_number: h.line, text };
                            out.push(hd);
                            proof {
                                assert(heading_views(out@) =~~= heading_views(pre_out) + emit_heading(
                                    doc@,
                                    h@,
                                    t_end,
                                ));
                            }
                        } else {
                            proof {
                                assert(heading_views(out@) =~~= heading_views(pre_out) + emit_heading(
                                    doc@,
                                    h@,
                                    t_end,
                                ));
                            }
                        }
                    },
                    None => {},
                }
            },
            MdEventKind::Other => {},
        }
        i = i + 1;
        proof {
            let post = run(doc@, evs, i as int);
            assert(post == step(doc@, st, evs[i - 1]));
            assert(opt_head_view(cur) =~~= post.cur);
            assert(heading_views(out@) =~~= post.out);
        }
    }
    proof {
        assert(run(doc@, evs, evs.len() as int).out == spec_headings(markdown@));
        lemma_run_invariants(doc@, evs, evs.len() as int);
        assert forall|k: int| 0 <= k < out@.len() implies heading_wf((#[trigger] out@[k])@) by {
            assert(heading_views(out@)[k] == out@[k]@);
        }
        assert forall|k1: int, k2: int|
            0 <= k1 <= k2 < out@.len() implies (#[trigger] out@[k1])@.line_number
            <= (#[trigger] out@[k2])@.line_number by {
            assert(heading_views(out@)[k1] == out@[k1]@);
            assert(heading_views(out@)[k2] == out@[k2]@);
        }
    }
    out
}

} // verus!
