//! Converting fetched HTML to markdown: readable-content extraction with a
//! fallback to the literal `<body>` contents, then a markdown rendering of
//! whichever content was chosen.

use vstd::prelude::*;

verus! {

use dom_smoothie::{Config, Readability, TextMode};
use crate::events::chars_of;
use crate::text::{all_ws, all_ws_chars, ascii_lower, ascii_lower_of, copy_range};
use crate::toc::opt_str_view;

/// Why HTML-to-markdown conversion yielded nothing.
#[derive(Debug, Clone, Copy, PartialEq, Eq, Structural)]
pub enum HtmlError {
    /// The HTML input held nothing but whitespace.
    EmptyInput,
    /// The chosen content rendered to markdown that holds nothing but
    /// whitespace.
    EmptyOutput,
}

// ---------------------------------------------------------------------------
// Locating the body element
// ---------------------------------------------------------------------------

/// True when the tag text `tag` occurs at position `i` of `s`, compared
/// ASCII-case-insensitively.
pub open spec fn tag_at(s: Seq<char>, tag: Seq<char>, i: int) -> bool {
    i + tag.len() <= s.len() && forall|k: int|
        0 <= k < tag.len() ==> ascii_lower(s[i + k]) == #[trigger] tag[k]
}

/// The first position at or after `from` where `tag` occurs, if any.
pub open spec fn first_tag(s: Seq<char>, tag: Seq<char>, from: int) -> Option<int>
    decreases s.len() - from,
{
    if from < 0 || from + tag.len() > s.len() {
        None
    } else if tag_at(s, tag, from) {
        Some(from)
    } else {
        first_tag(s, tag, from + 1)
    }
}

/// The last position where `tag` occurs at or before `from`, if any.
pub open spec fn last_tag_from(s: Seq<char>, tag: Seq<char>, from: int) -> Option<int>
    decreases from + 1,
{
    if from < 0 || from + tag.len() > s.len() {
        None
    } else if tag_at(s, tag, from) {
        Some(from)
    } else {
        last_tag_from(s, tag, from - 1)
    }
}

pub open spec fn body_open_tag() -> Seq<char> {
    seq!['<', 'b', 'o', 'd', 'y']
}

pub open spec fn body_close_tag() -> Seq<char> {
    seq!['<', '/', 'b', 'o', 'd', 'y', '>']
}

/// The contents between the end of the `<body ...>` start tag and the last
/// `</body>` close tag, when both are present and in order.
pub open spec fn body_of(html: Seq<char>) -> Option<Seq<char>> {
    match first_tag(html, body_open_tag(), 0) {
        Some(start) => match first_tag(html, seq!['>'], start) {
            Some(g) => match last_tag_from(html, body_close_tag(), html.len() - 7) {
                Some(body_end) => if body_end >= g + 1 {
                    Some(html.subrange(g + 1, body_end))
                } else {
                    None
                },
                None => None,
            },
            None => None,
        },
        None => None,
    }
}

fn tag_at_chars(v: &Vec<char>, tag: &Vec<char>, i: usize) -> (r: bool)
    requires
        i + tag@.len() <= v@.len(),
    ensures
        r == tag_at(v@, tag@, i as int),
{
    let n = v.len();
    let mut k: usize = 0;
    while k < tag.len()
        invariant
            n == v@.len(),
            i + tag@.len() <= v@.len(),
            k <= tag@.len(),
            forall|j: int| 0 <= j < k ==> ascii_lower(v@[i + j]) == #[trigger] tag@[j],
        decreases tag@.len() - k,
    {
        if ascii_lower_of(v[i + k]) != tag[k] {
            return false;
        }
        k = k + 1;
    }
    true
}

pub(crate) fn find_first_tag(v: &Vec<char>, tag: &Vec<char>, from: usize) -> (r: Option<usize>)
    ensures
        match r {
            Some(i) => first_tag(v@, tag@, from as int) == Some(i as int) && i + tag@.len()
                <= v@.len(),
            None => first_tag(v@, tag@, from as int) is None,
        },
{
    let mut i: usize = from;
    if tag.len() > v.len() {
        proof {
            lemma_first_tag_none(v@, tag@, from as int);
        }
        return None;
    }
    while i <= v.len() - tag.len()
        invariant
            from <= i,
            tag@.len() <= v@.len(),
            first_tag(v@, tag@, from as int) == first_tag(v@, tag@, i as int),
        decreases v@.len() - i,
    {
        if tag_at_chars(v, tag, i) {
            return Some(i);
        }
        i = i + 1;
    }
    None
}

proof fn lemma_first_tag_none(s: Seq<char>, tag: Seq<char>, from: int)
    requires
        tag.len() > s.len(),
    ensures
        first_tag(s, tag, from) is None,
    decreases s.len() - from,
{
    if !(from < 0 || from + tag.len() > s.len()) {
        lemma_first_tag_none(s, tag, from + 1);
    }
}

fn find_last_tag(v: &Vec<char>, tag: &Vec<char>, from: usize) -> (r: Option<usize>)
    requires
        from + tag@.len() <= v@.len(),
    ensures
        match r {
            Some(i) => last_tag_from(v@, tag@, from as int) == Some(i as int) && i + tag@.len()
                <= v@.len(),
            None => last_tag_from(v@, tag@, from as int) is None,
        },
{
    let mut i: usize = from;
    loop
        invariant
            i <= from,
            i + tag@.len() <= v@.len(),
            last_tag_from(v@, tag@, from as int) == last_tag_from(v@, tag@, i as int),
        decreases i,
    {
        if tag_at_chars(v, tag, i) {
            return Some(i);
        }
        if i == 0 {
            proof {
                assert(last_tag_from(v@, tag@, -1) is None);
            }
            return None;
        }
        i = i - 1;
    }
}

/// Extracts the raw contents of the `<body>` element, scanning for the
/// tags ASCII-case-insensitively. `None` when there is no start tag, no
/// `>` closing it, or no `</body>` after it.
pub fn extract_body(html: &str) -> (r: Option<String>)
    ensures
        opt_str_view(r) == body_of(html@),
{
    let v = chars_of(html);
    let open_tag: Vec<char> = vec!['<', 'b', 'o', 'd', 'y'];
    let gt_tag: Vec<char> = vec!['>'];
    let close_tag: Vec<char> = vec!['<', '/', 'b', 'o', 'd', 'y', '>'];
    proof {
        assert(open_tag@ =~= body_open_tag());
        assert(gt_tag@ =~= seq!['>']);
        assert(close_tag@ =~= body_close_tag());
    }
    let start = match find_first_tag(&v, &open_tag, 0) {
        Some(s) => s,
        None => {
            return None;
        },
    };
    let g = match find_first_tag(&v, &gt_tag, start) {
        Some(g) => g,
        None => {
            return None;
        },
    };
    if v.len() < 7 {
        return None;
    }
    let body_end = match find_last_tag(&v, &close_tag, v.len() - 7) {
        Some(e) => e,
        None => {
            return None;
        },
    };
    if body_end >= g + 1 {
        let body = copy_range(&v, g + 1, body_end);
        Some(crate::events::chars_to_string(body))
    } else {
        None
    }
}

// ---------------------------------------------------------------------------
// HTML to markdown
// ---------------------------------------------------------------------------

/// What the readability pass extracts from an HTML document fetched at a
/// URL; `None` stands for a failed parse.
pub uninterp spec fn readability_of(html: Seq<char>, url: Seq<char>) -> Option<Seq<char>>;

/// The markdown rendering of an HTML fragment.
pub uninterp spec fn html2md_of(html: Seq<char>) -> Seq<char>;

/// Relies on `dom_smoothie::Readability` in raw text mode: what it
/// extracts is a function of the HTML text and the document URL alone, and
/// a failure of `new` or `parse` is an ordinary error value.
#[verifier::external_body]
fn readability_extract(html: &str, document_url: &str) -> (r: Option<String>)
    ensures
        opt_str_view(r) == readability_of(html@, document_url@),
{
    let cfg = Config { text_mode: TextMode::Raw, ..Config::default() };
    match Readability::new(html, Some(document_url), Some(cfg)) {
        Ok(mut rd) => match rd.parse() {
            Ok(article) => Some(article.content.to_string()),
            Err(_) => None,
        },
        Err(_) => None,
    }
}

/// Relies on `html2md::parse_html`: the markdown rendering is a function
/// of the HTML text alone.
#[verifier::external_body]
fn html_to_md(html: &str) -> (r: String)
    ensures
        r@ == html2md_of(html@),
{
    html2md::parse_html(html)
}

/// The content handed to the markdown renderer: the readability result
/// when it holds something visible, else the `<body>` contents, else the
/// whole document.
pub open spec fn content_for_conversion(html: Seq<char>, url: Seq<char>) -> Seq<char> {
    match readability_of(html, url) {
        Some(c) => if !all_ws(c) {
            c
        } else {
            fallback_content(html)
        },
        None => fallback_content(html),
    }
}

pub open spec fn fallback_content(html: Seq<char>) -> Seq<char> {
    match body_of(html) {
        Some(b) => b,
        None => html,
    }
}

/// Converts HTML to markdown: readable-content extraction first, then the
/// `<body>` contents, then the whole document; whitespace-only input and
/// whitespace-only output are the two error cases.
pub fn html_to_markdown(html: &str, document_url: &str) -> (r: Result<String, HtmlError>)
    ensures
        all_ws(html@) ==> r == Result::<String, HtmlError>::Err(HtmlError::EmptyInput),
        !all_ws(html@) && all_ws(html2md_of(content_for_conversion(html@, document_url@))) ==> r
            == Result::<String, HtmlError>::Err(HtmlError::EmptyOutput),
        !all_ws(html@) && !all_ws(html2md_of(content_for_conversion(html@, document_url@))) ==> (
        r matches Ok(s) && s@ == html2md_of(content_for_conversion(html@, document_url@))),
{
    let hv = chars_of(html);
    if all_ws_chars(&hv) {
        return Err(HtmlError::EmptyInput);
    }
    let readable: Option<String> = match readability_extract(html, document_url) {
        Some(c) => {
            let cv = chars_of(c.as_str());
            if all_ws_chars(&cv) {
                None
            } else {
                Some(c)
            }
        },
        None => None,
    };
    let content: String = match readable {
        Some(c) => c,
        None => match extract_body(html) {
            Some(b) => b,
            None => html.to_owned(),
        },
    };
    proof {
        assert(content@ == content_for_conversion(html@, document_url@));
    }
    let md = html_to_md(content.as_str());
    let mv = chars_of(md.as_str());
    if all_ws_chars(&mv) {
        Err(HtmlError::EmptyOutput)
    } else {
        Ok(md)
    }
}

} // verus!
