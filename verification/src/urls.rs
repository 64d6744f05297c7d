//! URL handling that the fetch pipeline decides by: the list of URL
//! variations to try for a documentation page, and sanitisation of path
//! pieces for the cache layout.

use vstd::prelude::*;

verus! {

use crate::events::{chars_of, chars_to_string};
use crate::extract::append_chars;
use crate::html::first_tag;
use crate::text::{ascii_lower, ascii_lower_of, copy_range};
use crate::toc::opt_str_view;

// ---------------------------------------------------------------------------
// Character-sequence helpers
// ---------------------------------------------------------------------------

/// True when `s` ends with `suffix`, compared ASCII-case-insensitively.
pub open spec fn ends_ci(s: Seq<char>, suffix: Seq<char>) -> bool {
    s.len() >= suffix.len() && forall|k: int|
        0 <= k < suffix.len() ==> ascii_lower(s[s.len() - suffix.len() + k]) == #[trigger] suffix[k]
}

pub open spec fn has_char(s: Seq<char>, c: char) -> bool {
    exists|k: int| 0 <= k < s.len() && s[k] == c
}

/// `s` with trailing `/` characters removed.
pub open spec fn trim_end_slashes(s: Seq<char>) -> Seq<char>
    decreases s.len(),
{
    if s.len() > 0 && s.last() == '/' {
        trim_end_slashes(s.drop_last())
    } else {
        s
    }
}

/// Index of the last `/` in `s`, or -1 when there is none.
pub open spec fn last_slash(s: Seq<char>) -> int
    decreases s.len(),
{
    if s.len() == 0 {
        -1
    } else if s.last() == '/' {
        s.len() - 1
    } else {
        last_slash(s.drop_last())
    }
}

proof fn lemma_last_slash(s: Seq<char>)
    ensures
        -1 <= last_slash(s) < s.len(),
        last_slash(s) >= 0 ==> s[last_slash(s)] == '/',
        forall|j: int| last_slash(s) < j < s.len() ==> s[j] != '/',
    decreases s.len(),
{
    if s.len() > 0 && s.last() != '/' {
        lemma_last_slash(s.drop_last());
        assert forall|j: int| last_slash(s) < j < s.len() implies s[j] != '/' by {
            if j < s.len() - 1 {
                assert(s.drop_last()[j] != '/');
            }
        }
        if last_slash(s) >= 0 {
            assert(s.drop_last()[last_slash(s)] == '/');
        }
    }
}

proof fn lemma_trim_end_slashes_at(s: Seq<char>, m: int)
    requires
        0 <= m <= s.len(),
        forall|j: int| m <= j < s.len() ==> s[j] == '/',
        m == 0 || s[m - 1] != '/',
    ensures
        trim_end_slashes(s) == s.take(m),
    decreases s.len() - m,
{
    if m == s.len() {
        if s.len() > 0 && s.last() == '/' {
            assert(s[m - 1] != '/');
        }
        assert(s.take(m) =~= s);
    } else {
        assert(s.last() == '/');
        lemma_trim_end_slashes_at(s.drop_last(), m);
        assert(s.drop_last().take(m) =~= s.take(m));
    }
}

fn ends_with_ci(v: &Vec<char>, suffix: &Vec<char>) -> (r: bool)
    ensures
        r == ends_ci(v@, suffix@),
{
    let n = v.len();
    if suffix.len() > n {
        return false;
    }
    let base: usize = n - suffix.len();
    let mut k: usize = 0;
    while k < suffix.len()
        invariant
            n == v@.len(),
            suffix@.len() <= v@.len(),
            base == v@.len() - suffix@.len(),
            k <= suffix@.len(),
            forall|j: int|
                0 <= j < k ==> ascii_lower(v@[v@.len() - suffix@.len() + j]) == #[trigger] suffix@[j],
        decreases suffix@.len() - k,
    {
        if ascii_lower_of(v[base + k]) != suffix[k] {
            return false;
        }
        k = k + 1;
    }
    true
}

fn contains_char(v: &Vec<char>, c: char) -> (r: bool)
    ensures
        r == has_char(v@, c),
{
    let mut k: usize = 0;
    while k < v.len()
        invariant
            k <= v@.len(),
            forall|j: int| 0 <= j < k ==> v@[j] != c,
        decreases v@.len() - k,
    {
        if v[k] == c {
            return true;
        }
        k = k + 1;
    }
    false
}

// ---------------------------------------------------------------------------
// The parsed URL path
// ---------------------------------------------------------------------------

/// The normalised path component of a URL, or `None` when the URL does not
/// parse. Parsing is a function of the URL text alone.
pub uninterp spec fn url_path_of(url: Seq<char>) -> Option<Seq<char>>;

/// Relies on `url::Url::parse` and `Url::path`: the normalised path of a
/// URL is a function of its text alone, and a parse failure is an ordinary
/// error value.
#[verifier::external_body]
fn parse_url_path(url: &str) -> (r: Option<String>)
    ensures
        opt_str_view(r) == url_path_of(url@),
{
    match url::Url::parse(url) {
        Ok(p) => Some(p.path().to_string()),
        Err(_) => None,
    }
}

/// True when the final segment of the path looks like a file name: it
/// holds a dot, and does not end with one.
pub open spec fn segment_has_ext(p: Seq<char>) -> bool {
    let ls = last_slash(p);
    ls >= 0 && {
        let tail = p.skip(ls + 1);
        has_char(tail, '.') && !(tail.len() > 0 && tail[tail.len() - 1] == '.')
    }
}

pub open spec fn has_file_ext(path: Option<Seq<char>>) -> bool {
    match path {
        Some(p) => segment_has_ext(p),
        None => false,
    }
}

fn segment_has_ext_chars(path: &str) -> (r: bool)
    ensures
        r == segment_has_ext(path@),
{
    let p = chars_of(path);
    proof {
        lemma_last_slash(p@);
    }
    let mut k: usize = p.len();
    while k > 0 && p[k - 1] != '/'
        invariant
            k <= p@.len(),
            forall|j: int| k <= j < p@.len() ==> p@[j] != '/',
        decreases k,
    {
        k = k - 1;
    }
    if k == 0 {
        proof {
            if last_slash(p@) >= 0 {
                assert(p@[last_slash(p@)] == '/');
            }
        }
        return false;
    }
    proof {
        assert(p@[k - 1] == '/');
        assert(last_slash(p@) == k - 1) by {
            if last_slash(p@) > k - 1 {
                assert(p@[last_slash(p@)] != '/');
            }
            if last_slash(p@) < k - 1 {
                assert(p@[k - 1] != '/');
            }
        }
    }
    let tail = copy_range(&p, k, p.len());
    proof {
        assert(tail@ =~= p@.skip(k as int));
    }
    contains_char(&tail, '.') && !(tail.len() > 0 && tail[tail.len() - 1] == '.')
}

// ---------------------------------------------------------------------------
// URL variations
// ---------------------------------------------------------------------------

pub open spec fn md_suffix() -> Seq<char> {
    seq!['.', 'm', 'd']
}

pub open spec fn txt_suffix() -> Seq<char> {
    seq!['.', 't', 'x', 't']
}

pub open spec fn html_md_suffix() -> Seq<char> {
    seq!['.', 'h', 't', 'm', 'l', '.', 'm', 'd']
}

pub open spec fn index_md_suffix() -> Seq<char> {
    seq!['/', 'i', 'n', 'd', 'e', 'x', '.', 'm', 'd']
}

pub open spec fn llms_suffix() -> Seq<char> {
    seq!['/', 'l', 'l', 'm', 's', '.', 't', 'x', 't']
}

pub open spec fn llms_full_suffix() -> Seq<char> {
    seq!['/', 'l', 'l', 'm', 's', '-', 'f', 'u', 'l', 'l', '.', 't', 'x', 't']
}

/// The URL variations the fetch pipeline tries, in order: the URL itself;
/// nothing more when it already names a markdown or text file or carries a
/// query; `.md` appended to the slash-trimmed base; and, when the path's
/// final segment has no file extension, the `.html.md`, `/index.md`,
/// `/llms.txt` and `/llms-full.txt` forms as well.
pub open spec fn variations_spec(url: Seq<char>, path: Option<Seq<char>>) -> Seq<Seq<char>> {
    if ends_ci(url, md_suffix()) || ends_ci(url, txt_suffix()) {
        seq![url]
    } else if has_char(url, '?') {
        seq![url]
    } else {
        let base = trim_end_slashes(url);
        if has_file_ext(path) {
            seq![url, base + md_suffix()]
        } else {
            seq![
                url,
                base + md_suffix(),
                base + html_md_suffix(),
                base + index_md_suffix(),
                base + llms_suffix(),
                base + llms_full_suffix(),
            ]
        }
    }
}

/// A copy of `base` with `suffix` appended, as a string.
fn with_suffix(base: &Vec<char>, suffix: &Vec<char>) -> (r: String)
    ensures
        r@ == base@ + suffix@,
{
    let mut v = copy_range(base, 0, base.len());
    proof {
        assert(v@ =~= base@);
    }
    append_chars(&mut v, suffix);
    chars_to_string(v)
}

/// The views of a vector of strings.
pub open spec fn string_views(v: Seq<String>) -> Seq<Seq<char>> {
    v.map_values(|s: String| s@)
}

/// The URL variations to try when fetching a documentation page.
pub fn get_url_variations(url: &str) -> (r: Vec<String>)
    ensures
        string_views(r@) == variations_spec(url@, url_path_of(url@)),
{
    let uv = chars_of(url);
    let mut variations: Vec<String> = Vec::new();
    variations.push(url.to_owned());
    proof {
        assert(string_views(variations@) =~~= seq![url@]);
    }
    let md_sfx: Vec<char> = vec!['.', 'm', 'd'];
    let txt_sfx: Vec<char> = vec!['.', 't', 'x', 't'];
    proof {
        assert(md_sfx@ =~= md_suffix());
        assert(txt_sfx@ =~= txt_suffix());
    }
    if ends_with_ci(&uv, &md_sfx) || ends_with_ci(&uv, &txt_sfx) {
        return variations;
    }
    if contains_char(&uv, '?') {
        return variations;
    }
    // trim trailing slashes off the base
    let mut hi: usize = uv.len();
    while hi > 0 && uv[hi - 1] == '/'
        invariant
            hi <= uv@.len(),
            forall|j: int| hi <= j < uv@.len() ==> uv@[j] == '/',
        decreases hi,
    {
        hi = hi - 1;
    }
    proof {
        lemma_trim_end_slashes_at(uv@, hi as int);
    }
    let base = copy_range(&uv, 0, hi);
    proof {
        assert(base@ =~= trim_end_slashes(uv@));
    }
    let has_ext: bool = match parse_url_path(url) {
        Some(p) => segment_has_ext_chars(p.as_str()),
        None => false,
    };
    variations.push(with_suffix(&base, &md_sfx));
    if !has_ext {
        let html_md_sfx: Vec<char> = vec!['.', 'h', 't', 'm', 'l', '.', 'm', 'd'];
        let index_md_sfx: Vec<char> = vec!['/', 'i', 'n', 'd', 'e', 'x', '.', 'm', 'd'];
        let llms_sfx: Vec<char> = vec!['/', 'l', 'l', 'm', 's', '.', 't', 'x', 't'];
        let llms_full_sfx: Vec<char> = vec![
            '/',
            'l',
            'l',
            'm',
            's',
            '-',
            'f',
            'u',
            'l',
            'l',
            '.',
            't',
            'x',
            't',
        ];
        proof {
            assert(html_md_sfx@ =~= html_md_suffix());
            assert(index_md_sfx@ =~= index_md_suffix());
            assert(llms_sfx@ =~= llms_suffix());
            assert(llms_full_sfx@ =~= llms_full_suffix());
        }
        variations.push(with_suffix(&base, &html_md_sfx));
        variations.push(with_suffix(&base, &index_md_sfx));
        variations.push(with_suffix(&base, &llms_sfx));
        variations.push(with_suffix(&base, &llms_full_sfx));
        proof {
            assert(string_views(variations@) =~~= variations_spec(url@, url_path_of(url@)));
        }
    } else {
        proof {
            assert(string_views(variations@) =~~= variations_spec(url@, url_path_of(url@)));
        }
    }
    variations
}

// ---------------------------------------------------------------------------
// Cache-path sanitisation
// ---------------------------------------------------------------------------

/// The characters that may not appear in a cache file name.
pub open spec fn is_fs_unsafe(c: char) -> bool {
    c == '/' || c == '\\' || c == ':' || c == '*' || c == '?' || c == '"' || c == '<' || c == '>'
        || c == '|'
}

/// The query string with every filesystem-unsafe character replaced by an
/// underscore.
pub open spec fn sanitize_spec(s: Seq<char>) -> Seq<char> {
    s.map_values(
        |c: char|
            if is_fs_unsafe(c) {
                '_'
            } else {
                c
            },
    )
}

fn is_fs_unsafe_char(c: char) -> (r: bool)
    ensures
        r == is_fs_unsafe(c),
{
    c == '/' || c == '\\' || c == ':' || c == '*' || c == '?' || c == '"' || c == '<' || c == '>'
        || c == '|'
}

/// Replaces the characters that cannot stand in a file name by `_`, as
/// done to query strings before they become part of a cache path.
pub fn sanitize_query(query: &str) -> (r: String)
    ensures
        r@ == sanitize_spec(query@),
{
    let v = chars_of(query);
    let mut out: Vec<char> = Vec::new();
    let mut k: usize = 0;
    while k < v.len()
        invariant
            v@ == query@,
            k <= v@.len(),
            out@ == sanitize_spec(v@.take(k as int)),
        decreases v@.len() - k,
    {
        let c = v[k];
        if is_fs_unsafe_char(c) {
            out.push('_');
        } else {
            out.push(c);
        }
        k = k + 1;
        proof {
            assert(sanitize_spec(v@.take(k as int)) =~= sanitize_spec(v@.take(k - 1)).push(
                if is_fs_unsafe(v@[k - 1]) {
                    '_'
                } else {
                    v@[k - 1]
                },
            ));
        }
    }
    proof {
        assert(v@.take(v@.len() as int) =~= v@);
    }
    chars_to_string(out)
}

/// True when a URL path component may become a directory name: `.` and
/// `..` are rejected.
pub fn path_component_ok(component: &str) -> (r: bool)
    ensures
        r == !(component@ =~= seq!['.'] || component@ =~= seq!['.', '.']),
{
    let v = chars_of(component);
    if v.len() == 1 && v[0] == '.' {
        proof {
            assert(v@ =~= seq!['.']);
        }
        false
    } else if v.len() == 2 && v[0] == '.' && v[1] == '.' {
        proof {
            assert(v@ =~= seq!['.', '.']);
        }
        false
    } else {
        proof {
            assert(!(v@ =~= seq!['.']) && !(v@ =~= seq!['.', '.']));
        }
        true
    }
}

// ---------------------------------------------------------------------------
// Content-type classification
// ---------------------------------------------------------------------------

/// True when `pat` occurs somewhere in `s`, compared
/// ASCII-case-insensitively.
pub open spec fn ci_contains(s: Seq<char>, pat: Seq<char>) -> bool {
    first_tag(s, pat, 0) is Some
}

pub open spec fn llms_full_marker() -> Seq<char> {
    seq!['/', 'l', 'l', 'm', 's', '-', 'f', 'u', 'l', 'l', '.', 't', 'x', 't']
}

pub open spec fn llms_marker() -> Seq<char> {
    seq!['/', 'l', 'l', 'm', 's', '.', 't', 'x', 't']
}

/// The label recorded for a fetched document: by the URL's file name
/// first, then by the content-type flags the response carried.
pub open spec fn content_type_spec(url: Seq<char>, is_markdown: bool, is_html: bool) -> Seq<
    char,
> {
    if ci_contains(url, llms_full_marker()) {
        seq!['l', 'l', 'm', 's', '-', 'f', 'u', 'l', 'l']
    } else if ci_contains(url, llms_marker()) {
        seq!['l', 'l', 'm', 's']
    } else if is_markdown {
        seq!['m', 'a', 'r', 'k', 'd', 'o', 'w', 'n']
    } else if is_html {
        seq!['h', 't', 'm', 'l', '-', 'c', 'o', 'n', 'v', 'e', 'r', 't', 'e', 'd']
    } else {
        seq!['t', 'e', 'x', 't']
    }
}

/// Classifies a fetched document for its result record.
pub fn classify_content(url: &str, is_markdown: bool, is_html: bool) -> (r: String)
    ensures
        r@ == content_type_spec(url@, is_markdown, is_html),
{
    let uv = chars_of(url);
    let full_marker: Vec<char> = vec![
        '/',
        'l',
        'l',
        'm',
        's',
        '-',
        'f',
        'u',
        'l',
        'l',
        '.',
        't',
        'x',
        't',
    ];
    let llms_mk: Vec<char> = vec!['/', 'l', 'l', 'm', 's', '.', 't', 'x', 't'];
    proof {
        assert(full_marker@ =~= llms_full_marker());
        assert(llms_mk@ =~= llms_marker());
    }
    let label: Vec<char> = if crate::html::find_first_tag(&uv, &full_marker, 0).is_some() {
        vec!['l', 'l', 'm', 's', '-', 'f', 'u', 'l', 'l']
    } else if crate::html::find_first_tag(&uv, &llms_mk, 0).is_some() {
        vec!['l', 'l', 'm', 's']
    } else if is_markdown {
        vec!['m', 'a', 'r', 'k', 'd', 'o', 'w', 'n']
    } else if is_html {
        vec!['h', 't', 'm', 'l', '-', 'c', 'o', 'n', 'v', 'e', 'r', 't', 'e', 'd']
    } else {
        vec!['t', 'e', 'x', 't']
    };
    proof {
        assert(label@ =~= content_type_spec(url@, is_markdown, is_html));
    }
    chars_to_string(label)
}

} // verus!
