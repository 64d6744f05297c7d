//! Rendering an outline, selecting the deepest heading level that fits a
//! byte budget, and the orchestrating entry point.

use vstd::prelude::*;

verus! {

use crate::events::{chars_of, chars_to_string};
use crate::extract::{extract_headings, spec_headings};
use crate::heading::{Heading, HeadingV, TocConfig, heading_views};
use crate::text::{byte_len, byte_size_of};

// ---------------------------------------------------------------------------
// Rendering, in specification form
// ---------------------------------------------------------------------------

/// The decimal digit `d` as a character.
pub open spec fn digit_char(d: int) -> char {
    ((48 + d) as u8) as char
}

/// The decimal digits of `n`, most significant first.
pub open spec fn digits_of(n: int) -> Seq<char>
    decreases n,
{
    if n < 10 {
        seq![digit_char(n)]
    } else {
        digits_of(n / 10).push(digit_char(n % 10))
    }
}

/// `n` spaces.
pub open spec fn spaces(n: int) -> Seq<char>
    decreases n,
{
    if n <= 0 {
        Seq::empty()
    } else {
        spaces(n - 1).push(' ')
    }
}

/// The width of the right-justified line-number field, from the largest
/// included line number: at least 3, growing with the number of digits.
pub open spec fn width_for(max_line: int) -> int {
    if max_line < 100 {
        3
    } else if max_line < 1000 {
        4
    } else if max_line < 10000 {
        5
    } else {
        digits_of(max_line).len() as int
    }
}

/// One outline line: the line number right-justified to `width`, an arrow,
/// and the heading text.
pub open spec fn line_str(h: HeadingV, width: int) -> Seq<char> {
    let d = digits_of(h.line_number);
    let pad = if d.len() < width {
        spaces(width - d.len())
    } else {
        Seq::empty()
    };
    pad + d + seq!['\u{2192}'] + h.text
}

/// The headings of level at most `maxl`, in order.
pub open spec fn filter_le(hs: Seq<HeadingV>, maxl: u8) -> Seq<HeadingV>
    decreases hs.len(),
{
    if hs.len() == 0 {
        Seq::empty()
    } else {
        filter_le(hs.drop_last(), maxl) + (if hs.last().level <= maxl {
            seq![hs.last()]
        } else {
            Seq::empty()
        })
    }
}

/// The first `n` outline lines for the filtered headings `fh`, joined by
/// single newlines.
pub open spec fn render_lines(fh: Seq<HeadingV>, width: int, n: int) -> Seq<char>
    decreases n,
{
    if n <= 0 {
        Seq::empty()
    } else {
        render_lines(fh, width, n - 1) + (if n > 1 {
            seq!['\n']
        } else {
            Seq::empty()
        }) + line_str(fh[n - 1], width)
    }
}

/// The rendered outline of the headings of level at most `maxl`: empty when
/// none qualifies, otherwise one line per heading with no trailing newline.
pub open spec fn render_spec(hs: Seq<HeadingV>, maxl: u8) -> Seq<char> {
    let fh = filter_le(hs, maxl);
    if fh.len() == 0 {
        Seq::empty()
    } else {
        render_lines(fh, width_for(fh.last().line_number), fh.len() as int)
    }
}

// ---------------------------------------------------------------------------
// Level selection, in specification form
// ---------------------------------------------------------------------------

/// The deepest level in `hs`, or 0 when there are none.
pub open spec fn max_level_of(hs: Seq<HeadingV>) -> u8
    decreases hs.len(),
{
    if hs.len() == 0 {
        0
    } else {
        let m = max_level_of(hs.drop_last());
        if hs.last().level > m {
            hs.last().level
        } else {
            m
        }
    }
}

/// The deepest level in `1..=level` whose rendered outline is non-empty and
/// fits the budget, with that outline.
pub open spec fn best_up_to(hs: Seq<HeadingV>, budget: usize, level: int) -> Option<(u8, Seq<char>)>
    decreases level,
{
    if level <= 0 {
        None
    } else {
        let r = render_spec(hs, level as u8);
        if r.len() > 0 && byte_len(r) <= budget {
            Some((level as u8, r))
        } else {
            best_up_to(hs, budget, level - 1)
        }
    }
}

/// What level selection returns for a heading list and a budget.
pub open spec fn select_spec(hs: Seq<HeadingV>, budget: usize) -> Option<(u8, Seq<char>)> {
    if hs.len() == 0 {
        None
    } else {
        best_up_to(hs, budget, max_level_of(hs) as int)
    }
}

/// What outline generation returns for a document, the caller's size
/// measurement, and a configuration.
pub open spec fn generate_spec(md: Seq<char>, total_bytes: usize, cfg: TocConfig) -> Option<
    Seq<char>,
> {
    if total_bytes < cfg.full_content_threshold {
        None
    } else {
        let hs = spec_headings(md);
        if hs.len() == 0 {
            None
        } else {
            match select_spec(hs, cfg.toc_budget) {
                Some((l, s)) => if s.len() == 0 {
                    None
                } else {
                    Some(s)
                },
                None => None,
            }
        }
    }
}

pub open spec fn opt_level_view(o: Option<(u8, String)>) -> Option<(u8, Seq<char>)> {
    match o {
        Option::Some(p) => Some((p.0, p.1@)),
        Option::None => None,
    }
}

pub open spec fn opt_str_view(o: Option<String>) -> Option<Seq<char>> {
    match o {
        Option::Some(s) => Some(s@),
        Option::None => None,
    }
}

// ---------------------------------------------------------------------------
// Supporting lemmas
// ---------------------------------------------------------------------------

pub proof fn lemma_filter_take_succ(hs: Seq<HeadingV>, maxl: u8, i: int)
    requires
        0 <= i < hs.len(),
    ensures
        filter_le(hs.take(i + 1), maxl) == filter_le(hs.take(i), maxl) + (if hs[i].level <= maxl {
            seq![hs[i]]
        } else {
            Seq::<HeadingV>::empty()
        }),
{
    assert(hs.take(i + 1).drop_last() =~= hs.take(i));
    assert(hs.take(i + 1).last() == hs[i]);
}

/// The first `n` rendered lines depend only on the first `n` filtered
/// headings.
pub proof fn lemma_render_lines_prefix(fh1: Seq<HeadingV>, fh2: Seq<HeadingV>, width: int, n: int)
    requires
        0 <= n <= fh1.len(),
        n <= fh2.len(),
        forall|k: int| 0 <= k < n ==> fh1[k] == fh2[k],
    ensures
        render_lines(fh1, width, n) == render_lines(fh2, width, n),
    decreases n,
{
    if n > 0 {
        lemma_render_lines_prefix(fh1, fh2, width, n - 1);
    }
}

// ---------------------------------------------------------------------------
// Rendering, executable
// ---------------------------------------------------------------------------

/// The decimal digits of `n`, most significant first.
fn digits_vec(n: usize) -> (r: Vec<char>)
    ensures
        r@ == digits_of(n as int),
{
    let mut r: Vec<char> = Vec::new();
    let mut x: usize = n;
    loop
        invariant_except_break
            digits_of(n as int) == digits_of(x as int) + r@,
        ensures
            r@ == digits_of(n as int),
        decreases x,
    {
        let ghost pre_r = r@;
        let ghost pre_x = x;
        let d: usize = x % 10;
        let c: char = (48u8 + (d as u8)) as char;
        r.insert(0, c);
        x = x / 10;
        proof {
            assert(c == digit_char(d as int));
            assert(r@ =~= seq![c] + pre_r);
            if pre_x >= 10 {
                assert(digits_of(x as int) + r@ =~= (digits_of(x as int).push(c)) + pre_r);
            } else {
                assert(digits_of(pre_x as int) =~= seq![c]);
                assert(digits_of(n as int) =~= r@);
            }
        }
        if x == 0 {
            break ;
        }
    }
    r
}

/// Pushes `count` spaces.
fn push_spaces(acc: &mut Vec<char>, count: usize)
    ensures
        final(acc)@ == old(acc)@ + spaces(count as int),
{
    let mut k: usize = 0;
    while k < count
        invariant
            k <= count,
            acc@ == old(acc)@ + spaces(k as int),
        decreases count - k,
    {
        acc.push(' ');
        k = k + 1;
        proof {
            assert(old(acc)@ + spaces(k as int) =~= (old(acc)@ + spaces(k - 1)).push(' '));
        }
    }
}

/// The field width for the largest included line number.
fn width_of_line(max_line: usize) -> (w: usize)
    ensures
        w as int == width_for(max_line as int),
        w >= 3,
{
    if max_line < 100 {
        3
    } else if max_line < 1000 {
        4
    } else if max_line < 10000 {
        5
    } else {
        let d = digits_vec(max_line);
        proof {
            lemma_digits_len(max_line as int);
        }
        d.len()
    }
}

/// The digit expansion of a value of at least 10000 has at least 5 digits.
proof fn lemma_digits_len(n: int)
    requires
        n >= 0,
    ensures
        digits_of(n).len() >= 1,
        n >= 10 ==> digits_of(n).len() >= 2,
        n >= 100 ==> digits_of(n).len() >= 3,
        n >= 1000 ==> digits_of(n).len() >= 4,
        n >= 10000 ==> digits_of(n).len() >= 5,
    decreases n,
{
    if n >= 10 {
        lemma_digits_len(n / 10);
    }
}

/// Appends one outline line for `h`.
fn push_line(acc: &mut Vec<char>, h: &Heading, width: usize)
    ensures
        final(acc)@ == old(acc)@ + line_str(h@, width as int),
{
    let d = digits_vec(h.line_number);
    if d.len() < width {
        push_spaces(acc, width - d.len());
    }
    crate::extract::append_chars(acc, &d);
    acc.push('\u{2192}');
    let text_chars = chars_of(h.text.as_str());
    crate::extract::append_chars(acc, &text_chars);
    proof {
        assert(acc@ =~= old(acc)@ + line_str(h@, width as int));
    }
}

/// The rendered outline of the headings of level at most `max_level`, as
/// characters.
fn render_chars(headings: &Vec<Heading>, max_level: u8) -> (r: Vec<char>)
    ensures
        r@ == render_spec(heading_views(headings@), max_level),
{
    let ghost hs = heading_views(headings@);
    proof {
        assert(hs.len() == headings@.len());
    }
    // find the last heading that the filter keeps
    let mut last: Option<usize> = None;
    let mut i: usize = 0;
    while i < headings.len()
        invariant
            hs == heading_views(headings@),
            hs.len() == headings@.len(),
            i <= headings@.len(),
            match last {
                Some(j) => j < i && hs[j as int].level <= max_level && filter_le(
                    hs.take(i as int),
                    max_level,
                ).len() > 0 && filter_le(hs.take(i as int), max_level).last() == hs[j as int],
                None => filter_le(hs.take(i as int), max_level).len() == 0,
            },
        decreases headings@.len() - i,
    {
        proof {
            lemma_filter_take_succ(hs, max_level, i as int);
        }
        if headings[i].level <= max_level {
            last = Some(i);
        }
        i = i + 1;
    }
    proof {
        assert(hs.take(hs.len() as int) =~= hs);
    }
    let j = match last {
        Some(j) => j,
        None => {
            proof {
                assert(render_spec(hs, max_level) =~= Seq::<char>::empty());
            }
            let empty_out: Vec<char> = Vec::new();
            proof {
                assert(empty_out@ =~= render_spec(hs, max_level));
            }
            return empty_out;
        },
    };
    let width = width_of_line(headings[j].line_number);
    let ghost fh = filter_le(hs, max_level);
    // render one line per kept heading
    let mut acc: Vec<char> = Vec::new();
    let mut cnt: usize = 0;
    let mut k: usize = 0;
    while k < headings.len()
        invariant
            hs == heading_views(headings@),
            hs.len() == headings@.len(),
            fh == filter_le(hs, max_level),
            width as int == width_for(fh.last().line_number),
            fh.len() > 0,
            k <= headings@.len(),
            cnt <= k,
            cnt == filter_le(hs.take(k as int), max_level).len(),
            acc@ == render_lines(filter_le(hs.take(k as int), max_level), width as int, cnt as int),
        decreases headings@.len() - k,
    {
        let ghost pre = filter_le(hs.take(k as int), max_level);
        proof {
            lemma_filter_take_succ(hs, max_level, k as int);
        }
        if headings[k].level <= max_level {
            if cnt > 0 {
                acc.push('\n');
            }
            push_line(&mut acc, &headings[k], width);
            cnt = cnt + 1;
            proof {
                let now = filter_le(hs.take(k as int + 1), max_level);
                assert(now =~= pre.push(hs[k as int]));
                lemma_render_lines_prefix(pre, now, width as int, cnt - 1);
                assert(acc@ =~= render_lines(now, width as int, cnt as int));
            }
        } else {
            proof {
                assert(filter_le(hs.take(k as int + 1), max_level) =~= pre);
            }
        }
        k = k + 1;
    }
    proof {
        assert(hs.take(hs.len() as int) =~= hs);
        assert(filter_le(hs.take(headings@.len() as int), max_level) == fh);
    }
    acc
}

/// Renders the outline restricted to headings of level at most `max_level`:
/// one `{line number}{arrow}{text}` line per heading, joined by single
/// newlines, empty when no heading qualifies.
pub fn render_toc(headings: &Vec<Heading>, max_level: u8) -> (r: String)
    ensures
        r@ == render_spec(heading_views(headings@), max_level),
{
    let v = render_chars(headings, max_level);
    chars_to_string(v)
}

/// Returns the deepest heading level whose rendered outline is non-empty
/// and fits `budget` bytes, with that outline; every level from 1 up to the
/// deepest level present is tried, since rendered size need not grow with
/// the level.
pub fn find_optimal_level(headings: &Vec<Heading>, budget: usize) -> (r: Option<(u8, String)>)
    ensures
        opt_level_view(r) == select_spec(heading_views(headings@), budget),
        r matches Some(p) ==> p.1@.len() > 0 && byte_len(p.1@) <= budget,
        r matches Some(p) ==> forall|l2: int|
            p.0 < l2 <= max_level_of(heading_views(headings@)) ==> (#[trigger] render_spec(
                heading_views(headings@),
                l2 as u8,
            )).len() == 0 || byte_len(render_spec(heading_views(headings@), l2 as u8)) > budget,
{
    let ghost hs = heading_views(headings@);
    if headings.len() == 0 {
        proof {
            assert(hs.len() == 0);
        }
        return None;
    }
    let mut maxl: u8 = 0;
    let mut i: usize = 0;
    while i < headings.len()
        invariant
            hs == heading_views(headings@),
            hs.len() == headings@.len(),
            i <= headings@.len(),
            maxl == max_level_of(hs.take(i as int)),
        decreases headings@.len() - i,
    {
        proof {
            assert(hs.take(i as int + 1).drop_last() =~= hs.take(i as int));
            assert(hs.take(i as int + 1).last() == hs[i as int]);
        }
        if headings[i].level > maxl {
            maxl = headings[i].level;
        }
        i = i + 1;
    }
    proof {
        assert(hs.take(hs.len() as int) =~= hs);
    }
    let mut best: Option<(u8, String)> = None;
    let mut level: usize = 1;
    while level <= maxl as usize
        invariant
            hs == heading_views(headings@),
            hs.len() == headings@.len(),
            hs.len() > 0,
            maxl == max_level_of(hs),
            1 <= level <= maxl as usize + 1,
            opt_level_view(best) == best_up_to(hs, budget, level - 1),
            best matches Some(p) ==> p.1@.len() > 0 && byte_len(p.1@) <= budget,
        decreases maxl as int + 1 - level as int,
    {
        let rendered = render_chars(headings, level as u8);
        if rendered.len() > 0 {
            let bytes = byte_size_of(&rendered);
            if bytes <= budget as u128 {
                best = Some((level as u8, chars_to_string(rendered)));
            }
        }
        level = level + 1;
    }
    proof {
        lemma_selected_level_is_deepest(hs, budget, maxl as int);
    }
    best
}

// ---------------------------------------------------------------------------
// Laws of level selection
// ---------------------------------------------------------------------------

/// The shallowest level in `hs`, or 255 when there are none.
pub open spec fn min_level_of(hs: Seq<HeadingV>) -> u8
    decreases hs.len(),
{
    if hs.len() == 0 {
        255
    } else {
        let m = min_level_of(hs.drop_last());
        if hs.last().level < m {
            hs.last().level
        } else {
            m
        }
    }
}

proof fn lemma_min_level_attained(hs: Seq<HeadingV>)
    requires
        hs.len() > 0,
    ensures
        exists|k: int| 0 <= k < hs.len() && (#[trigger] hs[k]).level == min_level_of(hs),
        forall|k: int| 0 <= k < hs.len() ==> (#[trigger] hs[k]).level >= min_level_of(hs),
    decreases hs.len(),
{
    if hs.len() == 1 {
        assert(hs[0].level == min_level_of(hs));
    } else {
        lemma_min_level_attained(hs.drop_last());
        let m = min_level_of(hs.drop_last());
        if hs.last().level < m {
            assert(hs[hs.len() - 1].level == min_level_of(hs));
        } else {
            let k = choose|k: int|
                0 <= k < hs.drop_last().len() && (#[trigger] hs.drop_last()[k]).level == m;
            assert(hs[k].level == min_level_of(hs));
        }
        assert forall|k: int| 0 <= k < hs.len() implies (#[trigger] hs[k]).level >= min_level_of(
            hs,
        ) by {
            if k < hs.len() - 1 {
                assert(hs.drop_last()[k].level >= m);
            }
        }
    }
}

proof fn lemma_max_level_bound(hs: Seq<HeadingV>)
    ensures
        forall|k: int| 0 <= k < hs.len() ==> (#[trigger] hs[k]).level <= max_level_of(hs),
    decreases hs.len(),
{
    if hs.len() > 0 {
        lemma_max_level_bound(hs.drop_last());
        assert forall|k: int| 0 <= k < hs.len() implies (#[trigger] hs[k]).level <= max_level_of(
            hs,
        ) by {
            if k < hs.len() - 1 {
                assert(hs.drop_last()[k].level <= max_level_of(hs.drop_last()));
            }
        }
    }
}

proof fn lemma_filter_nonempty(hs: Seq<HeadingV>, maxl: u8)
    requires
        exists|k: int| 0 <= k < hs.len() && (#[trigger] hs[k]).level <= maxl,
    ensures
        filter_le(hs, maxl).len() > 0,
    decreases hs.len(),
{
    let k = choose|k: int| 0 <= k < hs.len() && (#[trigger] hs[k]).level <= maxl;
    if k == hs.len() - 1 {
    } else {
        assert(hs.drop_last()[k] == hs[k]);
        lemma_filter_nonempty(hs.drop_last(), maxl);
    }
}

/// A rendered outline of at least one heading is never empty: each line
/// carries at least its digits and the arrow.
proof fn lemma_render_nonempty(hs: Seq<HeadingV>, maxl: u8)
    requires
        exists|k: int| 0 <= k < hs.len() && (#[trigger] hs[k]).level <= maxl,
    ensures
        render_spec(hs, maxl).len() > 0,
{
    lemma_filter_nonempty(hs, maxl);
    let fh = filter_le(hs, maxl);
    let w = width_for(fh.last().line_number);
    let n = fh.len() as int;
    assert(render_spec(hs, maxl) == render_lines(fh, w, n));
    assert(render_lines(fh, w, n).len() >= line_str(fh[n - 1], w).len());
    assert(line_str(fh[n - 1], w).len() >= 1);
}

/// Whatever level selection settles on fits the budget, is non-empty, and
/// is the outline rendered at the level it names.
pub proof fn lemma_best_fits(hs: Seq<HeadingV>, budget: usize, level: int)
    requires
        level <= 255,
    ensures
        match best_up_to(hs, budget, level) {
            Some(p) => 1 <= p.0 && p.0 as int <= level && p.1.len() > 0 && byte_len(p.1) <= budget
                && p.1 == render_spec(hs, p.0),
            None => true,
        },
    decreases level,
{
    if level > 0 {
        lemma_best_fits(hs, budget, level - 1);
    }
}

/// When some level in range fits, selection returns a level.
proof fn lemma_best_some(hs: Seq<HeadingV>, budget: usize, l: int, maxl: int)
    requires
        1 <= l <= maxl,
        render_spec(hs, l as u8).len() > 0,
        byte_len(render_spec(hs, l as u8)) <= budget,
    ensures
        best_up_to(hs, budget, maxl) is Some,
    decreases maxl,
{
    if maxl > l {
        lemma_best_some(hs, budget, l, maxl - 1);
    }
}


/// No level deeper than the selected one fits: what selection skips was
/// empty or over budget, at every level up to the deepest tried.
pub proof fn lemma_selected_level_is_deepest(hs: Seq<HeadingV>, budget: usize, level: int)
    requires
        level <= 255,
    ensures
        match best_up_to(hs, budget, level) {
            Some(p) => forall|l2: int|
                p.0 < l2 <= level ==> (#[trigger] render_spec(hs, l2 as u8)).len() == 0 || byte_len(
                    render_spec(hs, l2 as u8),
                ) > budget,
            None => forall|l2: int|
                0 < l2 <= level ==> (#[trigger] render_spec(hs, l2 as u8)).len() == 0 || byte_len(
                    render_spec(hs, l2 as u8),
                ) > budget,
        },
    decreases level,
{
    if level > 0 {
        lemma_selected_level_is_deepest(hs, budget, level - 1);
        let r = render_spec(hs, level as u8);
        if !(r.len() > 0 && byte_len(r) <= budget) {
            match best_up_to(hs, budget, level - 1) {
                Some(p) => {
                    assert forall|l2: int|
                        p.0 < l2 <= level implies (#[trigger] render_spec(hs, l2 as u8)).len() == 0
                        || byte_len(render_spec(hs, l2 as u8)) > budget by {
                        if l2 == level {
                            assert(render_spec(hs, l2 as u8) == r);
                        }
                    }
                },
                None => {
                    assert forall|l2: int|
                        0 < l2 <= level implies (#[trigger] render_spec(hs, l2 as u8)).len() == 0
                        || byte_len(render_spec(hs, l2 as u8)) > budget by {
                        if l2 == level {
                            assert(render_spec(hs, l2 as u8) == r);
                        }
                    }
                },
            }
        }
    }
}

/// For every document whose caller-supplied size reaches the threshold and
/// whose heading list is non-empty, if the outline rendered at the
/// shallowest present heading level fits the budget, generation yields a
/// non-empty outline within the budget.
pub proof fn lemma_toc_present(md: Seq<char>, total_bytes: usize, cfg: TocConfig)
    requires
        crate::events::levels_in_range(crate::events::parsed_events(md)),
        total_bytes >= cfg.full_content_threshold,
        spec_headings(md).len() > 0,
        byte_len(render_spec(spec_headings(md), min_level_of(spec_headings(md))))
            <= cfg.toc_budget,
    ensures
        generate_spec(md, total_bytes, cfg) is Some,
        generate_spec(md, total_bytes, cfg)->Some_0.len() > 0,
        byte_len(generate_spec(md, total_bytes, cfg)->Some_0) <= cfg.toc_budget,
{
    let hs = spec_headings(md);
    let evs = crate::events::parsed_events(md);
    crate::extract::lemma_run_invariants(md, evs, evs.len() as int);
    assert(forall|k: int|
        0 <= k < hs.len() ==> crate::extract::heading_wf(#[trigger] hs[k]));
    let l = min_level_of(hs);
    lemma_min_level_attained(hs);
    let k = choose|k: int| 0 <= k < hs.len() && (#[trigger] hs[k]).level == l;
    assert(1 <= l <= 6);
    lemma_max_level_bound(hs);
    assert(l <= max_level_of(hs));
    lemma_render_nonempty(hs, l);
    lemma_best_some(hs, cfg.toc_budget, l as int, max_level_of(hs) as int);
    lemma_best_fits(hs, cfg.toc_budget, max_level_of(hs) as int);
}

// ---------------------------------------------------------------------------
// The entry point
// ---------------------------------------------------------------------------

/// Generates the outline for a markdown document, one
/// `{line number}{arrow}{heading text}` line per heading. Returns `None`
/// when the caller's size measurement is below the configured threshold,
/// when the document has no headings, or when no heading level fits the
/// byte budget.
///
/// The character count is asked to lie below `usize::MAX` so that line
/// numbers fit in `usize`; every real string satisfies this.
pub fn generate_toc(markdown: &str, total_bytes: usize, config: &TocConfig) -> (r: Option<String>)
    requires
        markdown@.len() < usize::MAX,
    ensures
        opt_str_view(r) == generate_spec(markdown@, total_bytes, *config),
        total_bytes < config.full_content_threshold ==> r is None,
        r matches Some(t) ==> t@.len() > 0 && byte_len(t@) <= config.toc_budget,
{
    if total_bytes < config.full_content_threshold {
        return None;
    }
    let headings = extract_headings(markdown);
    if headings.len() == 0 {
        proof {
            assert(spec_headings(markdown@).len() == 0);
        }
        return None;
    }
    proof {
        assert(spec_headings(markdown@).len() > 0);
    }
    match find_optimal_level(&headings, config.toc_budget) {
        Some(p) => {
            let (_level, toc) = p;
            if toc.as_str().is_empty() {
                None
            } else {
                Some(toc)
            }
        },
        None => None,
    }
}

} // verus!
