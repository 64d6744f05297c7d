//! Character classes, UTF-8 byte lengths, and the text normalisation steps
//! applied to heading text: trimming, setext-underline removal, and space
//! collapsing.

use vstd::prelude::*;

verus! {

use vstd::utf8::{encode_utf8, encode_scalar};

// ---------------------------------------------------------------------------
// Character classes
// ---------------------------------------------------------------------------

/// The Unicode `White_Space` code points, as used by `char::is_whitespace`.
pub open spec fn is_ws_char(c: char) -> bool {
    let u = c as u32;
    u == 0x09 || u == 0x0A || u == 0x0B || u == 0x0C || u == 0x0D || u == 0x20 || u == 0x85
        || u == 0xA0 || u == 0x1680 || (0x2000 <= u && u <= 0x200A) || u == 0x2028 || u == 0x2029
        || u == 0x202F || u == 0x205F || u == 0x3000
}

/// Whitespace, zero-width characters, or the pilcrow sign: the characters a
/// decorative anchor link may consist of while still counting as empty.
pub open spec fn is_invisible_char(c: char) -> bool {
    let u = c as u32;
    is_ws_char(c) || u == 0x200B || u == 0xFEFF || u == 0x200C || u == 0x200D || u == 0xB6
}

/// True when every character of `s` is whitespace or an invisible glyph.
pub open spec fn all_invisible(s: Seq<char>) -> bool {
    forall|i: int| 0 <= i < s.len() ==> is_invisible_char(#[trigger] s[i])
}

/// True when every character of `s` is whitespace — `str::trim` leaves
/// nothing of such a string.
pub open spec fn all_ws(s: Seq<char>) -> bool {
    forall|i: int| 0 <= i < s.len() ==> is_ws_char(#[trigger] s[i])
}

/// ASCII-lowercases one character; every other character stays itself.
pub open spec fn ascii_lower(c: char) -> char {
    let u = c as u32;
    if 65 <= u && u <= 90 {
        (((u as u8) + 32) as char)
    } else {
        c
    }
}

/// True when some character of `s` is neither whitespace nor `#`.
pub open spec fn has_content(s: Seq<char>) -> bool {
    exists|i: int| 0 <= i < s.len() && !is_ws_char(#[trigger] s[i]) && s[i] != '#'
}

pub fn is_whitespace_char(c: char) -> (r: bool)
    ensures
        r == is_ws_char(c),
{
    let u = c as u32;
    u == 0x09 || u == 0x0A || u == 0x0B || u == 0x0C || u == 0x0D || u == 0x20 || u == 0x85
        || u == 0xA0 || u == 0x1680 || (0x2000 <= u && u <= 0x200A) || u == 0x2028 || u == 0x2029
        || u == 0x202F || u == 0x205F || u == 0x3000
}

pub fn is_invisible(c: char) -> (r: bool)
    ensures
        r == is_invisible_char(c),
{
    let u = c as u32;
    is_whitespace_char(c) || u == 0x200B || u == 0xFEFF || u == 0x200C || u == 0x200D || u == 0xB6
}

// ---------------------------------------------------------------------------
// UTF-8 byte lengths of character sequences
// ---------------------------------------------------------------------------

/// Width in bytes of the UTF-8 encoding of one character.
pub open spec fn char_width(c: char) -> nat {
    encode_scalar(c as u32).len()
}

/// Length in bytes of the UTF-8 encoding of a character sequence.
pub open spec fn byte_len(s: Seq<char>) -> nat {
    encode_utf8(s).len()
}

pub fn char_width_of(c: char) -> (w: u8)
    ensures
        w as nat == char_width(c),
        1 <= w <= 4,
{
    proof {
        vstd::utf8::char_is_scalar(c);
    }
    let u = c as u32;
    if u < 0x80 {
        1
    } else if u < 0x800 {
        2
    } else if u < 0x10000 {
        3
    } else {
        4
    }
}

pub proof fn lemma_encode_utf8_concat(a: Seq<char>, b: Seq<char>)
    ensures
        encode_utf8(a + b) == encode_utf8(a) + encode_utf8(b),
    decreases a.len(),
{
    if a.len() == 0 {
        assert(a + b =~= b);
        assert(encode_utf8(a) + encode_utf8(b) =~= encode_utf8(b));
    } else {
        assert((a + b).drop_first() =~= a.drop_first() + b);
        lemma_encode_utf8_concat(a.drop_first(), b);
        assert((a + b)[0] == a[0]);
        assert(encode_utf8(a) + encode_utf8(b) =~= encode_scalar(a[0] as u32) + (encode_utf8(
            a.drop_first(),
        ) + encode_utf8(b)));
    }
}

pub proof fn lemma_byte_len_concat(a: Seq<char>, b: Seq<char>)
    ensures
        byte_len(a + b) == byte_len(a) + byte_len(b),
{
    lemma_encode_utf8_concat(a, b);
}

pub proof fn lemma_byte_len_singleton(c: char)
    ensures
        byte_len(seq![c]) == char_width(c),
{
    reveal_with_fuel(vstd::utf8::encode_utf8, 3);
    assert(seq![c].drop_first() =~= Seq::<char>::empty());
    assert(seq![c][0] == c);
    assert(encode_utf8(seq![c]) =~= encode_scalar(c as u32));
}

pub proof fn lemma_byte_len_take_succ(s: Seq<char>, i: int)
    requires
        0 <= i < s.len(),
    ensures
        byte_len(s.take(i + 1)) == byte_len(s.take(i)) + char_width(s[i]),
{
    assert(s.take(i + 1) =~= s.take(i) + seq![s[i]]);
    lemma_byte_len_concat(s.take(i), seq![s[i]]);
    lemma_byte_len_singleton(s[i]);
}

pub proof fn lemma_char_width_bounds(c: char)
    ensures
        1 <= char_width(c) <= 4,
{
    vstd::utf8::char_is_scalar(c);
}

pub proof fn lemma_byte_len_ge_len(s: Seq<char>)
    ensures
        byte_len(s) >= s.len(),
    decreases s.len(),
{
    if s.len() > 0 {
        lemma_byte_len_ge_len(s.drop_first());
        lemma_char_width_bounds(s[0]);
        assert(encode_utf8(s) == encode_scalar(s[0] as u32) + encode_utf8(s.drop_first()));
    }
}

pub proof fn lemma_byte_len_subrange(s: Seq<char>, i: int, j: int)
    requires
        0 <= i <= j <= s.len(),
    ensures
        byte_len(s.subrange(i, j)) <= byte_len(s),
        byte_len(s.take(i)) + byte_len(s.subrange(i, j)) == byte_len(s.take(j)),
{
    assert(s.take(j) =~= s.take(i) + s.subrange(i, j));
    lemma_byte_len_concat(s.take(i), s.subrange(i, j));
    assert(s =~= s.take(j) + s.skip(j));
    lemma_byte_len_concat(s.take(j), s.skip(j));
}

pub proof fn lemma_byte_len_take_mono(s: Seq<char>, i: int, j: int)
    requires
        0 <= i <= j <= s.len(),
    ensures
        byte_len(s.take(i)) <= byte_len(s.take(j)),
        i < j ==> byte_len(s.take(i)) < byte_len(s.take(j)),
{
    lemma_byte_len_subrange(s, i, j);
    if i < j {
        lemma_byte_len_ge_len(s.subrange(i, j));
    }
}

pub proof fn lemma_byte_len_take_le(s: Seq<char>, k: int)
    requires
        0 <= k <= s.len(),
    ensures
        byte_len(s.take(k)) <= byte_len(s),
{
    lemma_byte_len_take_mono(s, k, s.len() as int);
    assert(s.take(s.len() as int) =~= s);
}

// ---------------------------------------------------------------------------
// Mapping byte offsets to character indices
// ---------------------------------------------------------------------------

/// The character index whose preceding characters occupy exactly `b` bytes,
/// if `b` falls on a character boundary of the encoding of `s`.
pub open spec fn idx_of_byte(s: Seq<char>, b: int) -> Option<int>
    decreases s.len(),
{
    if b == 0 {
        Some(0)
    } else if b < 0 || s.len() == 0 {
        None
    } else {
        match idx_of_byte(s.drop_first(), b - char_width(s[0])) {
            Some(i) => Some(i + 1),
            None => None,
        }
    }
}

pub proof fn lemma_take_decompose(s: Seq<char>, i: int)
    requires
        1 <= i <= s.len(),
    ensures
        byte_len(s.take(i)) == char_width(s[0]) + byte_len(s.drop_first().take(i - 1)),
{
    assert(s.take(i) =~= seq![s[0]] + s.drop_first().take(i - 1));
    lemma_byte_len_concat(seq![s[0]], s.drop_first().take(i - 1));
    lemma_byte_len_singleton(s[0]);
}

pub proof fn lemma_idx_of_byte(s: Seq<char>, b: int)
    ensures
        match idx_of_byte(s, b) {
            Some(i) => 0 <= i <= s.len() && byte_len(s.take(i)) == b,
            None => forall|i: int| 0 <= i <= s.len() ==> byte_len(#[trigger] s.take(i)) != b,
        },
    decreases s.len(),
{
    if b == 0 {
        assert(s.take(0) =~= Seq::<char>::empty());
    } else if b < 0 || s.len() == 0 {
        assert forall|i: int| 0 <= i <= s.len() implies byte_len(#[trigger] s.take(i)) != b by {
            if s.len() == 0 {
                assert(s.take(i) =~= Seq::<char>::empty());
            }
        }
    } else {
        let w0 = char_width(s[0]) as int;
        lemma_char_width_bounds(s[0]);
        lemma_idx_of_byte(s.drop_first(), b - w0);
        match idx_of_byte(s.drop_first(), b - w0) {
            Some(j) => {
                lemma_take_decompose(s, j + 1);
            },
            None => {
                assert forall|i: int| 0 <= i <= s.len() implies byte_len(#[trigger] s.take(i))
                    != b by {
                    if i == 0 {
                        assert(s.take(0) =~= Seq::<char>::empty());
                    } else {
                        lemma_take_decompose(s, i);
                        assert(byte_len(s.drop_first().take(i - 1)) != b - w0);
                    }
                }
            },
        }
    }
}

// ---------------------------------------------------------------------------
// Newline counting
// ---------------------------------------------------------------------------

/// Number of newline characters in `s`.
pub open spec fn count_nl(s: Seq<char>) -> nat
    decreases s.len(),
{
    if s.len() == 0 {
        0
    } else {
        count_nl(s.drop_last()) + (if s.last() == '\n' {
            1nat
        } else {
            0nat
        })
    }
}

/// Number of newline characters whose encoding lies entirely within the first
/// `b` bytes of the encoding of `s`.
pub open spec fn newlines_upto(s: Seq<char>, b: int) -> nat
    decreases s.len(),
{
    if s.len() == 0 || b < char_width(s[0]) {
        0
    } else {
        (if s[0] == '\n' {
            1nat
        } else {
            0nat
        }) + newlines_upto(s.drop_first(), b - char_width(s[0]))
    }
}

pub proof fn lemma_count_nl_take_succ(s: Seq<char>, i: int)
    requires
        0 <= i < s.len(),
    ensures
        count_nl(s.take(i + 1)) == count_nl(s.take(i)) + (if s[i] == '\n' {
            1nat
        } else {
            0nat
        }),
{
    assert(s.take(i + 1).drop_last() =~= s.take(i));
    assert(s.take(i + 1).last() == s[i]);
}

/// Characterises `newlines_upto` in terms of the maximal character count `k`
/// that fits within `b` bytes.
pub proof fn lemma_newlines_window(s: Seq<char>, k: int, b: int)
    requires
        0 <= k <= s.len(),
        byte_len(s.take(k)) <= b,
        k < s.len() ==> b < byte_len(s.take(k + 1)),
    ensures
        newlines_upto(s, b) == count_nl(s.take(k)),
    decreases s.len(),
{
    if s.len() == 0 {
        assert(s.take(k) =~= Seq::<char>::empty());
    } else {
        let w0 = char_width(s[0]) as int;
        lemma_char_width_bounds(s[0]);
        if k == 0 {
            assert(s.take(0) =~= Seq::<char>::empty());
            lemma_take_decompose(s, 1);
            assert(s.drop_first().take(0) =~= Seq::<char>::empty());
            assert(b < w0);
        } else {
            lemma_take_decompose(s, k);
            assert(byte_len(s.take(k)) >= w0) by {
                lemma_take_decompose(s, 1);
                assert(s.take(1).drop_first() =~= Seq::<char>::empty());
            }
            assert(b >= w0);
            if k < s.len() {
                lemma_take_decompose(s, k + 1);
            }
            lemma_newlines_window(s.drop_first(), k - 1, b - w0);
            assert(s.take(k) =~= seq![s[0]] + s.drop_first().take(k - 1));
            lemma_count_nl_prepend(s[0], s.drop_first().take(k - 1));
        }
    }
}

pub proof fn lemma_count_nl_prepend(c: char, s: Seq<char>)
    ensures
        count_nl(seq![c] + s) == count_nl(s) + (if c == '\n' {
            1nat
        } else {
            0nat
        }),
    decreases s.len(),
{
    reveal_with_fuel(count_nl, 3);
    if s.len() == 0 {
        assert((seq![c] + s) =~= seq![c]);
        assert(seq![c].drop_last() =~= Seq::<char>::empty());
        assert((seq![c] + s).last() == c);
    } else {
        assert((seq![c] + s).drop_last() =~= seq![c] + s.drop_last());
        assert((seq![c] + s).last() == s.last());
        lemma_count_nl_prepend(c, s.drop_last());
    }
}

/// Counting the newlines within a byte prefix never shrinks as the prefix
/// grows.
pub proof fn lemma_newlines_upto_mono(s: Seq<char>, b1: int, b2: int)
    requires
        b1 <= b2,
    ensures
        newlines_upto(s, b1) <= newlines_upto(s, b2),
    decreases s.len(),
{
    if s.len() > 0 && b1 >= char_width(s[0]) {
        lemma_newlines_upto_mono(
            s.drop_first(),
            b1 - char_width(s[0]),
            b2 - char_width(s[0]),
        );
    }
}

pub proof fn lemma_count_nl_concat(a: Seq<char>, b: Seq<char>)
    ensures
        count_nl(a + b) == count_nl(a) + count_nl(b),
    decreases b.len(),
{
    if b.len() == 0 {
        assert(a + b =~= a);
    } else {
        assert((a + b).drop_last() =~= a + b.drop_last());
        assert((a + b).last() == b.last());
        lemma_count_nl_concat(a, b.drop_last());
    }
}

/// `s` with every carriage return removed.
pub open spec fn strip_cr(s: Seq<char>) -> Seq<char>
    decreases s.len(),
{
    if s.len() == 0 {
        Seq::empty()
    } else {
        strip_cr(s.drop_last()) + (if s.last() == '\r' {
            Seq::<char>::empty()
        } else {
            seq![s.last()]
        })
    }
}

/// Newline counting is insensitive to carriage returns: a text with CRLF
/// line endings holds exactly as many newlines as its LF form, so the two
/// yield the same line numbers.
pub proof fn lemma_newline_count_ignores_cr(s: Seq<char>)
    ensures
        count_nl(strip_cr(s)) == count_nl(s),
    decreases s.len(),
{
    if s.len() > 0 {
        lemma_newline_count_ignores_cr(s.drop_last());
        lemma_count_nl_concat(
            strip_cr(s.drop_last()),
            if s.last() == '\r' {
                Seq::<char>::empty()
            } else {
                seq![s.last()]
            },
        );
        if s.last() != '\r' {
            assert(count_nl(seq![s.last()]) == (if s.last() == '\n' {
                1nat
            } else {
                0nat
            })) by {
                reveal_with_fuel(count_nl, 2);
                assert(seq![s.last()].drop_last() =~= Seq::<char>::empty());
                assert(seq![s.last()].last() == s.last());
            }
        }
    }
}

pub proof fn lemma_count_nl_le_len(s: Seq<char>)
    ensures
        count_nl(s) <= s.len(),
    decreases s.len(),
{
    if s.len() > 0 {
        lemma_count_nl_le_len(s.drop_last());
    }
}

// ---------------------------------------------------------------------------
// Trimming
// ---------------------------------------------------------------------------

pub open spec fn trim_start_spec(s: Seq<char>) -> Seq<char>
    decreases s.len(),
{
    if s.len() > 0 && is_ws_char(s[0]) {
        trim_start_spec(s.drop_first())
    } else {
        s
    }
}

pub open spec fn trim_end_spec(s: Seq<char>) -> Seq<char>
    decreases s.len(),
{
    if s.len() > 0 && is_ws_char(s.last()) {
        trim_end_spec(s.drop_last())
    } else {
        s
    }
}

/// Whitespace removed from both ends, as `str::trim` does.
pub open spec fn trim_spec(s: Seq<char>) -> Seq<char> {
    trim_end_spec(trim_start_spec(s))
}

proof fn lemma_trim_start_at(s: Seq<char>, k: int)
    requires
        0 <= k <= s.len(),
        forall|j: int| 0 <= j < k ==> is_ws_char(#[trigger] s[j]),
        k == s.len() || !is_ws_char(s[k]),
    ensures
        trim_start_spec(s) == s.skip(k),
    decreases k,
{
    if k == 0 {
        assert(s.skip(0) =~= s);
    } else {
        assert(is_ws_char(s[0]));
        lemma_trim_start_at(s.drop_first(), k - 1);
        assert(s.drop_first().skip(k - 1) =~= s.skip(k));
    }
}

proof fn lemma_trim_end_at(s: Seq<char>, m: int)
    requires
        0 <= m <= s.len(),
        forall|j: int| m <= j < s.len() ==> is_ws_char(#[trigger] s[j]),
        m == 0 || !is_ws_char(s[m - 1]),
    ensures
        trim_end_spec(s) == s.take(m),
    decreases s.len() - m,
{
    if m == s.len() {
        if s.len() > 0 && is_ws_char(s.last()) {
            assert(!is_ws_char(s[m - 1]));
        }
        assert(s.take(m) =~= s);
    } else {
        assert(is_ws_char(s.last()));
        lemma_trim_end_at(s.drop_last(), m);
        assert(s.drop_last().take(m) =~= s.take(m));
    }
}

/// When all characters below `lo` and from `hi` on are whitespace, and the
/// two positions stand on non-whitespace (or coincide with the ends),
/// trimming yields exactly the middle part.
pub proof fn lemma_trim_range(s: Seq<char>, lo: int, hi: int)
    requires
        0 <= lo <= hi <= s.len(),
        forall|j: int| 0 <= j < lo ==> is_ws_char(#[trigger] s[j]),
        lo == s.len() || lo == hi || !is_ws_char(s[lo]),
        forall|j: int| hi <= j < s.len() ==> is_ws_char(#[trigger] s[j]),
        hi == lo || !is_ws_char(s[hi - 1]),
    ensures
        trim_spec(s) == s.subrange(lo, hi),
{
    if lo == hi {
        lemma_trim_start_at(s, s.len() as int);
        assert(s.skip(s.len() as int) =~= Seq::<char>::empty());
        assert(trim_end_spec(Seq::<char>::empty()) =~= Seq::<char>::empty());
        assert(s.subrange(lo, hi) =~= Seq::<char>::empty());
    } else {
        lemma_trim_start_at(s, lo);
        let t = s.skip(lo);
        lemma_trim_end_at(t, hi - lo);
        assert(t.take(hi - lo) =~= s.subrange(lo, hi));
    }
}

// ---------------------------------------------------------------------------
// Setext underline removal
// ---------------------------------------------------------------------------

/// Index of the last newline in `s`, or -1 when there is none.
pub open spec fn last_nl(s: Seq<char>) -> int
    decreases s.len(),
{
    if s.len() == 0 {
        -1
    } else if s.last() == '\n' {
        s.len() - 1
    } else {
        last_nl(s.drop_last())
    }
}

pub proof fn lemma_last_nl(s: Seq<char>)
    ensures
        -1 <= last_nl(s) < s.len(),
        last_nl(s) >= 0 ==> s[last_nl(s)] == '\n',
        forall|j: int| last_nl(s) < j < s.len() ==> s[j] != '\n',
    decreases s.len(),
{
    if s.len() > 0 && s.last() != '\n' {
        lemma_last_nl(s.drop_last());
        assert(last_nl(s) == last_nl(s.drop_last()));
        if last_nl(s) >= 0 {
            assert(s.drop_last()[last_nl(s)] == '\n');
        }
        assert forall|j: int| last_nl(s) < j < s.len() implies s[j] != '\n' by {
            if j < s.len() - 1 {
                assert(s.drop_last()[j] != '\n');
            }
        }
    }
}

/// True when every character of `s` is `=` or `-`.
pub open spec fn all_underline(s: Seq<char>) -> bool {
    forall|i: int| 0 <= i < s.len() ==> (s[i] == '=' || #[trigger] s[i] == '-')
}

/// Drops a final line that consists solely of `=` or `-` characters.
pub open spec fn strip_setext_spec(s: Seq<char>) -> Seq<char> {
    let p = last_nl(s);
    if p >= 0 {
        let after = trim_spec(s.skip(p + 1));
        if after.len() > 0 && all_underline(after) {
            s.take(p)
        } else {
            s
        }
    } else {
        s
    }
}


/// A setext underline never reaches the heading text: for a non-empty
/// title line with no surrounding whitespace and no newline, followed by a
/// non-empty underline of `=` or `-` characters, normalisation of
/// `title\nunderline` yields exactly what normalising the title alone
/// yields.
pub proof fn lemma_setext_underline_dropped(t: Seq<char>, u: Seq<char>)
    requires
        t.len() > 0,
        !is_ws_char(t[0]),
        !is_ws_char(t[t.len() - 1]),
        forall|i: int| 0 <= i < t.len() ==> t[i] != '\n',
        u.len() > 0,
        all_underline(u),
    ensures
        normalize_spec(t + seq!['\n'] + u) == normalize_spec(t),
        normalize_spec(t) == trim_spec(collapse_spec(t)),
{
    let s0 = t + seq!['\n'] + u;
    assert(s0.len() == t.len() + 1 + u.len());
    assert(s0[0] == t[0]);
    assert(s0.last() == u.last());
    assert(!is_ws_char(u[u.len() - 1]));
    assert(trim_start_spec(s0) == s0);
    assert(trim_end_spec(s0) == s0);
    // the newline between title and underline is the last one
    lemma_last_nl(s0);
    assert(s0[t.len() as int] == '\n');
    let p = last_nl(s0);
    assert(p == t.len()) by {
        if p > t.len() {
            assert(s0[p] == u[p - t.len() - 1]);
        }
        if p < t.len() {
            assert(s0[t.len() as int] != '\n');
        }
    }
    // the line after it is the underline, which trimming leaves alone
    assert(s0.skip(p + 1) =~= u);
    assert(!is_ws_char(u[0]));
    assert(trim_start_spec(u) == u);
    assert(trim_end_spec(u) == u);
    assert(strip_setext_spec(s0) == s0.take(p));
    assert(s0.take(p) =~= t);
    // the title alone is already trimmed and holds no underline line
    assert(trim_start_spec(t) == t);
    assert(trim_end_spec(t) == t);
    lemma_last_nl(t);
    assert(last_nl(t) == -1) by {
        if last_nl(t) >= 0 {
            assert(t[last_nl(t)] != '\n');
        }
    }
    assert(strip_setext_spec(t) == t);
}

// ---------------------------------------------------------------------------
// Space collapsing
// ---------------------------------------------------------------------------

/// Collapses runs of the literal space character from position `i` on;
/// `prev_space` records whether the previously kept character was a space.
pub open spec fn collapse_from(s: Seq<char>, i: int, prev_space: bool) -> Seq<char>
    decreases s.len() - i,
{
    if i < 0 || i >= s.len() {
        Seq::empty()
    } else if s[i] == ' ' {
        if prev_space {
            collapse_from(s, i + 1, true)
        } else {
            seq![' '] + collapse_from(s, i + 1, true)
        }
    } else {
        seq![s[i]] + collapse_from(s, i + 1, false)
    }
}

/// Runs of spaces collapsed to single spaces.
pub open spec fn collapse_spec(s: Seq<char>) -> Seq<char> {
    collapse_from(s, 0, false)
}

/// The full normalisation applied to the text of a heading: trim, strip a
/// setext underline, collapse spaces, trim again.
pub open spec fn normalize_spec(s: Seq<char>) -> Seq<char> {
    trim_spec(collapse_spec(strip_setext_spec(trim_spec(s))))
}


// ---------------------------------------------------------------------------
// Blank text stays blank through normalisation
// ---------------------------------------------------------------------------

/// True when every character of `s` is whitespace or `#` — text with no
/// content of its own.
pub open spec fn ws_or_hash(s: Seq<char>) -> bool {
    forall|i: int| 0 <= i < s.len() ==> (is_ws_char(#[trigger] s[i]) || s[i] == '#')
}

proof fn lemma_trim_start_ws_or_hash(s: Seq<char>)
    requires
        ws_or_hash(s),
    ensures
        ws_or_hash(trim_start_spec(s)),
    decreases s.len(),
{
    if s.len() > 0 && is_ws_char(s[0]) {
        assert(ws_or_hash(s.drop_first()));
        lemma_trim_start_ws_or_hash(s.drop_first());
    }
}

proof fn lemma_trim_end_ws_or_hash(s: Seq<char>)
    requires
        ws_or_hash(s),
    ensures
        ws_or_hash(trim_end_spec(s)),
    decreases s.len(),
{
    if s.len() > 0 && is_ws_char(s.last()) {
        assert(ws_or_hash(s.drop_last()));
        lemma_trim_end_ws_or_hash(s.drop_last());
    }
}

proof fn lemma_collapse_ws_or_hash(s: Seq<char>, i: int, prev_space: bool)
    requires
        ws_or_hash(s),
    ensures
        ws_or_hash(collapse_from(s, i, prev_space)),
    decreases s.len() - i,
{
    if 0 <= i < s.len() {
        lemma_collapse_ws_or_hash(s, i + 1, true);
        lemma_collapse_ws_or_hash(s, i + 1, false);
    }
}

/// Text whose every character is whitespace or `#` still is after the full
/// normalisation, and so never passes the content check.
pub proof fn lemma_normalize_keeps_blank(s: Seq<char>)
    requires
        ws_or_hash(s),
    ensures
        ws_or_hash(normalize_spec(s)),
        !has_content(normalize_spec(s)),
{
    lemma_trim_start_ws_or_hash(s);
    lemma_trim_end_ws_or_hash(trim_start_spec(s));
    let t1 = trim_spec(s);
    let t2 = strip_setext_spec(t1);
    assert(ws_or_hash(t2)) by {
        lemma_last_nl(t1);
        let p = last_nl(t1);
        if p >= 0 && trim_spec(t1.skip(p + 1)).len() > 0 && all_underline(trim_spec(t1.skip(p + 1)))
        {
            assert forall|i: int| 0 <= i < t1.take(p).len() implies (is_ws_char(
                #[trigger] t1.take(p)[i],
            ) || t1.take(p)[i] == '#') by {
                assert(t1.take(p)[i] == t1[i]);
            }
        }
    }
    lemma_collapse_ws_or_hash(t2, 0, false);
    lemma_trim_start_ws_or_hash(collapse_spec(t2));
    lemma_trim_end_ws_or_hash(trim_start_spec(collapse_spec(t2)));
}

// ---------------------------------------------------------------------------
// Executable helpers on character vectors
// ---------------------------------------------------------------------------

/// Copy of `v[i..j]`.
pub fn copy_range(v: &Vec<char>, i: usize, j: usize) -> (r: Vec<char>)
    requires
        i <= j <= v@.len(),
    ensures
        r@ == v@.subrange(i as int, j as int),
{
    let mut r: Vec<char> = Vec::new();
    let mut k: usize = i;
    while k < j
        invariant
            i <= k <= j <= v@.len(),
            r@ == v@.subrange(i as int, k as int),
        decreases j - k,
    {
        r.push(v[k]);
        k = k + 1;
        proof {
            assert(v@.subrange(i as int, k as int) =~= v@.subrange(i as int, k - 1) + seq![
                v@[k - 1],
            ]);
        }
    }
    r
}

pub fn trimmed(v: &Vec<char>) -> (r: Vec<char>)
    ensures
        r@ == trim_spec(v@),
{
    let mut lo: usize = 0;
    while lo < v.len() && is_whitespace_char(v[lo])
        invariant
            lo <= v@.len(),
            forall|j: int| 0 <= j < lo ==> is_ws_char(#[trigger] v@[j]),
        decreases v@.len() - lo,
    {
        lo = lo + 1;
    }
    let mut hi: usize = v.len();
    while hi > lo && is_whitespace_char(v[hi - 1])
        invariant
            lo <= hi <= v@.len(),
            forall|j: int| 0 <= j < lo ==> is_ws_char(#[trigger] v@[j]),
            forall|j: int| hi <= j < v@.len() ==> is_ws_char(#[trigger] v@[j]),
        decreases hi,
    {
        hi = hi - 1;
    }
    proof {
        lemma_trim_range(v@, lo as int, hi as int);
    }
    copy_range(v, lo, hi)
}

pub fn all_underline_chars(v: &Vec<char>) -> (r: bool)
    ensures
        r == all_underline(v@),
{
    let mut k: usize = 0;
    while k < v.len()
        invariant
            k <= v@.len(),
            forall|j: int| 0 <= j < k ==> (v@[j] == '=' || #[trigger] v@[j] == '-'),
        decreases v@.len() - k,
    {
        if !(v[k] == '=' || v[k] == '-') {
            return false;
        }
        k = k + 1;
    }
    true
}

pub fn strip_setext(v: Vec<char>) -> (r: Vec<char>)
    ensures
        r@ == strip_setext_spec(v@),
{
    proof {
        lemma_last_nl(v@);
    }
    let mut k: usize = v.len();
    while k > 0 && v[k - 1] != '\n'
        invariant
            k <= v@.len(),
            forall|j: int| k <= j < v@.len() ==> v@[j] != '\n',
        decreases k,
    {
        k = k - 1;
    }
    if k == 0 {
        proof {
            if last_nl(v@) >= 0 {
                assert(v@[last_nl(v@)] == '\n');
            }
        }
        return v;
    }
    // v[k - 1] is the last newline of v
    proof {
        assert(v@[k - 1] == '\n');
        assert(last_nl(v@) == k - 1) by {
            if last_nl(v@) > k - 1 {
                assert(v@[last_nl(v@)] != '\n');
            }
            if last_nl(v@) < k - 1 {
                assert(v@[k - 1] != '\n');
            }
        }
    }
    let tail = copy_range(&v, k, v.len());
    let tail_trimmed = trimmed(&tail);
    proof {
        assert(v@.skip(k as int) =~= v@.subrange(k as int, v@.len() as int));
    }
    if tail_trimmed.len() > 0 && all_underline_chars(&tail_trimmed) {
        let mut v = v;
        v.truncate(k - 1);
        v
    } else {
        v
    }
}

pub fn collapse_spaces(v: &Vec<char>) -> (r: Vec<char>)
    ensures
        r@ == collapse_spec(v@),
{
    let mut r: Vec<char> = Vec::new();
    let mut prev_space: bool = false;
    let mut k: usize = 0;
    while k < v.len()
        invariant
            k <= v@.len(),
            collapse_spec(v@) == r@ + collapse_from(v@, k as int, prev_space),
        decreases v@.len() - k,
    {
        let c = v[k];
        if c == ' ' {
            if !prev_space {
                r.push(' ');
                prev_space = true;
            }
        } else {
            r.push(c);
            prev_space = false;
        }
        k = k + 1;
    }
    proof {
        assert(r@ + collapse_from(v@, k as int, prev_space) =~= r@);
    }
    r
}

/// Byte length of the UTF-8 encoding of the characters in `v`, computed
/// wide enough that it cannot overflow.
pub fn byte_size_of(v: &Vec<char>) -> (r: u128)
    ensures
        r as nat == byte_len(v@),
{
    let mut acc: u128 = 0;
    let mut i: usize = 0;
    proof {
        assert(v@.take(0) =~= Seq::<char>::empty());
    }
    while i < v.len()
        invariant
            i <= v@.len(),
            acc as nat == byte_len(v@.take(i as int)),
            acc <= 4 * (i as u128),
        decreases v@.len() - i,
    {
        proof {
            lemma_byte_len_take_succ(v@, i as int);
            lemma_char_width_bounds(v@[i as int]);
        }
        acc = acc + (char_width_of(v[i]) as u128);
        i = i + 1;
    }
    proof {
        assert(v@.take(v@.len() as int) =~= v@);
    }
    acc
}

/// The whole normalisation pipeline for a heading's raw text.
pub fn normalize_heading(v: Vec<char>) -> (r: Vec<char>)
    ensures
        r@ == normalize_spec(v@),
{
    let t1 = trimmed(&v);
    let t2 = strip_setext(t1);
    let t3 = collapse_spaces(&t2);
    trimmed(&t3)
}

pub fn has_content_chars(v: &Vec<char>) -> (r: bool)
    ensures
        r == has_content(v@),
{
    let mut k: usize = 0;
    while k < v.len()
        invariant
            k <= v@.len(),
            forall|j: int| 0 <= j < k ==> (is_ws_char(#[trigger] v@[j]) || v@[j] == '#'),
        decreases v@.len() - k,
    {
        let c = v[k];
        if !is_whitespace_char(c) && c != '#' {
            return true;
        }
        k = k + 1;
    }
    false
}

pub fn all_ws_chars(v: &Vec<char>) -> (r: bool)
    ensures
        r == all_ws(v@),
{
    let mut k: usize = 0;
    while k < v.len()
        invariant
            k <= v@.len(),
            forall|j: int| 0 <= j < k ==> is_ws_char(#[trigger] v@[j]),
        decreases v@.len() - k,
    {
        if !is_whitespace_char(v[k]) {
            return false;
        }
        k = k + 1;
    }
    true
}

pub fn ascii_lower_of(c: char) -> (r: char)
    ensures
        r == ascii_lower(c),
{
    let u = c as u32;
    if 65 <= u && u <= 90 {
        ((u as u8) + 32) as char
    } else {
        c
    }
}

pub fn all_invisible_chars(v: &Vec<char>) -> (r: bool)
    ensures
        r == all_invisible(v@),
{
    let mut k: usize = 0;
    while k < v.len()
        invariant
            k <= v@.len(),
            forall|j: int| 0 <= j < k ==> is_invisible_char(#[trigger] v@[j]),
        decreases v@.len() - k,
    {
        if !is_invisible(v[k]) {
            return false;
        }
        k = k + 1;
    }
    true
}

} // verus!
