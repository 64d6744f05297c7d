//! Line, word and character counts of a text, as the surrounding pipeline
//! reports them for a saved document.

use vstd::prelude::*;

verus! {

use crate::events::chars_of;
use crate::text::{count_nl, is_ws_char, lemma_count_nl_take_succ, lemma_count_nl_le_len};

/// The number of lines `str::lines` yields: one per newline, plus a final
/// line when the text does not end with one.
pub open spec fn line_count(s: Seq<char>) -> nat {
    count_nl(s) + (if s.len() > 0 && s[s.len() - 1] != '\n' {
        1nat
    } else {
        0nat
    })
}

/// True when position `i` starts a word: a non-whitespace character at the
/// beginning or after whitespace.
pub open spec fn word_start(s: Seq<char>, i: int) -> bool {
    !is_ws_char(s[i]) && (i == 0 || is_ws_char(s[i - 1]))
}

/// The number of whitespace-separated words in `s`.
pub open spec fn word_count(s: Seq<char>) -> nat
    decreases s.len(),
{
    if s.len() == 0 {
        0
    } else {
        word_count(s.drop_last()) + (if word_start(s, s.len() - 1) {
            1nat
        } else {
            0nat
        })
    }
}

proof fn lemma_word_count_take_succ(s: Seq<char>, i: int)
    requires
        0 <= i < s.len(),
    ensures
        word_count(s.take(i + 1)) == word_count(s.take(i)) + (if word_start(s, i) {
            1nat
        } else {
            0nat
        }),
{
    assert(s.take(i + 1).drop_last() =~= s.take(i));
    assert(s.take(i + 1).last() == s[i]);
    if i > 0 {
        assert(s.take(i + 1)[i - 1] == s[i - 1]);
    }
}

/// Counts lines, whitespace-separated words, and characters of a text.
pub fn count_stats(content: &str) -> (r: (usize, usize, usize))
    ensures
        r.0 == line_count(content@),
        r.1 == word_count(content@),
        r.2 == content@.len(),
{
    let v = chars_of(content);
    let mut nl: usize = 0;
    let mut words: usize = 0;
    let mut i: usize = 0;
    proof {
        assert(v@.take(0) =~= Seq::<char>::empty());
    }
    while i < v.len()
        invariant
            v@ == content@,
            i <= v@.len(),
            nl <= i,
            words <= i,
            nl == count_nl(v@.take(i as int)),
            words == word_count(v@.take(i as int)),
        decreases v@.len() - i,
    {
        proof {
            lemma_count_nl_take_succ(v@, i as int);
            lemma_word_count_take_succ(v@, i as int);
        }
        let c = v[i];
        if c == '\n' {
            nl = nl + 1;
        }
        if !crate::text::is_whitespace_char(c) && (i == 0 || crate::text::is_whitespace_char(
            v[i - 1],
        )) {
            words = words + 1;
        }
        i = i + 1;
    }
    proof {
        assert(v@.take(v@.len() as int) =~= v@);
    }
    let lines: usize = if v.len() > 0 && v[v.len() - 1] != '\n' {
        proof {
            assert(v@.drop_last() =~= v@.take(v@.len() - 1));
            lemma_count_nl_le_len(v@.drop_last());
        }
        nl + 1
    } else {
        nl
    };
    (lines, words, v.len())
}

} // verus!
