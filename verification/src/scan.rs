//! The mathematical model of the scanner: one left-to-right pass over the
//! character sequence, described by recursive functions. The executable
//! scanner is proved to emit exactly `scan_from(text, 0)`.

use vstd::prelude::*;

use crate::chars::is_alpha;
use crate::chars::is_delim;
use crate::chars::is_digit;
use crate::chars::is_digit_or_dot;
use crate::chars::is_word_end;
use crate::token::TokenModel;

verus! {

/// Whether position `j` closes a string literal whose content starts at
/// `start`: an unescaped quote. A quote escapes only when the character
/// kept just before it is a backslash.
pub open spec fn close_quote_at(s: Seq<char>, start: int, j: int) -> bool {
    s[j] == '"' && (j == start || s[j - 1] != '\\')
}

/// The position of the closing quote at or after `i`, for content starting
/// at `start`; the text length when the literal never closes.
pub open spec fn quote_end(s: Seq<char>, start: int, i: int) -> int
    decreases s.len() - i,
{
    if i < 0 || i >= s.len() {
        s.len() as int
    } else if close_quote_at(s, start, i) {
        i
    } else {
        quote_end(s, start, i + 1)
    }
}

/// The position of the first delimiter at or after `i`; the text length
/// when none follows.
pub open spec fn delim_from(s: Seq<char>, i: int) -> int
    decreases s.len() - i,
{
    if i < 0 || i >= s.len() {
        s.len() as int
    } else if is_delim(s[i]) {
        i
    } else {
        delim_from(s, i + 1)
    }
}

/// The last position a numeric run starting its consumption at `p` takes:
/// the run goes on exactly while the character one ahead is a digit.
pub open spec fn num_run_end(s: Seq<char>, p: int) -> int
    decreases s.len() - p,
{
    if p + 1 >= s.len() || !is_digit(s[p + 1]) {
        p
    } else {
        num_run_end(s, p + 1)
    }
}

/// The last position a word run starting its consumption at `p` takes: the
/// run goes on exactly while the character one ahead is neither ASCII
/// punctuation nor a blank.
pub open spec fn word_run_end(s: Seq<char>, p: int) -> int
    decreases s.len() - p,
{
    if p + 1 >= s.len() || is_word_end(s[p + 1]) {
        p
    } else {
        word_run_end(s, p + 1)
    }
}

/// The content of a string literal: every backslash character is removed.
pub open spec fn strip_backslashes(s: Seq<char>) -> Seq<char>
    decreases s,
{
    if s.len() == 0 {
        Seq::empty()
    } else if s.last() == '\\' {
        strip_backslashes(s.drop_last())
    } else {
        strip_backslashes(s.drop_last()).push(s.last())
    }
}

/// The characters of a numeric run that are retained: digits and the
/// decimal point.
pub open spec fn keep_numeric(s: Seq<char>) -> Seq<char>
    decreases s,
{
    if s.len() == 0 {
        Seq::empty()
    } else if is_digit_or_dot(s.last()) {
        keep_numeric(s.drop_last()).push(s.last())
    } else {
        keep_numeric(s.drop_last())
    }
}

/// The spelling of the true literal.
pub open spec fn true_chars() -> Seq<char> {
    seq!['t', 'r', 'u', 'e']
}

/// The spelling of the false literal.
pub open spec fn false_chars() -> Seq<char> {
    seq!['f', 'a', 'l', 's', 'e']
}

/// The closing quote search stays within the text and, when it finds a
/// position, that position closes the literal.
pub proof fn lemma_quote_end_bounds(s: Seq<char>, start: int, i: int)
    requires
        0 <= i <= s.len(),
    ensures
        i <= quote_end(s, start, i),
        quote_end(s, start, i) <= s.len(),
        quote_end(s, start, i) < s.len() ==> close_quote_at(s, start, quote_end(s, start, i)),
    decreases s.len() - i,
{
    if i < s.len() && !close_quote_at(s, start, i) {
        lemma_quote_end_bounds(s, start, i + 1);
    }
}

/// The delimiter search stays within the text and, when it finds a
/// position, a delimiter stands there.
pub proof fn lemma_delim_from_bounds(s: Seq<char>, i: int)
    requires
        0 <= i <= s.len(),
    ensures
        i <= delim_from(s, i),
        delim_from(s, i) <= s.len(),
        delim_from(s, i) < s.len() ==> is_delim(s[delim_from(s, i)]),
    decreases s.len() - i,
{
    if i < s.len() && !is_delim(s[i]) {
        lemma_delim_from_bounds(s, i + 1);
    }
}

/// A numeric run that starts inside the text ends inside it.
pub proof fn lemma_num_run_end_bounds(s: Seq<char>, p: int)
    requires
        0 <= p < s.len(),
    ensures
        p <= num_run_end(s, p),
        num_run_end(s, p) < s.len(),
    decreases s.len() - p,
{
    if !(p + 1 >= s.len() || !is_digit(s[p + 1])) {
        lemma_num_run_end_bounds(s, p + 1);
    }
}

/// A word run that starts inside the text ends inside it.
pub proof fn lemma_word_run_end_bounds(s: Seq<char>, p: int)
    requires
        0 <= p < s.len(),
    ensures
        p <= word_run_end(s, p),
        word_run_end(s, p) < s.len(),
    decreases s.len() - p,
{
    if !(p + 1 >= s.len() || is_word_end(s[p + 1])) {
        lemma_word_run_end_bounds(s, p + 1);
    }
}

/// The token sequence the scanner emits from position `i` on.
///
/// Each structural bracket emits one token. A quote starts a string
/// literal; after the closing quote the next delimiter decides between a
/// key and a string value, and scanning resumes at that delimiter. A
/// literal that never closes emits nothing, while a closed literal with no
/// delimiter after it still emits a string value. A digit starts a numeric
/// run whose retained characters form the literal text of a number token.
/// A letter starts a word run that emits a boolean for the exact spellings
/// of the two boolean literals and nothing otherwise. Any other character
/// emits nothing.
pub open spec fn scan_from(s: Seq<char>, i: int) -> Seq<TokenModel>
    decreases s.len() - i,
{
    if i < 0 || i >= s.len() {
        Seq::empty()
    } else {
        let c = s[i];
        if c == '{' {
            seq![TokenModel::JsonObjBeg] + scan_from(s, i + 1)
        } else if c == '}' {
            seq![TokenModel::JsonObjEnd] + scan_from(s, i + 1)
        } else if c == '[' {
            seq![TokenModel::JsonArrBeg] + scan_from(s, i + 1)
        } else if c == ']' {
            seq![TokenModel::JsonArrEnd] + scan_from(s, i + 1)
        } else if c == '"' {
            let j = quote_end(s, i + 1, i + 1);
            if j >= s.len() {
                Seq::empty()
            } else {
                let content = strip_backslashes(s.subrange(i + 1, j));
                let m = delim_from(s, j + 1);
                proof {
                    lemma_quote_end_bounds(s, i + 1, i + 1);
                    lemma_delim_from_bounds(s, j + 1);
                }
                if m >= s.len() {
                    seq![TokenModel::JsonString(content)]
                } else if s[m] == ':' {
                    seq![TokenModel::JsonKey(content)] + scan_from(s, m)
                } else {
                    seq![TokenModel::JsonString(content)] + scan_from(s, m)
                }
            }
        } else if is_digit(c) {
            if i + 1 >= s.len() {
                seq![TokenModel::JsonNum(seq![c])]
            } else {
                let p = num_run_end(s, i + 1);
                proof {
                    lemma_num_run_end_bounds(s, i + 1);
                }
                let text = seq![c] + keep_numeric(s.subrange(i + 1, p + 1));
                seq![TokenModel::JsonNum(text)] + scan_from(s, p + 1)
            }
        } else if is_alpha(c) {
            if i + 1 >= s.len() {
                Seq::empty()
            } else {
                let p = word_run_end(s, i + 1);
                proof {
                    lemma_word_run_end_bounds(s, i + 1);
                }
                let w = s.subrange(i, p + 1);
                let toks = if w == true_chars() {
                    seq![TokenModel::JsonBool(true)]
                } else if w == false_chars() {
                    seq![TokenModel::JsonBool(false)]
                } else {
                    Seq::empty()
                };
                toks + scan_from(s, p + 1)
            }
        } else {
            scan_from(s, i + 1)
        }
    }
}

} // verus!
