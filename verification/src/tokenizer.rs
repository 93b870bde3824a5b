//! The executable scanner: a single left-to-right pass over the Unicode
//! scalar values of the input, proved to emit exactly the token sequence
//! of the scanner model.

use vstd::prelude::*;

use crate::chars::alpha_char;
use crate::chars::delim_char;
use crate::chars::digit_char;
use crate::chars::digit_or_dot_char;
use crate::chars::word_end_char;
use crate::scan::close_quote_at;
use crate::scan::delim_from;
use crate::scan::false_chars;
use crate::scan::keep_numeric;
use crate::scan::num_run_end;
use crate::scan::quote_end;
use crate::scan::scan_from;
use crate::scan::strip_backslashes;
use crate::scan::true_chars;
use crate::scan::word_run_end;
use crate::token::arr_view;
use crate::token::token_view;
use crate::token::JsonToken;
use crate::token::TokenModel;

verus! {

/// The position of the closing quote at or after `start`, for content
/// starting at `start`; `n` when the literal never closes.
fn find_quote_end(s: &str, start: usize, n: usize) -> (j: usize)
    requires
        n == s@.len(),
        start <= n,
    ensures
        j == quote_end(s@, start as int, start as int),
        start <= j <= n,
{
    let mut j: usize = start;
    while j < n
        invariant
            n == s@.len(),
            start <= j <= n,
            quote_end(s@, start as int, start as int) == quote_end(s@, start as int, j as int),
        decreases n - j,
    {
        let c = s.get_char(j);
        if c == '"' && (j == start || s.get_char(j - 1) != '\\') {
            proof {
                assert(close_quote_at(s@, start as int, j as int));
            }
            return j;
        }
        proof {
            assert(!close_quote_at(s@, start as int, j as int));
        }
        j += 1;
    }
    j
}

/// The position of the first delimiter at or after `from`; `n` when none
/// follows.
fn find_delim_from(s: &str, from: usize, n: usize) -> (m: usize)
    requires
        n == s@.len(),
        from <= n,
    ensures
        m == delim_from(s@, from as int),
        from <= m <= n,
{
    let mut m: usize = from;
    while m < n
        invariant
            n == s@.len(),
            from <= m <= n,
            delim_from(s@, from as int) == delim_from(s@, m as int),
        decreases n - m,
    {
        if delim_char(s.get_char(m)) {
            return m;
        }
        m += 1;
    }
    m
}

/// The last position the numeric run consuming from `p0` takes.
fn find_num_run_end(s: &str, p0: usize, n: usize) -> (p: usize)
    requires
        n == s@.len(),
        p0 < n,
    ensures
        p == num_run_end(s@, p0 as int),
        p0 <= p < n,
{
    let mut p: usize = p0;
    while p + 1 < n && digit_char(s.get_char(p + 1))
        invariant
            n == s@.len(),
            p0 <= p < n,
            num_run_end(s@, p0 as int) == num_run_end(s@, p as int),
        decreases n - p,
    {
        p += 1;
    }
    p
}

/// The last position the word run consuming from `p0` takes.
fn find_word_run_end(s: &str, p0: usize, n: usize) -> (p: usize)
    requires
        n == s@.len(),
        p0 < n,
    ensures
        p == word_run_end(s@, p0 as int),
        p0 <= p < n,
{
    let mut p: usize = p0;
    while p + 1 < n && !word_end_char(s.get_char(p + 1))
        invariant
            n == s@.len(),
            p0 <= p < n,
            word_run_end(s@, p0 as int) == word_run_end(s@, p as int),
        decreases n - p,
    {
        p += 1;
    }
    p
}

/// The content of the literal between `from` and `to`: the characters in
/// order, every backslash removed.
fn read_stripped(s: &str, from: usize, to: usize) -> (out: String)
    requires
        from <= to <= s@.len(),
        s@.len() <= usize::MAX,
    ensures
        out@ == strip_backslashes(s@.subrange(from as int, to as int)),
{
    let mut out = String::new();
    let mut k: usize = from;
    proof {
        assert(s@.subrange(from as int, from as int) =~= Seq::<char>::empty());
    }
    while k < to
        invariant
            from <= k <= to <= s@.len(),
            out@ == strip_backslashes(s@.subrange(from as int, k as int)),
        decreases to - k,
    {
        let c = s.get_char(k);
        if c != '\\' {
            let piece = s.substring_char(k, k + 1);
            out.append(piece);
        }
        k += 1;
        proof {
            let sub = s@.subrange(from as int, k as int);
            assert(sub.drop_last() =~= s@.subrange(from as int, k as int - 1));
            assert(sub.last() == s@[k as int - 1]);
            if s@[k as int - 1] != '\\' {
                assert(s@.subrange(k as int - 1, k as int) =~= seq![s@[k as int - 1]]);
                assert(out@ =~= strip_backslashes(sub));
            }
        }
    }
    out
}

/// The retained text of the numeric run: the digit at `i`, then the digits
/// and decimal points among the consumed characters up to `p`.
fn read_number_text(s: &str, i: usize, p: usize) -> (out: String)
    requires
        i <= p < s@.len(),
        s@.len() <= usize::MAX,
    ensures
        out@ == seq![s@[i as int]] + keep_numeric(s@.subrange(i as int + 1, p as int + 1)),
{
    let mut out = String::new();
    let first = s.substring_char(i, i + 1);
    out.append(first);
    proof {
        assert(s@.subrange(i as int, i as int + 1) =~= seq![s@[i as int]]);
        assert(s@.subrange(i as int + 1, i as int + 1) =~= Seq::<char>::empty());
        assert(out@ =~= seq![s@[i as int]] + keep_numeric(
            s@.subrange(i as int + 1, i as int + 1),
        ));
    }
    let mut k: usize = i + 1;
    while k <= p
        invariant
            i + 1 <= k <= p + 1,
            p < s@.len(),
            p < usize::MAX,
            out@ == seq![s@[i as int]] + keep_numeric(s@.subrange(i as int + 1, k as int)),
        decreases p + 1 - k,
    {
        let c = s.get_char(k);
        if digit_or_dot_char(c) {
            let piece = s.substring_char(k, k + 1);
            out.append(piece);
        }
        k += 1;
        proof {
            let sub = s@.subrange(i as int + 1, k as int);
            assert(sub.drop_last() =~= s@.subrange(i as int + 1, k as int - 1));
            assert(sub.last() == s@[k as int - 1]);
            if crate::chars::is_digit_or_dot(s@[k as int - 1]) {
                assert(s@.subrange(k as int - 1, k as int) =~= seq![s@[k as int - 1]]);
            }
            assert(out@ =~= seq![s@[i as int]] + keep_numeric(sub));
        }
    }
    out
}

/// Whether the word between `i` and `p` inclusive spells one of the two
/// boolean literals, and which.
fn word_literal(s: &str, i: usize, p: usize) -> (r: Option<bool>)
    requires
        i <= p < s@.len(),
        s@.len() <= usize::MAX,
    ensures
        match r {
            Some(b) => (s@.subrange(i as int, p as int + 1) == true_chars() <==> b) && (
            s@.subrange(i as int, p as int + 1) == false_chars() <==> !b),
            None => s@.subrange(i as int, p as int + 1) != true_chars() && s@.subrange(
                i as int,
                p as int + 1,
            ) != false_chars(),
        },
{
    let ghost w = s@.subrange(i as int, p as int + 1);
    let len = p - i + 1;
    if len == 4 && s.get_char(i) == 't' && s.get_char(i + 1) == 'r' && s.get_char(i + 2) == 'u'
        && s.get_char(i + 3) == 'e' {
        proof {
            assert(w =~= true_chars());
            assert(w != false_chars());
        }
        Some(true)
    } else if len == 5 && s.get_char(i) == 'f' && s.get_char(i + 1) == 'a' && s.get_char(i + 2)
        == 'l' && s.get_char(i + 3) == 's' && s.get_char(i + 4) == 'e' {
        proof {
            assert(w =~= false_chars());
            assert(w != true_chars());
        }
        Some(false)
    } else {
        proof {
            if w == true_chars() {
                assert(w.len() == 4 && w[0] == 't' && w[1] == 'r' && w[2] == 'u' && w[3] == 'e');
                assert(false);
            }
            if w == false_chars() {
                assert(w.len() == 5 && w[0] == 'f' && w[1] == 'a' && w[2] == 'l' && w[3] == 's'
                    && w[4] == 'e');
                assert(false);
            }
        }
        None
    }
}

/// Emitting token `t` and resuming at `next` keeps the scan equation.
proof fn lemma_scan_step(s: Seq<char>, done: Seq<JsonToken>, t: JsonToken, i: int, next: int)
    requires
        scan_from(s, 0) == arr_view(done) + scan_from(s, i),
        scan_from(s, i) == seq![token_view(t)] + scan_from(s, next),
    ensures
        scan_from(s, 0) == arr_view(done.push(t)) + scan_from(s, next),
{
    assert(done.push(t).drop_last() =~= done);
    assert(arr_view(done.push(t)) == arr_view(done).push(token_view(t)));
    assert(arr_view(done).push(token_view(t)) + scan_from(s, next) =~= arr_view(done) + (seq![
        token_view(t),
    ] + scan_from(s, next)));
}

/// Walks the characters of the input once, left to right, and emits the
/// flat ordered token sequence of the scanner model: exactly
/// `scan_from(json_string, 0)`.
pub fn tokenize_json_string(json_string: &String) -> (tokens: Vec<JsonToken>)
    ensures
        arr_view(tokens@) == scan_from(json_string@, 0),
{
    let s = json_string.as_str();
    let n = s.unicode_len();
    let mut tokens: Vec<JsonToken> = Vec::new();
    let mut i: usize = 0;
    proof {
        assert(arr_view(tokens@) =~= Seq::<TokenModel>::empty());
    }
    while i < n
        invariant
            n == s@.len(),
            s@ == json_string@,
            i <= n,
            scan_from(s@, 0) == arr_view(tokens@) + scan_from(s@, i as int),
        decreases n - i,
    {
        let ghost done = tokens@;
        let c = s.get_char(i);
        if c == '{' {
            tokens.push(JsonToken::JsonObjBeg);
            proof {
                lemma_scan_step(s@, done, JsonToken::JsonObjBeg, i as int, i as int + 1);
            }
            i += 1;
        } else if c == '}' {
            tokens.push(JsonToken::JsonObjEnd);
            proof {
                lemma_scan_step(s@, done, JsonToken::JsonObjEnd, i as int, i as int + 1);
            }
            i += 1;
        } else if c == '[' {
            tokens.push(JsonToken::JsonArrBeg);
            proof {
                lemma_scan_step(s@, done, JsonToken::JsonArrBeg, i as int, i as int + 1);
            }
            i += 1;
        } else if c == ']' {
            tokens.push(JsonToken::JsonArrEnd);
            proof {
                lemma_scan_step(s@, done, JsonToken::JsonArrEnd, i as int, i as int + 1);
            }
            i += 1;
        } else if c == '"' {
            let j = find_quote_end(s, i + 1, n);
            if j >= n {
                // The literal never closes: nothing is emitted and the
                // characters are spent.
                proof {
                    assert(scan_from(s@, i as int) =~= scan_from(s@, n as int));
                }
                i = n;
            } else {
                let content = read_stripped(s, i + 1, j);
                let m = find_delim_from(s, j + 1, n);
                if m >= n {
                    let t = JsonToken::JsonString(content);
                    proof {
                        assert(scan_from(s@, i as int) =~= seq![token_view(t)] + scan_from(
                            s@,
                            n as int,
                        ));
                    }
                    tokens.push(t);
                    proof {
                        lemma_scan_step(
                            s@,
                            done,
                            JsonToken::JsonString(content),
                            i as int,
                            n as int,
                        );
                    }
                    i = n;
                } else if s.get_char(m) == ':' {
                    let t = JsonToken::JsonKey(content);
                    tokens.push(t);
                    proof {
                        lemma_scan_step(s@, done, JsonToken::JsonKey(content), i as int, m as int);
                    }
                    i = m;
                } else {
                    let t = JsonToken::JsonString(content);
                    tokens.push(t);
                    proof {
                        lemma_scan_step(
                            s@,
                            done,
                            JsonToken::JsonString(content),
                            i as int,
                            m as int,
                        );
                    }
                    i = m;
                }
            }
        } else if digit_char(c) {
            if i + 1 >= n {
                let text = read_number_text(s, i, i);
                let t = JsonToken::JsonNum(text);
                proof {
                    assert(keep_numeric(s@.subrange(i as int + 1, i as int + 1)) =~= Seq::<
                        char,
                    >::empty());
                    assert(t@ == TokenModel::JsonNum(seq![s@[i as int]]));
                    assert(scan_from(s@, i as int) =~= seq![token_view(t)] + scan_from(
                        s@,
                        n as int,
                    ));
                }
                tokens.push(t);
                proof {
                    lemma_scan_step(s@, done, t, i as int, n as int);
                }
                i = n;
            } else {
                let p = find_num_run_end(s, i + 1, n);
                let text = read_number_text(s, i, p);
                let t = JsonToken::JsonNum(text);
                tokens.push(t);
                proof {
                    lemma_scan_step(s@, done, t, i as int, p as int + 1);
                }
                i = p + 1;
            }
        } else if alpha_char(c) {
            if i + 1 >= n {
                proof {
                    assert(scan_from(s@, i as int) =~= scan_from(s@, n as int));
                }
                i = n;
            } else {
                let p = find_word_run_end(s, i + 1, n);
                match word_literal(s, i, p) {
                    Some(b) => {
                        let t = JsonToken::JsonBool(b);
                        tokens.push(t);
                        proof {
                            lemma_scan_step(s@, done, t, i as int, p as int + 1);
                        }
                    },
                    None => {
                        proof {
                            assert(scan_from(s@, i as int) =~= scan_from(s@, p as int + 1));
                        }
                    },
                }
                i = p + 1;
            }
        } else {
            proof {
                assert(scan_from(s@, i as int) =~= scan_from(s@, i as int + 1));
            }
            i += 1;
        }
    }
    proof {
        assert(arr_view(tokens@) + scan_from(s@, n as int) =~= arr_view(tokens@));
    }
    tokens
}

} // verus!
