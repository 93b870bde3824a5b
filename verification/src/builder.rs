//! The tree builder: repeatedly locates the innermost unresolved container
//! in the flat token sequence — the rightmost opener — reduces it to a
//! single composite value, and splices the result back in, until no opener
//! remains. The first remaining token is the root value.

use vstd::prelude::*;

use crate::scan::scan_from;
use crate::token::arr_view;
use crate::token::token_view;
use crate::token::InvalidJson;
use crate::token::JsonMap;
use crate::token::JsonToken;
use crate::token::TokenModel;
use crate::tokenizer::tokenize_json_string;
use crate::validate::check_is_valid_json;
use crate::validate::valid_tokens;

verus! {

/// Whether a token opens a container.
pub open spec fn is_opener(t: TokenModel) -> bool {
    t is JsonArrBeg || t is JsonObjBeg
}

/// How many openers the sequence holds.
pub open spec fn opener_count(s: Seq<TokenModel>) -> int
    decreases s,
{
    if s.len() == 0 {
        0
    } else {
        opener_count(s.drop_last()) + if is_opener(s.last()) {
            1int
        } else {
            0int
        }
    }
}

/// The position of the rightmost opener; `-1` when none remains.
pub open spec fn last_opener(s: Seq<TokenModel>) -> int
    decreases s,
{
    if s.len() == 0 {
        -1
    } else if is_opener(s.last()) {
        s.len() - 1
    } else {
        last_opener(s.drop_last())
    }
}

/// The position of the first matching closer at or after `k` — an array
/// end when `arr`, an object end otherwise; the sequence length when none
/// follows.
pub open spec fn close_from(s: Seq<TokenModel>, k: int, arr: bool) -> int
    decreases s.len() - k,
{
    if k < 0 || k >= s.len() {
        s.len() as int
    } else if (arr && s[k] is JsonArrEnd) || (!arr && s[k] is JsonObjEnd) {
        k
    } else {
        close_from(s, k + 1, arr)
    }
}

/// The mapping of an object body: consecutive tokens are paired, a pair
/// led by a key binds it to the following token, any other pair is passed
/// over, and a later binding of a key wins; a trailing unpaired token is
/// ignored.
pub open spec fn obj_fold(
    content: Seq<TokenModel>,
    acc: Map<Seq<char>, TokenModel>,
) -> Map<Seq<char>, TokenModel>
    decreases content.len(),
{
    if content.len() < 2 {
        acc
    } else {
        let acc2 = if content[0] is JsonKey {
            acc.insert(content[0]->JsonKey_0, content[1])
        } else {
            acc
        };
        obj_fold(content.subrange(2, content.len() as int), acc2)
    }
}

/// The composite value that replaces the span from the opener at `r` up to
/// its matching closer at `e`: the intervening tokens collected in order
/// for an array, or paired into a mapping for an object.
pub open spec fn composite(s: Seq<TokenModel>, r: int, e: int) -> TokenModel {
    if s[r] is JsonArrBeg {
        TokenModel::JsonArr(s.subrange(r + 1, e))
    } else {
        TokenModel::JsonObj(obj_fold(s.subrange(r + 1, e), Map::empty()))
    }
}

/// One reduction: the span from the rightmost opener through its matching
/// closer becomes a single composite token; no matching closer means the
/// build fails.
pub open spec fn reduce_step(s: Seq<TokenModel>) -> Option<Seq<TokenModel>>
    recommends
        opener_count(s) > 0,
{
    let r = last_opener(s);
    let arr = s[r] is JsonArrBeg;
    let e = close_from(s, r + 1, arr);
    if e >= s.len() {
        None
    } else {
        Some(s.subrange(0, r) + seq![composite(s, r, e)] + s.subrange(e + 1, s.len() as int))
    }
}

/// Openers never go negative in count.
pub proof fn lemma_opener_count_nonneg(s: Seq<TokenModel>)
    ensures
        opener_count(s) >= 0,
    decreases s,
{
    if s.len() > 0 {
        lemma_opener_count_nonneg(s.drop_last());
    }
}

/// The opener count distributes over concatenation.
pub proof fn lemma_opener_count_add(a: Seq<TokenModel>, b: Seq<TokenModel>)
    ensures
        opener_count(a + b) == opener_count(a) + opener_count(b),
    decreases b,
{
    if b.len() == 0 {
        assert(a + b =~= a);
    } else {
        lemma_opener_count_add(a, b.drop_last());
        assert((a + b).drop_last() =~= a + b.drop_last());
        assert((a + b).last() == b.last());
    }
}

/// A sequence without openers counts none and has no rightmost one.
pub proof fn lemma_no_openers(s: Seq<TokenModel>)
    requires
        forall|k: int| 0 <= k < s.len() ==> !is_opener(s[k]),
    ensures
        opener_count(s) == 0,
        last_opener(s) == -1,
    decreases s,
{
    if s.len() > 0 {
        lemma_no_openers(s.drop_last());
    }
}

/// An opener with none to its right is the rightmost one.
pub proof fn lemma_last_opener_at(s: Seq<TokenModel>, idx: int)
    requires
        0 <= idx < s.len(),
        is_opener(s[idx]),
        forall|k: int| idx < k < s.len() ==> !is_opener(s[k]),
    ensures
        last_opener(s) == idx,
        opener_count(s) > 0,
    decreases s,
{
    lemma_opener_count_nonneg(s.drop_last());
    if idx < s.len() - 1 {
        lemma_last_opener_at(s.drop_last(), idx);
    }
}

/// When openers remain, the rightmost one exists, is an opener, and none
/// stands to its right.
pub proof fn lemma_last_opener_props(s: Seq<TokenModel>)
    requires
        opener_count(s) > 0,
    ensures
        0 <= last_opener(s) < s.len(),
        is_opener(s[last_opener(s)]),
        forall|k: int| last_opener(s) < k < s.len() ==> !is_opener(s[k]),
    decreases s,
{
    if s.len() > 0 && !is_opener(s.last()) {
        lemma_last_opener_props(s.drop_last());
        assert forall|k: int| last_opener(s) < k < s.len() implies !is_opener(s[k]) by {
            if k < s.len() - 1 {
                assert(s[k] == s.drop_last()[k]);
            }
        }
    }
}

/// A successful reduction removes exactly one opener.
pub proof fn lemma_reduce_step_openers(s: Seq<TokenModel>)
    requires
        opener_count(s) > 0,
        reduce_step(s) is Some,
    ensures
        opener_count(reduce_step(s)->Some_0) == opener_count(s) - 1,
{
    lemma_last_opener_props(s);
    let r = last_opener(s);
    let arr = s[r] is JsonArrBeg;
    let e = close_from(s, r + 1, arr);
    let a = s.subrange(0, r);
    let c = composite(s, r, e);
    let b = s.subrange(e + 1, s.len() as int);
    let s2 = a + seq![c] + b;
    lemma_close_from_bounds(s, r + 1, arr);
    // The tail beyond the opener holds no opener, so its count is zero.
    assert forall|k: int| 0 <= k < b.len() implies !is_opener(b[k]) by {
        assert(b[k] == s[e + 1 + k]);
    }
    lemma_no_openers(b);
    assert(!is_opener(c));
    lemma_opener_count_add(a + seq![c], b);
    lemma_opener_count_add(a, seq![c]);
    let tail = s.subrange(r + 1, s.len() as int);
    assert forall|k: int| 0 <= k < tail.len() implies !is_opener(tail[k]) by {
        assert(tail[k] == s[r + 1 + k]);
    }
    lemma_no_openers(tail);
    lemma_opener_count_add(a + seq![s[r]], tail);
    lemma_opener_count_add(a, seq![s[r]]);
    assert(s =~= a + seq![s[r]] + tail);
    assert(opener_count(seq![s[r]]) == 1) by {
        assert(opener_count(Seq::<TokenModel>::empty()) == 0);
        assert(seq![s[r]].drop_last() =~= Seq::<TokenModel>::empty());
        assert(seq![s[r]].last() == s[r]);
    }
    assert(opener_count(seq![c]) == 0) by {
        assert(opener_count(Seq::<TokenModel>::empty()) == 0);
        assert(seq![c].drop_last() =~= Seq::<TokenModel>::empty());
        assert(seq![c].last() == c);
    }
}

/// The closer search stays within the sequence and, when it finds a
/// position, the matching closer stands there.
pub proof fn lemma_close_from_bounds(s: Seq<TokenModel>, k: int, arr: bool)
    requires
        0 <= k <= s.len(),
    ensures
        k <= close_from(s, k, arr),
        close_from(s, k, arr) <= s.len(),
        close_from(s, k, arr) < s.len() ==> ((arr && s[close_from(s, k, arr)] is JsonArrEnd) || (
        !arr && s[close_from(s, k, arr)] is JsonObjEnd)),
    decreases s.len() - k,
{
    if k < s.len() && !((arr && s[k] is JsonArrEnd) || (!arr && s[k] is JsonObjEnd)) {
        lemma_close_from_bounds(s, k + 1, arr);
    }
}

/// The fully reduced sequence, when every container finds its closer.
pub open spec fn reduce_all(s: Seq<TokenModel>) -> Option<Seq<TokenModel>>
    decreases opener_count(s),
{
    proof {
        lemma_opener_count_nonneg(s);
    }
    if opener_count(s) <= 0 {
        Some(s)
    } else {
        match reduce_step(s) {
            Option::None => None,
            Option::Some(s2) => {
                proof {
                    lemma_reduce_step_openers(s);
                }
                reduce_all(s2)
            },
        }
    }
}

/// The root: the first token left after full reduction; nothing when a
/// container never closes or no token remains.
pub open spec fn reduced_root(s: Seq<TokenModel>) -> Option<TokenModel> {
    match reduce_all(s) {
        Option::None => None,
        Option::Some(f) => if f.len() == 0 {
            None
        } else {
            Some(f[0])
        },
    }
}

/// The mapping of the root, when the root is an object.
pub open spec fn built_object(s: Seq<TokenModel>) -> Option<Map<Seq<char>, TokenModel>> {
    match reduced_root(s) {
        Option::Some(TokenModel::JsonObj(m)) => Some(m),
        _ => None,
    }
}

/// The position of the rightmost opener token, if any remains.
fn rposition_opener(tokens: &Vec<JsonToken>) -> (r: Option<usize>)
    ensures
        match r {
            Some(idx) => idx < tokens@.len() && idx as int == last_opener(arr_view(tokens@))
                && opener_count(arr_view(tokens@)) > 0,
            None => opener_count(arr_view(tokens@)) == 0,
        },
{
    proof {
        crate::token::lemma_arr_view_index(tokens@);
    }
    let ghost s = arr_view(tokens@);
    let n = tokens.len();
    let mut i: usize = n;
    while i > 0
        invariant
            n == tokens@.len(),
            s == arr_view(tokens@),
            s.len() == n,
            i <= n,
            forall|k: int| i <= k < n ==> !is_opener(s[k]),
        decreases i,
    {
        i -= 1;
        let hit = matches!(&tokens[i], JsonToken::JsonArrBeg | JsonToken::JsonObjBeg);
        if hit {
            proof {
                crate::token::lemma_arr_view_index(tokens@);
                assert(is_opener(s[i as int]));
                lemma_last_opener_at(s, i as int);
            }
            return Some(i);
        }
        proof {
            crate::token::lemma_arr_view_index(tokens@);
            assert(!is_opener(s[i as int]));
        }
    }
    proof {
        lemma_no_openers(s);
    }
    None
}

/// The position of the first matching closer at or after `from`.
fn position_close(tokens: &Vec<JsonToken>, from: usize, arr: bool) -> (e: usize)
    requires
        from <= tokens@.len(),
    ensures
        e as int == close_from(arr_view(tokens@), from as int, arr),
        from <= e <= tokens@.len(),
{
    proof {
        crate::token::lemma_arr_view_index(tokens@);
    }
    let ghost s = arr_view(tokens@);
    let n = tokens.len();
    let mut k: usize = from;
    while k < n
        invariant
            n == tokens@.len(),
            s == arr_view(tokens@),
            s.len() == n,
            from <= k <= n,
            close_from(s, from as int, arr) == close_from(s, k as int, arr),
        decreases n - k,
    {
        let hit = if arr {
            matches!(&tokens[k], JsonToken::JsonArrEnd)
        } else {
            matches!(&tokens[k], JsonToken::JsonObjEnd)
        };
        proof {
            crate::token::lemma_arr_view_index(tokens@);
        }
        if hit {
            return k;
        }
        k += 1;
    }
    k
}

/// Reduces the span between the opener at `start` and its matching closer
/// at `end` to a single composite token: an array of the intervening
/// tokens in order, or an object pairing each key with the token after it.
fn from_tokens_to_datastructure(json_tokens: &Vec<JsonToken>, start: usize, end: usize) -> (t:
    JsonToken)
    requires
        start < end <= json_tokens@.len(),
        is_opener(arr_view(json_tokens@)[start as int]),
    ensures
        t@ == composite(arr_view(json_tokens@), start as int, end as int),
{
    proof {
        crate::token::lemma_arr_view_index(json_tokens@);
    }
    let ghost s = arr_view(json_tokens@);
    let ghost content = s.subrange(start as int + 1, end as int);
    let is_arr = matches!(&json_tokens[start], JsonToken::JsonArrBeg);
    if is_arr {
        let mut j_vec: Vec<JsonToken> = Vec::new();
        let mut j: usize = start + 1;
        while j < end
            invariant
                start + 1 <= j <= end <= json_tokens@.len(),
                s == arr_view(json_tokens@),
                s.len() == json_tokens@.len(),
                content == s.subrange(start as int + 1, end as int),
                j_vec@.len() == j - start - 1,
                forall|q: int|
                    0 <= q < j_vec@.len() ==> token_view(j_vec@[q]) == content[q],
            decreases end - j,
        {
            let t = json_tokens[j].dup();
            j_vec.push(t);
            proof {
                crate::token::lemma_arr_view_index(json_tokens@);
            }
            j += 1;
        }
        proof {
            crate::token::lemma_arr_view_index(j_vec@);
            assert(arr_view(j_vec@) =~= content);
        }
        JsonToken::JsonArr(j_vec)
    } else {
        let mut j_map = JsonMap::new();
        let mut j: usize = start + 1;
        proof {
            assert(content.subrange(0, content.len() as int) =~= content);
        }
        while j < end - 1
            invariant
                start + 1 <= j <= end <= json_tokens@.len(),
                s == arr_view(json_tokens@),
                s.len() == json_tokens@.len(),
                content == s.subrange(start as int + 1, end as int),
                j_map.wf(),
                obj_fold(content, Map::empty()) == obj_fold(
                    content.subrange(j - start - 1, content.len() as int),
                    j_map@,
                ),
            decreases end - j,
        {
            let ghost rem = content.subrange(j - start - 1, content.len() as int);
            proof {
                crate::token::lemma_arr_view_index(json_tokens@);
                assert(rem.len() >= 2);
                assert(rem[0] == token_view(json_tokens@[j as int]));
                assert(rem[1] == token_view(json_tokens@[j as int + 1]));
            }
            match &json_tokens[j] {
                JsonToken::JsonKey(key) => {
                    let k = key.clone();
                    let v = json_tokens[j + 1].dup();
                    j_map.insert(k, v);
                },
                _ => {},
            }
            proof {
                assert(rem.subrange(2, rem.len() as int) =~= content.subrange(
                    j - start + 1,
                    content.len() as int,
                ));
            }
            j += 2;
        }
        proof {
            assert(content.subrange(j - start - 1, content.len() as int).len() < 2);
        }
        JsonToken::JsonObj(j_map)
    }
}

/// Runs reductions until no opener remains; nothing when some container
/// never finds its matching closer.
fn reduce_tokens(json_tokens: Vec<JsonToken>) -> (r: Option<Vec<JsonToken>>)
    ensures
        match r {
            Some(v) => reduce_all(arr_view(json_tokens@)) == Some(arr_view(v@)) && opener_count(
                arr_view(v@),
            ) == 0,
            None => reduce_all(arr_view(json_tokens@)) is None,
        },
{
    let mut work = json_tokens;
    loop
        invariant
            reduce_all(arr_view(work@)) == reduce_all(arr_view(json_tokens@)),
        decreases work@.len(),
    {
        let ghost s = arr_view(work@);
        match rposition_opener(&work) {
            Option::None => {
                proof {
                    assert(reduce_all(s) == Some(s));
                }
                return Some(work);
            },
            Option::Some(start) => {
                proof {
                    crate::token::lemma_arr_view_index(work@);
                    lemma_last_opener_props(s);
                }
                let n = work.len();
                let is_arr = matches!(&work[start], JsonToken::JsonArrBeg);
                let e = position_close(&work, start + 1, is_arr);
                proof {
                    assert(is_arr == (s[start as int] is JsonArrBeg));
                }
                if e >= n {
                    proof {
                        assert(reduce_step(s) is None);
                        assert(reduce_all(s) is None);
                    }
                    return None;
                }
                let new_token = from_tokens_to_datastructure(&work, start, e);
                let ghost s2 = s.subrange(0, start as int) + seq![composite(
                    s,
                    start as int,
                    e as int,
                )] + s.subrange(e as int + 1, s.len() as int);
                proof {
                    assert(reduce_step(s) == Some(s2));
                    lemma_reduce_step_openers(s);
                    assert(reduce_all(s) == reduce_all(s2));
                }
                // Splice: the span from the opener through the closer is
                // drained and the composite token takes its place.
                let ghost pre = work@;
                let total = e - start + 1;
                let mut cnt: usize = 0;
                while cnt < total
                    invariant
                        start + cnt <= pre.len(),
                        cnt <= total,
                        total == e - start + 1,
                        start < e < pre.len(),
                        work@ == pre.subrange(0, start as int) + pre.subrange(
                            start as int + cnt as int,
                            pre.len() as int,
                        ),
                    decreases total - cnt,
                {
                    proof {
                        assert(work@.len() == start + (pre.len() - start - cnt));
                    }
                    work.remove(start);
                    proof {
                        assert(work@ =~= pre.subrange(0, start as int) + pre.subrange(
                            start as int + cnt as int + 1,
                            pre.len() as int,
                        ));
                    }
                    cnt += 1;
                }
                work.insert(start, new_token);
                proof {
                    crate::token::lemma_arr_view_index(pre);
                    crate::token::lemma_arr_view_index(work@);
                    assert(work@ =~= pre.subrange(0, start as int) + seq![new_token]
                        + pre.subrange(e as int + 1, pre.len() as int));
                    assert(arr_view(work@) =~= s2);
                }
            },
        }
    }
}

/// Reduces the token sequence and hands the root object's mapping back;
/// the build fails when a container never closes, no token remains, or
/// the root is not an object.
fn flatten_json_tokens(json_tokens: Vec<JsonToken>) -> (r: Result<JsonMap, InvalidJson>)
    ensures
        match r {
            Ok(m) => built_object(arr_view(json_tokens@)) == Some(m@) && m.wf(),
            Err(_) => built_object(arr_view(json_tokens@)) is None,
        },
{
    match reduce_tokens(json_tokens) {
        Option::None => Err(InvalidJson),
        Option::Some(work) => {
            if work.len() == 0 {
                return Err(InvalidJson);
            }
            proof {
                crate::token::lemma_arr_view_index(work@);
            }
            match &work[0] {
                JsonToken::JsonObj(m) => Ok(m.normalized()),
                _ => Err(InvalidJson),
            }
        },
    }
}

/// Converts a token sequence to the object value its reduction yields; a
/// sequence whose reduction yields no object gives an empty object.
pub fn json_tokens_to_json_object(json_token_vec: &Vec<JsonToken>) -> (t: JsonToken)
    ensures
        t@ == match reduced_root(arr_view(json_token_vec@)) {
            Option::Some(TokenModel::JsonObj(m)) => TokenModel::JsonObj(m),
            _ => TokenModel::JsonObj(Map::<Seq<char>, TokenModel>::empty()),
        },
{
    let work = crate::token::dup_tokens(json_token_vec);
    match reduce_tokens(work) {
        Option::None => JsonToken::JsonObj(JsonMap::new()),
        Option::Some(mut reduced) => {
            if reduced.len() == 0 {
                return JsonToken::JsonObj(JsonMap::new());
            }
            proof {
                crate::token::lemma_arr_view_index(reduced@);
            }
            let first = reduced.remove(0);
            if matches!(&first, JsonToken::JsonObj(_)) {
                first
            } else {
                JsonToken::JsonObj(JsonMap::new())
            }
        },
    }
}

/// The public entry point: scans the text, validates the token counts,
/// and builds the root object's mapping. Fails exactly when validation
/// rejects the tokens or the build yields no object root.
pub fn from_json_string(json_string: &String) -> (r: Result<JsonMap, InvalidJson>)
    ensures
        match r {
            Ok(m) => valid_tokens(scan_from(json_string@, 0)) && built_object(
                scan_from(json_string@, 0),
            ) == Some(m@) && m.wf(),
            Err(_) => !valid_tokens(scan_from(json_string@, 0)) || built_object(
                scan_from(json_string@, 0),
            ) is None,
        },
{
    let token_vec = tokenize_json_string(json_string);
    if !check_is_valid_json(&token_vec) {
        return Err(InvalidJson);
    }
    flatten_json_tokens(token_vec)
}

} // verus!
