//! The structural validator: one pass over the flat token sequence,
//! counting structural and scalar tokens to reject clearly malformed
//! input before tree building. The check is necessary but not sufficient:
//! it counts brackets without checking their nesting.

use vstd::prelude::*;

use crate::token::arr_view;
use crate::token::token_view;
use crate::token::JsonToken;
use crate::token::TokenModel;

verus! {

/// How many array brackets the sequence holds, opening and closing alike.
pub open spec fn arr_count(s: Seq<TokenModel>) -> int
    decreases s,
{
    if s.len() == 0 {
        0
    } else {
        arr_count(s.drop_last()) + if s.last() is JsonArrBeg || s.last() is JsonArrEnd {
            1int
        } else {
            0int
        }
    }
}

/// How many object braces the sequence holds, opening and closing alike.
pub open spec fn obj_count(s: Seq<TokenModel>) -> int
    decreases s,
{
    if s.len() == 0 {
        0
    } else {
        obj_count(s.drop_last()) + if s.last() is JsonObjBeg || s.last() is JsonObjEnd {
            1int
        } else {
            0int
        }
    }
}

/// How many scalar value tokens the sequence holds: strings, numbers and
/// booleans.
pub open spec fn val_count(s: Seq<TokenModel>) -> int
    decreases s,
{
    if s.len() == 0 {
        0
    } else {
        val_count(s.drop_last()) + if s.last() is JsonString || s.last() is JsonNum
            || s.last() is JsonBool {
            1int
        } else {
            0int
        }
    }
}

/// How many key tokens the sequence holds.
pub open spec fn key_count(s: Seq<TokenModel>) -> int
    decreases s,
{
    if s.len() == 0 {
        0
    } else {
        key_count(s.drop_last()) + if s.last() is JsonKey {
            1int
        } else {
            0int
        }
    }
}

/// Whether the invalid sentinel occurs anywhere in the sequence.
pub open spec fn has_invalid(s: Seq<TokenModel>) -> bool {
    exists|k: int| 0 <= k < s.len() && s[k] is JsonInvalid
}

/// What the validator accepts: both structural counts even, no invalid
/// sentinel, and the key-count heuristic satisfied. The heuristic demands
/// no more keys than scalar values, array brackets and object braces
/// beyond the outermost pair can account for; it over-approximates and is
/// documented as not foolproof.
pub open spec fn valid_tokens(s: Seq<TokenModel>) -> bool {
    &&& arr_count(s) % 2 == 0
    &&& obj_count(s) % 2 == 0
    &&& !has_invalid(s)
    &&& key_count(s) <= val_count(s) + (obj_count(s) - 2) + arr_count(s)
}

/// On every token sequence that satisfies the key-count heuristic — as
/// balanced input with properly paired keys does — the validator accepts
/// exactly when the array bracket count and the object brace count are
/// each even and no invalid sentinel is present.
pub proof fn lemma_validator_characterization(s: Seq<TokenModel>)
    requires
        key_count(s) <= val_count(s) + (obj_count(s) - 2) + arr_count(s),
    ensures
        valid_tokens(s) <==> (arr_count(s) % 2 == 0 && obj_count(s) % 2 == 0 && !has_invalid(s)),
{
}

/// Every key token is immediately followed by a scalar value token, as in
/// properly paired input.
pub open spec fn keys_paired(s: Seq<TokenModel>) -> bool {
    forall|i: int|
        0 <= i < s.len() && (#[trigger] s[i]) is JsonKey ==> i + 1 < s.len() && (s[i
            + 1] is JsonString || s[i + 1] is JsonNum || s[i + 1] is JsonBool)
}

/// Each count distributes over concatenation.
proof fn lemma_counts_add(a: Seq<TokenModel>, b: Seq<TokenModel>)
    ensures
        key_count(a + b) == key_count(a) + key_count(b),
        val_count(a + b) == val_count(a) + val_count(b),
        obj_count(a + b) == obj_count(a) + obj_count(b),
        arr_count(a + b) == arr_count(a) + arr_count(b),
    decreases b,
{
    if b.len() == 0 {
        assert(a + b =~= a);
    } else {
        lemma_counts_add(a, b.drop_last());
        assert((a + b).drop_last() =~= a + b.drop_last());
        assert((a + b).last() == b.last());
    }
}

/// When every key is immediately followed by a scalar value, the keys are
/// no more numerous than the values: each key claims the value after it,
/// and no two keys share one.
#[verifier::rlimit(50)]
pub proof fn lemma_paired_keys_bounded(s: Seq<TokenModel>)
    requires
        keys_paired(s),
    ensures
        key_count(s) <= val_count(s),
    decreases s.len(),
{
    if s.len() > 0 {
        if s[0] is JsonKey {
            assert(s.len() >= 2 && (s[1] is JsonString || s[1] is JsonNum || s[1] is JsonBool));
            let head = s.subrange(0, 2);
            let rest = s.subrange(2, s.len() as int);
            assert(s =~= head + rest);
            lemma_counts_add(head, rest);
            assert(key_count(head) == 1 && val_count(head) == 1) by {
                assert(head.drop_last() =~= seq![s[0]]);
                assert(seq![s[0]].drop_last() =~= Seq::<TokenModel>::empty());
                assert(head.last() == s[1]);
                assert(seq![s[0]].last() == s[0]);
                assert(key_count(Seq::<TokenModel>::empty()) == 0);
                assert(val_count(Seq::<TokenModel>::empty()) == 0);
                assert(key_count(seq![s[0]]) == 1);
                assert(val_count(seq![s[0]]) == 0);
                assert(!(s[1] is JsonKey));
            }
            assert(keys_paired(rest)) by {
                assert forall|i: int|
                    0 <= i < rest.len() && (#[trigger] rest[i]) is JsonKey implies i + 1
                    < rest.len() && (rest[i + 1] is JsonString || rest[i + 1] is JsonNum || rest[i
                    + 1] is JsonBool) by {
                    assert(rest[i] == s[i + 2]);
                }
            }
            lemma_paired_keys_bounded(rest);
        } else {
            let head = s.subrange(0, 1);
            let rest = s.subrange(1, s.len() as int);
            assert(s =~= head + rest);
            lemma_counts_add(head, rest);
            assert(key_count(head) == 0 && val_count(head) >= 0) by {
                assert(head.drop_last() =~= Seq::<TokenModel>::empty());
                assert(head.last() == s[0]);
                assert(key_count(Seq::<TokenModel>::empty()) == 0);
                assert(val_count(Seq::<TokenModel>::empty()) == 0);
            }
            assert(keys_paired(rest)) by {
                assert forall|i: int|
                    0 <= i < rest.len() && (#[trigger] rest[i]) is JsonKey implies i + 1
                    < rest.len() && (rest[i + 1] is JsonString || rest[i + 1] is JsonNum || rest[i
                    + 1] is JsonBool) by {
                    assert(rest[i] == s[i + 1]);
                }
            }
            lemma_paired_keys_bounded(rest);
        }
    }
}

/// On balanced input — every key immediately followed by a scalar value,
/// and at least one container pair's worth of structural tokens — the
/// key-count heuristic always holds, so the validator accepts exactly
/// when both structural counts are even and no invalid sentinel is
/// present.
pub proof fn lemma_validator_on_paired_input(s: Seq<TokenModel>)
    requires
        keys_paired(s),
        obj_count(s) + arr_count(s) >= 2,
    ensures
        valid_tokens(s) <==> (arr_count(s) % 2 == 0 && obj_count(s) % 2 == 0 && !has_invalid(s)),
{
    lemma_paired_keys_bounded(s);
}

/// Counts the tokens in one pass and decides `valid_tokens`.
pub fn check_is_valid_json(json_token_vec: &Vec<JsonToken>) -> (r: bool)
    ensures
        r == valid_tokens(arr_view(json_token_vec@)),
{
    broadcast use crate::token::lemma_arr_view_index;

    let ghost full = arr_view(json_token_vec@);
    let n = json_token_vec.len();
    let mut num_arr_tokens: usize = 0;
    let mut num_obj_tokens: usize = 0;
    let mut num_vals: usize = 0;
    let mut num_keys: usize = 0;
    let mut i: usize = 0;
    proof {
        assert(full.subrange(0, 0) =~= Seq::<TokenModel>::empty());
    }
    while i < n
        invariant
            n == json_token_vec@.len(),
            full == arr_view(json_token_vec@),
            i <= n,
            num_arr_tokens as int == arr_count(full.subrange(0, i as int)),
            num_obj_tokens as int == obj_count(full.subrange(0, i as int)),
            num_vals as int == val_count(full.subrange(0, i as int)),
            num_keys as int == key_count(full.subrange(0, i as int)),
            num_arr_tokens <= i && num_obj_tokens <= i && num_vals <= i && num_keys <= i,
            forall|k: int| 0 <= k < i ==> !(full[k] is JsonInvalid),
        decreases n - i,
    {
        proof {
            crate::token::lemma_arr_view_index(json_token_vec@);
        }
        match &json_token_vec[i] {
            JsonToken::JsonKey(_) => {
                num_keys += 1;
            },
            JsonToken::JsonString(_) => {
                num_vals += 1;
            },
            JsonToken::JsonNum(_) => {
                num_vals += 1;
            },
            JsonToken::JsonBool(_) => {
                num_vals += 1;
            },
            JsonToken::JsonArrBeg => {
                num_arr_tokens += 1;
            },
            JsonToken::JsonArrEnd => {
                num_arr_tokens += 1;
            },
            JsonToken::JsonObjBeg => {
                num_obj_tokens += 1;
            },
            JsonToken::JsonObjEnd => {
                num_obj_tokens += 1;
            },
            JsonToken::JsonInvalid => {
                proof {
                    assert(full[i as int] is JsonInvalid);
                }
                return false;
            },
            _ => {},
        }
        proof {
            let pre = full.subrange(0, i as int);
            let ext = full.subrange(0, i as int + 1);
            assert(ext.drop_last() =~= pre);
            assert(ext.last() == token_view(json_token_vec@[i as int]));
        }
        i += 1;
    }
    proof {
        crate::token::lemma_arr_view_index(json_token_vec@);
        assert(full.subrange(0, n as int) =~= full);
    }
    // An unclosed array or object shows as an odd bracket count.
    if num_arr_tokens % 2 != 0 || num_obj_tokens % 2 != 0 {
        return false;
    }
    // More keys than values and inner container tokens can pair with
    // means a key without a value; an over-approximation, not foolproof.
    let keys_wide = num_keys as u128;
    let budget = num_vals as u128 + num_obj_tokens as u128 + num_arr_tokens as u128;
    if keys_wide + 2 > budget {
        return false;
    }
    true
}

} // verus!
