//! The token and value model: the tagged token type produced by the scanner
//! and consumed by the tree builder, the object mapping with unique string
//! keys, and the error types of the accessor and parsing contracts.

use vstd::prelude::*;

verus! {

/// Error returned by an accessor when the requested variant does not match
/// the stored tag.
#[derive(Debug, Clone, PartialEq)]
pub struct InvalidJsonUnwrap;

/// Error returned by the top-level entry point when structural validation
/// fails or the reduced root value is not an object.
#[derive(Debug, Clone, PartialEq)]
pub struct InvalidJson;

impl InvalidJsonUnwrap {
    /// A description of the error.
    pub fn message(&self) -> (r: String)
        ensures
            r@ == "Invalid unwrap of JsonToken"@,
    {
        String::from_str("Invalid unwrap of JsonToken")
    }
}

impl InvalidJson {
    /// A description of the error.
    pub fn message(&self) -> (r: String)
        ensures
            r@ == "Json string has invalid syntax"@,
    {
        String::from_str("Json string has invalid syntax")
    }
}

/// The mathematical model of a token. Scalar payloads are character
/// sequences (a number keeps the scanned literal text), an object is a
/// finite map from key to model, and an array is a sequence of models.
#[verifier::ext_equal]
pub enum TokenModel {
    JsonKey(Seq<char>),
    JsonString(Seq<char>),
    JsonNum(Seq<char>),
    JsonBool(bool),
    JsonObj(Map<Seq<char>, TokenModel>),
    JsonArr(Seq<TokenModel>),
    JsonArrBeg,
    JsonArrEnd,
    JsonObjBeg,
    JsonObjEnd,
    JsonInvalid,
}

/// A lexical token of the scanner, or a composite value spliced in by the
/// tree builder. A numeric literal keeps the scanned digit run (digits and
/// at most one decimal point) as text.
#[derive(Debug, PartialEq)]
pub enum JsonToken {
    JsonKey(String),
    JsonString(String),
    JsonNum(String),
    JsonBool(bool),
    JsonObj(JsonMap),
    JsonArr(Vec<JsonToken>),
    JsonArrBeg,
    JsonArrEnd,
    JsonObjBeg,
    JsonObjEnd,
    JsonInvalid,
}

/// An object: a mapping from string keys to tokens, keys unique, with
/// last write winning on insertion. The entry list is kept in insertion
/// order; `insert` preserves key uniqueness, and a later entry overrides
/// an earlier one in the abstract mapping.
#[derive(Debug, PartialEq)]
pub struct JsonMap {
    pub entries: Vec<(String, JsonToken)>,
}

/// No two entries carry the same key.
pub open spec fn keys_unique(es: Seq<(String, JsonToken)>) -> bool {
    forall|i: int, j: int| 0 <= i < j < es.len() ==> es[i].0@ != es[j].0@
}

/// The model of one token.
pub open spec fn token_view(t: JsonToken) -> TokenModel
    decreases t,
{
    match t {
        JsonToken::JsonKey(s) => TokenModel::JsonKey(s@),
        JsonToken::JsonString(s) => TokenModel::JsonString(s@),
        JsonToken::JsonNum(s) => TokenModel::JsonNum(s@),
        JsonToken::JsonBool(b) => TokenModel::JsonBool(b),
        JsonToken::JsonObj(m) => TokenModel::JsonObj(assoc_view(m.entries@)),
        JsonToken::JsonArr(v) => TokenModel::JsonArr(arr_view(v@)),
        JsonToken::JsonArrBeg => TokenModel::JsonArrBeg,
        JsonToken::JsonArrEnd => TokenModel::JsonArrEnd,
        JsonToken::JsonObjBeg => TokenModel::JsonObjBeg,
        JsonToken::JsonObjEnd => TokenModel::JsonObjEnd,
        JsonToken::JsonInvalid => TokenModel::JsonInvalid,
    }
}

/// The models of a token sequence, elementwise and in order.
pub open spec fn arr_view(ts: Seq<JsonToken>) -> Seq<TokenModel>
    decreases ts,
{
    if ts.len() == 0 {
        Seq::empty()
    } else {
        arr_view(ts.drop_last()).push(token_view(ts.last()))
    }
}

/// The mapping an entry list stands for; a later entry with the same key
/// overrides an earlier one.
pub open spec fn assoc_view(es: Seq<(String, JsonToken)>) -> Map<Seq<char>, TokenModel>
    decreases es,
{
    if es.len() == 0 {
        Map::empty()
    } else {
        assoc_view(es.drop_last()).insert(es.last().0@, token_view(es.last().1))
    }
}

impl View for JsonToken {
    type V = TokenModel;

    open spec fn view(&self) -> TokenModel {
        token_view(*self)
    }
}

impl View for JsonMap {
    type V = Map<Seq<char>, TokenModel>;

    open spec fn view(&self) -> Map<Seq<char>, TokenModel> {
        assoc_view(self.entries@)
    }
}

/// The model sequence is as long as the token sequence and holds the
/// models of its tokens, in order.
pub broadcast proof fn lemma_arr_view_index(ts: Seq<JsonToken>)
    ensures
        #[trigger] arr_view(ts).len() == ts.len(),
        forall|i: int| 0 <= i < ts.len() ==> arr_view(ts)[i] == token_view(ts[i]),
    decreases ts,
{
    if ts.len() > 0 {
        lemma_arr_view_index(ts.drop_last());
    }
}

/// Entry lists with pointwise equal keys and value models stand for the
/// same mapping.
proof fn lemma_assoc_view_pointwise(a: Seq<(String, JsonToken)>, b: Seq<(String, JsonToken)>)
    requires
        a.len() == b.len(),
        forall|i: int|
            0 <= i < a.len() ==> a[i].0@ == b[i].0@ && token_view(a[i].1) == token_view(b[i].1),
    ensures
        assoc_view(a) == assoc_view(b),
    decreases a,
{
    if a.len() > 0 {
        lemma_assoc_view_pointwise(a.drop_last(), b.drop_last());
        assert(assoc_view(a) =~= assoc_view(b));
    }
}

/// Updating the one entry that carries a key is, on the mapping, an insert
/// at that key.
proof fn lemma_assoc_update(
    es: Seq<(String, JsonToken)>,
    i: int,
    key: String,
    value: JsonToken,
)
    requires
        keys_unique(es),
        0 <= i < es.len(),
        es[i].0@ == key@,
    ensures
        assoc_view(es.update(i, (key, value))) == assoc_view(es).insert(key@, token_view(value)),
    decreases es,
{
    let up = es.update(i, (key, value));
    if i == es.len() - 1 {
        assert(up.drop_last() =~= es.drop_last());
        assert(assoc_view(up) =~= assoc_view(es).insert(key@, token_view(value)));
    } else {
        assert(up.drop_last() =~= es.drop_last().update(i, (key, value)));
        lemma_assoc_update(es.drop_last(), i, key, value);
        assert(es.last().0@ != key@);
        assert(assoc_view(up) =~= assoc_view(es).insert(key@, token_view(value)));
    }
}

/// The entry that matches a key, with no later match, gives the key its
/// value in the mapping.
proof fn lemma_assoc_found(es: Seq<(String, JsonToken)>, i: int, k: Seq<char>)
    requires
        0 <= i < es.len(),
        es[i].0@ == k,
        forall|j: int| i < j < es.len() ==> es[j].0@ != k,
    ensures
        assoc_view(es).contains_key(k),
        assoc_view(es)[k] == token_view(es[i].1),
    decreases es,
{
    if i < es.len() - 1 {
        lemma_assoc_found(es.drop_last(), i, k);
    }
}

/// A key that no entry carries is absent from the mapping.
proof fn lemma_assoc_absent(es: Seq<(String, JsonToken)>, k: Seq<char>)
    requires
        forall|j: int| 0 <= j < es.len() ==> es[j].0@ != k,
    ensures
        !assoc_view(es).contains_key(k),
    decreases es,
{
    if es.len() > 0 {
        lemma_assoc_absent(es.drop_last(), k);
    }
}

/// The index of the first entry that carries `key`, if any does.
fn find_entry(es: &Vec<(String, JsonToken)>, key: &String) -> (r: Option<usize>)
    ensures
        match r {
            Some(i) => i < es@.len() && es@[i as int].0@ == key@,
            None => forall|j: int| 0 <= j < es@.len() ==> es@[j].0@ != key@,
        },
{
    let n = es.len();
    let mut i: usize = 0;
    while i < n
        invariant
            i <= n,
            n == es@.len(),
            forall|j: int| 0 <= j < i ==> es@[j].0@ != key@,
        decreases n - i,
    {
        if es[i].0 == *key {
            return Some(i);
        }
        i += 1;
    }
    None
}

impl JsonMap {
    /// Well-formedness: the entry keys are pairwise distinct. `new` and
    /// `insert` establish and preserve this.
    pub open spec fn wf(&self) -> bool {
        keys_unique(self.entries@)
    }

    /// The empty object.
    pub fn new() -> (m: JsonMap)
        ensures
            m@ == Map::<Seq<char>, TokenModel>::empty(),
            m.wf(),
            m.entries@.len() == 0,
    {
        JsonMap { entries: Vec::new() }
    }

    /// Binds `key` to `value`; an existing binding of the same key is
    /// overwritten in place, so the last write wins.
    pub fn insert(&mut self, key: String, value: JsonToken)
        requires
            old(self).wf(),
        ensures
            (*final(self))@ == (*old(self))@.insert(key@, value@),
            (*final(self)).wf(),
    {
        let ghost es = old(self).entries@;
        match find_entry(&self.entries, &key) {
            Some(i) => {
                proof {
                    lemma_assoc_update(es, i as int, key, value);
                }
                self.entries.remove(i);
                self.entries.insert(i, (key, value));
                proof {
                    assert(self.entries@ =~= es.update(i as int, (key, value)));
                    assert forall|p: int|
                        0 <= p < self.entries@.len() implies self.entries@[p].0@ == es[p].0@ by {
                        assert(es.update(i as int, (key, value))[p] == if p == i as int {
                            (key, value)
                        } else {
                            es[p]
                        });
                    }
                    assert((*self)@ == assoc_view(es).insert(key@, token_view(value)));
                }
            },
            None => {
                self.entries.push((key, value));
                proof {
                    assert(self.entries@.drop_last() =~= es);
                    assert((*self)@ =~= (*old(self))@.insert(key@, value@));
                }
            },
        }
    }

    /// Looks a key up; the match is against the latest binding, which is
    /// the one the mapping holds.
    pub fn get<'a>(&'a self, key: &String) -> (r: Option<&'a JsonToken>)
        ensures
            match r {
                Some(t) => self@.contains_key(key@) && t@ == self@[key@],
                None => !self@.contains_key(key@),
            },
    {
        let n = self.entries.len();
        let mut i: usize = n;
        while i > 0
            invariant
                n == self.entries@.len(),
                i <= n,
                forall|j: int| i <= j < n ==> self.entries@[j].0@ != key@,
            decreases i,
        {
            i -= 1;
            if self.entries[i].0 == *key {
                proof {
                    lemma_assoc_found(self.entries@, i as int, key@);
                }
                return Some(&self.entries[i].1);
            }
        }
        proof {
            lemma_assoc_absent(self.entries@, key@);
        }
        None
    }

    /// A copy with the same mapping whose entry keys are certainly
    /// unique: every entry is re-inserted in order, so a later duplicate
    /// key overrides an earlier one.
    pub fn normalized(&self) -> (r: JsonMap)
        ensures
            r@ == self@,
            r.wf(),
    {
        let ghost es = self.entries@;
        let n = self.entries.len();
        let mut out = JsonMap::new();
        let mut j: usize = 0;
        proof {
            assert(es.subrange(0, 0) =~= Seq::<(String, JsonToken)>::empty());
        }
        while j < n
            invariant
                n == es.len(),
                es == self.entries@,
                j <= n,
                out.wf(),
                out@ == assoc_view(es.subrange(0, j as int)),
            decreases n - j,
        {
            let k = self.entries[j].0.clone();
            let v = self.entries[j].1.dup();
            out.insert(k, v);
            j += 1;
            proof {
                let sub = es.subrange(0, j as int);
                assert(sub.drop_last() =~= es.subrange(0, j as int - 1));
                assert(sub.last() == es[j as int - 1]);
            }
        }
        proof {
            assert(es.subrange(0, n as int) =~= es);
        }
        out
    }

    /// An explicit deep copy whose mapping equals the original's, entry by
    /// entry.
    pub fn dup(&self) -> (r: JsonMap)
        ensures
            r@ == self@,
            r.entries@.len() == self.entries@.len(),
            forall|j: int| 0 <= j < r.entries@.len() ==> r.entries@[j].0@ == self.entries@[j].0@,
            self.wf() ==> r.wf(),
        decreases *self,
    {
        let n = self.entries.len();
        let mut out: Vec<(String, JsonToken)> = Vec::new();
        let mut i: usize = 0;
        while i < n
            invariant
                n == self.entries@.len(),
                i <= n,
                out@.len() == i,
                forall|j: int|
                    0 <= j < i ==> out@[j].0@ == self.entries@[j].0@ && token_view(out@[j].1)
                        == token_view(self.entries@[j].1),
            decreases n - i,
        {
            let k = self.entries[i].0.clone();
            let v = self.entries[i].1.dup();
            out.push((k, v));
            i += 1;
        }
        proof {
            lemma_assoc_view_pointwise(out@, self.entries@);
        }
        JsonMap { entries: out }
    }
}

impl JsonToken {
    /// Whether this token is a key.
    pub fn is_key(&self) -> (r: bool)
        ensures
            r == (self@ is JsonKey),
    {
        matches!(self, JsonToken::JsonKey(_))
    }

    /// Whether this token carries a value: a string, number, boolean,
    /// object or array, as opposed to a key, a structural token or the
    /// invalid sentinel.
    pub fn is_value(&self) -> (r: bool)
        ensures
            r == is_value_model(self@),
    {
        match self {
            JsonToken::JsonKey(_)
            | JsonToken::JsonArrBeg
            | JsonToken::JsonArrEnd
            | JsonToken::JsonObjBeg
            | JsonToken::JsonObjEnd
            | JsonToken::JsonInvalid => false,
            _ => true,
        }
    }

    /// The held string, when the tag matches; a type mismatch otherwise.
    pub fn as_str(&self) -> (r: Result<&str, InvalidJsonUnwrap>)
        ensures
            match r {
                Ok(s) => self@ is JsonString && s@ == self@->JsonString_0,
                Err(_) => !(self@ is JsonString),
            },
    {
        match self {
            JsonToken::JsonString(s) => Ok(s.as_str()),
            _ => Err(InvalidJsonUnwrap),
        }
    }

    /// The held numeric literal text, when the tag matches; a type
    /// mismatch otherwise.
    pub fn as_num(&self) -> (r: Result<String, InvalidJsonUnwrap>)
        ensures
            match r {
                Ok(s) => self@ is JsonNum && s@ == self@->JsonNum_0,
                Err(_) => !(self@ is JsonNum),
            },
    {
        match self {
            JsonToken::JsonNum(s) => Ok(s.clone()),
            _ => Err(InvalidJsonUnwrap),
        }
    }

    /// The held boolean, when the tag matches; a type mismatch otherwise,
    /// never a panic.
    pub fn as_bool(&self) -> (r: Result<bool, InvalidJsonUnwrap>)
        ensures
            match r {
                Ok(b) => self@ is JsonBool && b == self@->JsonBool_0,
                Err(_) => !(self@ is JsonBool),
            },
    {
        match self {
            JsonToken::JsonBool(b) => Ok(*b),
            _ => Err(InvalidJsonUnwrap),
        }
    }

    /// A copy of the held object, when the tag matches; a type mismatch
    /// otherwise, on every non-object value, never a panic.
    pub fn as_map(&self) -> (r: Result<JsonMap, InvalidJsonUnwrap>)
        ensures
            match r {
                Ok(m) => self@ is JsonObj && m@ == self@->JsonObj_0,
                Err(_) => !(self@ is JsonObj),
            },
    {
        match self {
            JsonToken::JsonObj(m) => Ok(m.dup()),
            _ => Err(InvalidJsonUnwrap),
        }
    }

    /// A copy of the held array, when the tag matches; a type mismatch
    /// otherwise.
    pub fn as_vec(&self) -> (r: Result<Vec<JsonToken>, InvalidJsonUnwrap>)
        ensures
            match r {
                Ok(v) => self@ is JsonArr && arr_view(v@) == self@->JsonArr_0,
                Err(_) => !(self@ is JsonArr),
            },
    {
        match self {
            JsonToken::JsonArr(v) => Ok(dup_tokens(v)),
            _ => Err(InvalidJsonUnwrap),
        }
    }

    /// An explicit deep copy whose model equals the original's.
    pub fn dup(&self) -> (r: JsonToken)
        ensures
            r@ == self@,
        decreases *self,
    {
        match self {
            JsonToken::JsonKey(s) => JsonToken::JsonKey(s.clone()),
            JsonToken::JsonString(s) => JsonToken::JsonString(s.clone()),
            JsonToken::JsonNum(s) => JsonToken::JsonNum(s.clone()),
            JsonToken::JsonBool(b) => JsonToken::JsonBool(*b),
            JsonToken::JsonObj(m) => JsonToken::JsonObj(m.dup()),
            JsonToken::JsonArr(v) => JsonToken::JsonArr(dup_tokens(v)),
            JsonToken::JsonArrBeg => JsonToken::JsonArrBeg,
            JsonToken::JsonArrEnd => JsonToken::JsonArrEnd,
            JsonToken::JsonObjBeg => JsonToken::JsonObjBeg,
            JsonToken::JsonObjEnd => JsonToken::JsonObjEnd,
            JsonToken::JsonInvalid => JsonToken::JsonInvalid,
        }
    }
}

/// Whether a token model carries a value.
pub open spec fn is_value_model(t: TokenModel) -> bool {
    ||| t is JsonString
    ||| t is JsonNum
    ||| t is JsonBool
    ||| t is JsonObj
    ||| t is JsonArr
}

/// An explicit deep copy of a token sequence, elementwise.
pub fn dup_tokens(v: &Vec<JsonToken>) -> (r: Vec<JsonToken>)
    ensures
        r@.len() == v@.len(),
        forall|j: int| 0 <= j < v@.len() ==> r@[j]@ == v@[j]@,
        arr_view(r@) == arr_view(v@),
    decreases *v,
{
    let n = v.len();
    let mut out: Vec<JsonToken> = Vec::new();
    let mut i: usize = 0;
    while i < n
        invariant
            n == v@.len(),
            i <= n,
            out@.len() == i,
            forall|j: int| 0 <= j < i ==> out@[j]@ == v@[j]@,
        decreases n - i,
    {
        let t = v[i].dup();
        out.push(t);
        i += 1;
    }
    proof {
        broadcast use lemma_arr_view_index;

        assert(arr_view(out@) =~= arr_view(v@));
    }
    out
}

} // verus!
