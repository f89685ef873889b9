//! Recursive-descent parsing: turns the tokenizer's output into a tree of
//! typed JSON values, enforcing the JSON grammar.

use vstd::prelude::*;

use crate::tokenizer::TokenModel;
use crate::tokenizer::TokenType;

verus! {

/// The in-memory representation of a parsed JSON document.
///
/// An object is an ordered list of key/value pairs whose keys are unique:
/// insertion order is preserved, and a later duplicate key in the input
/// overwrites the earlier member. A number carries its lexeme, the exact
/// numeric text of the input.
#[derive(Debug, PartialEq)]
pub enum JsonValue {
    Object(Vec<(String, JsonValue)>),
    Array(Vec<JsonValue>),
    String(String),
    Number(String),
    Boolean(bool),
    Null,
}

/// The mathematical model of a JSON value: sequences in place of vectors,
/// character sequences in place of owned strings.
pub enum JsonModel {
    Object(Seq<(Seq<char>, JsonModel)>),
    Array(Seq<JsonModel>),
    Text(Seq<char>),
    Number(Seq<char>),
    Boolean(bool),
    Null,
}

/// The model of a JSON value.
pub open spec fn json_view(v: JsonValue) -> JsonModel
    decreases v,
{
    match v {
        JsonValue::Object(members) => JsonModel::Object(member_views(members@)),
        JsonValue::Array(elements) => JsonModel::Array(element_views(elements@)),
        JsonValue::String(s) => JsonModel::Text(s@),
        JsonValue::Number(s) => JsonModel::Number(s@),
        JsonValue::Boolean(b) => JsonModel::Boolean(b),
        JsonValue::Null => JsonModel::Null,
    }
}

/// The models of a sequence of JSON values, element by element.
pub open spec fn element_views(elements: Seq<JsonValue>) -> Seq<JsonModel>
    decreases elements,
{
    if elements.len() == 0 {
        Seq::empty()
    } else {
        seq![json_view(elements[0])] + element_views(elements.drop_first())
    }
}

/// The models of a sequence of object members, member by member.
pub open spec fn member_views(members: Seq<(String, JsonValue)>) -> Seq<(Seq<char>, JsonModel)>
    decreases members,
{
    if members.len() == 0 {
        Seq::empty()
    } else {
        seq![(members[0].0@, json_view(members[0].1))] + member_views(members.drop_first())
    }
}

impl View for JsonValue {
    type V = JsonModel;

    open spec fn view(&self) -> JsonModel {
        json_view(*self)
    }
}

/// Whether no two members of `members` share a key.
pub open spec fn unique_keys(members: Seq<(Seq<char>, JsonModel)>) -> bool {
    forall|i: int, j: int|
        #![trigger members[i], members[j]]
        0 <= i < j < members.len() ==> members[i].0 != members[j].0
}

/// Well-formedness of a value: in every object of the tree the keys are
/// unique. The parser establishes this for everything it builds.
pub open spec fn wf_json_model(v: JsonModel) -> bool
    decreases v,
{
    match v {
        JsonModel::Object(members) => unique_keys(members) && wf_member_values(members),
        JsonModel::Array(elements) => wf_element_values(elements),
        _ => true,
    }
}

/// Well-formedness of every element of a sequence of values.
pub open spec fn wf_element_values(elements: Seq<JsonModel>) -> bool
    decreases elements,
{
    elements.len() == 0 || (wf_json_model(elements[0]) && wf_element_values(
        elements.drop_first(),
    ))
}

/// Well-formedness of every value of a sequence of members.
pub open spec fn wf_member_values(members: Seq<(Seq<char>, JsonModel)>) -> bool
    decreases members,
{
    members.len() == 0 || (wf_json_model(members[0].1) && wf_member_values(
        members.drop_first(),
    ))
}

/// A parse error, detected at the first violating token.
#[derive(Debug, Clone, Copy, PartialEq, Eq, Structural)]
pub enum ParseError {
    /// A token that cannot occur where it stands.
    UnexpectedToken,
    /// The token stream ended where a value was expected.
    UnexpectedEndOfInput,
    /// After an array element, a token that is neither `,` nor `]`.
    ExpectedCommaOrBracket,
    /// After an object member, a token that is neither `,` nor `}`.
    ExpectedCommaOrBrace,
    /// An object key that is not a string token.
    ExpectedStringKey,
    /// The token stream ended inside an object, before its `}`.
    UnterminatedObject,
    /// The token stream ended inside an array, before its `]`.
    UnterminatedArray,
    /// Tokens remain after a complete top-level value.
    TrailingTokens,
}

/// Whether some member of `members` has the key `k`.
pub open spec fn member_key_present(members: Seq<(Seq<char>, JsonModel)>, k: Seq<char>) -> bool {
    exists|i: int| 0 <= i < members.len() && members[i].0 == k
}

/// Adds the member `(k, v)` in front of the members parsed after it.
/// A later member with the same key wins: the earlier pair is dropped.
pub open spec fn member_cons(
    k: Seq<char>,
    v: JsonModel,
    rest: Seq<(Seq<char>, JsonModel)>,
) -> Seq<(Seq<char>, JsonModel)> {
    if member_key_present(rest, k) {
        rest
    } else {
        seq![(k, v)] + rest
    }
}

/// The value that starts at `ts[pos]` and the position just after it, or
/// the first grammar error. Dispatches on the leading token: `{` and `[`
/// open an object or array, the five terminal tokens map directly to
/// their value, and any other token cannot start a value.
pub open spec fn spec_parse_value(ts: Seq<TokenModel>, pos: int) -> Result<
    (JsonModel, int),
    ParseError,
>
    decreases ts.len() - pos, 0int,
{
    if pos < 0 || pos >= ts.len() {
        Err(ParseError::UnexpectedEndOfInput)
    } else {
        match ts[pos] {
            TokenModel::CurlyBraceOpening => match spec_parse_members(ts, pos + 1) {
                Ok((members, p)) => Ok((JsonModel::Object(members), p)),
                Err(e) => Err(e),
            },
            TokenModel::BracketOpening => match spec_parse_elements(ts, pos + 1) {
                Ok((elements, p)) => Ok((JsonModel::Array(elements), p)),
                Err(e) => Err(e),
            },
            TokenModel::Text(s) => Ok((JsonModel::Text(s), pos + 1)),
            TokenModel::Number(x) => Ok((JsonModel::Number(x), pos + 1)),
            TokenModel::True => Ok((JsonModel::Boolean(true), pos + 1)),
            TokenModel::False => Ok((JsonModel::Boolean(false), pos + 1)),
            TokenModel::Null => Ok((JsonModel::Null, pos + 1)),
            _ => Err(ParseError::UnexpectedToken),
        }
    }
}

/// The elements of an array whose `[` was consumed, and the position just
/// after its `]`. Accepts the empty array and one trailing comma before
/// the `]`; after an element, anything but `,` or `]` is an error, and an
/// exhausted stream means the array was never closed.
pub open spec fn spec_parse_elements(ts: Seq<TokenModel>, pos: int) -> Result<
    (Seq<JsonModel>, int),
    ParseError,
>
    decreases ts.len() - pos, 1int,
{
    if pos < 0 || pos >= ts.len() {
        Err(ParseError::UnterminatedArray)
    } else if ts[pos] is BracketClosing {
        Ok((Seq::empty(), pos + 1))
    } else {
        match spec_parse_value(ts, pos) {
            Err(e) => Err(e),
            Ok((v, p)) => {
                if p <= pos || p >= ts.len() {
                    Err(ParseError::UnterminatedArray)
                } else if ts[p] is Comma {
                    match spec_parse_elements(ts, p + 1) {
                        Err(e) => Err(e),
                        Ok((rest, p2)) => Ok((seq![v] + rest, p2)),
                    }
                } else if ts[p] is BracketClosing {
                    Ok((seq![v], p + 1))
                } else {
                    Err(ParseError::ExpectedCommaOrBracket)
                }
            },
        }
    }
}

/// The members of an object whose `{` was consumed, and the position just
/// after its `}`. Each member is a string key, a colon and a value; a key
/// of any other kind is an error, and a later duplicate key overwrites
/// the earlier member. Accepts the empty object and one trailing comma
/// before the `}`; after a member, anything but `,` or `}` is an error,
/// and an exhausted stream means the object was never closed.
pub open spec fn spec_parse_members(ts: Seq<TokenModel>, pos: int) -> Result<
    (Seq<(Seq<char>, JsonModel)>, int),
    ParseError,
>
    decreases ts.len() - pos, 1int,
{
    if pos < 0 || pos >= ts.len() {
        Err(ParseError::UnterminatedObject)
    } else if ts[pos] is CurlyBraceClosing {
        Ok((Seq::empty(), pos + 1))
    } else {
        match ts[pos] {
            TokenModel::Text(k) => {
                if pos + 1 >= ts.len() {
                    Err(ParseError::UnterminatedObject)
                } else if !(ts[pos + 1] is Colon) {
                    Err(ParseError::UnexpectedToken)
                } else {
                    match spec_parse_value(ts, pos + 2) {
                        Err(e) => Err(e),
                        Ok((v, p)) => {
                            if p <= pos || p >= ts.len() {
                                Err(ParseError::UnterminatedObject)
                            } else if ts[p] is Comma {
                                match spec_parse_members(ts, p + 1) {
                                    Err(e) => Err(e),
                                    Ok((rest, p2)) => Ok((member_cons(k, v, rest), p2)),
                                }
                            } else if ts[p] is CurlyBraceClosing {
                                Ok((seq![(k, v)], p + 1))
                            } else {
                                Err(ParseError::ExpectedCommaOrBrace)
                            }
                        },
                    }
                }
            },
            _ => Err(ParseError::ExpectedStringKey),
        }
    }
}

/// The value of a whole token stream: a single value covering every
/// token; leftover tokens after the value are an error of their own.
pub open spec fn spec_parse(ts: Seq<TokenModel>) -> Result<JsonModel, ParseError> {
    match spec_parse_value(ts, 0) {
        Err(e) => Err(e),
        Ok((v, p)) => if p == ts.len() {
            Ok(v)
        } else {
            Err(ParseError::TrailingTokens)
        },
    }
}

/// Splitting off the first element of a sequence of values splits its
/// well-formedness.
proof fn lemma_wf_element_values_cons(v: JsonModel, rest: Seq<JsonModel>)
    ensures
        wf_element_values(seq![v] + rest) == (wf_json_model(v) && wf_element_values(rest)),
{
    let s = seq![v] + rest;
    assert(s[0] == v);
    assert(s.drop_first() =~= rest);
}

/// Splitting off the first member of a sequence of members splits its
/// well-formedness.
proof fn lemma_wf_member_values_cons(
    k: Seq<char>,
    v: JsonModel,
    rest: Seq<(Seq<char>, JsonModel)>,
)
    ensures
        wf_member_values(seq![(k, v)] + rest) == (wf_json_model(v) && wf_member_values(rest)),
{
    let s = seq![(k, v)] + rest;
    assert(s[0] == (k, v));
    assert(s.drop_first() =~= rest);
}

/// Every value the parser builds is well-formed.
proof fn lemma_parse_value_wf(ts: Seq<TokenModel>, pos: int)
    requires
        spec_parse_value(ts, pos) is Ok,
    ensures
        wf_json_model(spec_parse_value(ts, pos)->Ok_0.0),
    decreases ts.len() - pos, 0int,
{
    if 0 <= pos < ts.len() {
        match ts[pos] {
            TokenModel::CurlyBraceOpening => {
                lemma_parse_members_wf(ts, pos + 1);
            },
            TokenModel::BracketOpening => {
                lemma_parse_elements_wf(ts, pos + 1);
            },
            _ => {},
        }
    }
}

/// Every element sequence the parser builds holds well-formed values.
proof fn lemma_parse_elements_wf(ts: Seq<TokenModel>, pos: int)
    requires
        spec_parse_elements(ts, pos) is Ok,
    ensures
        wf_element_values(spec_parse_elements(ts, pos)->Ok_0.0),
    decreases ts.len() - pos, 1int,
{
    if 0 <= pos < ts.len() && !(ts[pos] is BracketClosing) {
        let (v, p) = spec_parse_value(ts, pos)->Ok_0;
        lemma_parse_value_wf(ts, pos);
        if pos < p < ts.len() {
            if ts[p] is Comma {
                let rest = spec_parse_elements(ts, p + 1)->Ok_0.0;
                lemma_parse_elements_wf(ts, p + 1);
                lemma_wf_element_values_cons(v, rest);
            } else if ts[p] is BracketClosing {
                lemma_wf_element_values_cons(v, Seq::empty());
                assert(seq![v] + Seq::<JsonModel>::empty() =~= seq![v]);
            }
        }
    }
}

/// Every member sequence the parser builds has unique keys and holds
/// well-formed values.
proof fn lemma_parse_members_wf(ts: Seq<TokenModel>, pos: int)
    requires
        spec_parse_members(ts, pos) is Ok,
    ensures
        unique_keys(spec_parse_members(ts, pos)->Ok_0.0),
        wf_member_values(spec_parse_members(ts, pos)->Ok_0.0),
    decreases ts.len() - pos, 1int,
{
    if 0 <= pos < ts.len() && !(ts[pos] is CurlyBraceClosing) {
        if let TokenModel::Text(k) = ts[pos] {
            if pos + 1 < ts.len() && ts[pos + 1] is Colon && spec_parse_value(ts, pos + 2) is Ok {
                let (v, p) = spec_parse_value(ts, pos + 2)->Ok_0;
                lemma_parse_value_wf(ts, pos + 2);
                if pos < p < ts.len() {
                    if ts[p] is Comma {
                        let rest = spec_parse_members(ts, p + 1)->Ok_0.0;
                        lemma_parse_members_wf(ts, p + 1);
                        if !member_key_present(rest, k) {
                            lemma_wf_member_values_cons(k, v, rest);
                            let s = seq![(k, v)] + rest;
                            assert forall|i: int, j: int| 0 <= i < j < s.len() implies s[i].0
                                != s[j].0 by {
                                if i == 0 {
                                    assert(s[j] == rest[j - 1]);
                                    assert(!(exists|m: int|
                                        0 <= m < rest.len() && rest[m].0 == k));
                                } else {
                                    assert(s[i] == rest[i - 1]);
                                    assert(s[j] == rest[j - 1]);
                                }
                            }
                        }
                    } else if ts[p] is CurlyBraceClosing {
                        lemma_wf_member_values_cons(k, v, Seq::empty());
                        assert(seq![(k, v)] + Seq::<(Seq<char>, JsonModel)>::empty() =~= seq![
                            (k, v),
                        ]);
                    }
                }
            }
        }
    }
}

/// The model of a sequence of values, taken apart one element at a time.
pub proof fn lemma_element_views_cons(v: JsonValue, rest: Seq<JsonValue>)
    ensures
        element_views(seq![v] + rest) == seq![json_view(v)] + element_views(rest),
{
    let s = seq![v] + rest;
    assert(s[0] == v);
    assert(s.drop_first() =~= rest);
}

/// The model of a sequence of members, taken apart one member at a time.
pub proof fn lemma_member_views_cons(k: String, v: JsonValue, rest: Seq<(String, JsonValue)>)
    ensures
        member_views(seq![(k, v)] + rest) == seq![(k@, json_view(v))] + member_views(rest),
{
    let s = seq![(k, v)] + rest;
    assert(s[0] == (k, v));
    assert(s.drop_first() =~= rest);
}

/// The model of a member sequence has the same length and models each
/// member in place.
pub proof fn lemma_member_views_index(m: Seq<(String, JsonValue)>)
    ensures
        member_views(m).len() == m.len(),
        forall|i: int|
            0 <= i < m.len() ==> member_views(m)[i] == (m[i].0@, json_view(m[i].1)),
    decreases m,
{
    if m.len() > 0 {
        lemma_member_views_index(m.drop_first());
        assert forall|i: int| 0 <= i < m.len() implies member_views(m)[i] == (
            m[i].0@,
            json_view(m[i].1),
        ) by {
            if i > 0 {
                assert(m.drop_first()[i - 1] == m[i]);
            }
        }
    }
}

/// Whether some member of `members` carries the key `k`.
fn has_key(members: &Vec<(String, JsonValue)>, k: &String) -> (b: bool)
    ensures
        b == member_key_present(member_views(members@), k@),
{
    proof {
        lemma_member_views_index(members@);
    }
    let mut i: usize = 0;
    while i < members.len()
        invariant
            i <= members@.len(),
            member_views(members@).len() == members@.len(),
            forall|j: int|
                0 <= j < members@.len() ==> member_views(members@)[j] == (
                    members@[j].0@,
                    json_view(members@[j].1),
                ),
            forall|j: int| 0 <= j < i ==> members@[j].0@ != k@,
        decreases members@.len() - i,
    {
        if members[i].0 == *k {
            proof {
                assert(member_key_present(member_views(members@), k@)) by {
                    assert(member_views(members@)[i as int].0 == k@);
                }
            }
            return true;
        }
        i = i + 1;
    }
    false
}

/// The value that starts at `tokens[pos]` and the position just after it,
/// exactly as [`spec_parse_value`] assigns them.
fn parse_value_at(tokens: &Vec<TokenType>, pos: usize) -> (r: Result<(JsonValue, usize), ParseError>)
    ensures
        match r {
            Ok((v, p)) => spec_parse_value(tokens.deep_view(), pos as int) == Ok::<
                _,
                ParseError,
            >((json_view(v), p as int)) && pos < p <= tokens.len(),
            Err(e) => spec_parse_value(tokens.deep_view(), pos as int) == Err::<
                (JsonModel, int),
                _,
            >(e),
        },
    decreases tokens@.len() - pos, 0int,
{
    if pos >= tokens.len() {
        return Err(ParseError::UnexpectedEndOfInput);
    }
    match &tokens[pos] {
        TokenType::CurlyBraceOpening => match parse_members_at(tokens, pos + 1) {
            Ok((members, p)) => Ok((JsonValue::Object(members), p)),
            Err(e) => Err(e),
        },
        TokenType::BracketOpening => match parse_elements_at(tokens, pos + 1) {
            Ok((elements, p)) => Ok((JsonValue::Array(elements), p)),
            Err(e) => Err(e),
        },
        TokenType::String(s) => Ok((JsonValue::String(s.clone()), pos + 1)),
        TokenType::Number(x) => Ok((JsonValue::Number(x.clone()), pos + 1)),
        TokenType::True => Ok((JsonValue::Boolean(true), pos + 1)),
        TokenType::False => Ok((JsonValue::Boolean(false), pos + 1)),
        TokenType::Null => Ok((JsonValue::Null, pos + 1)),
        _ => Err(ParseError::UnexpectedToken),
    }
}

/// The elements of an array whose `[` stood just before `pos`, exactly as
/// [`spec_parse_elements`] assigns them.
fn parse_elements_at(tokens: &Vec<TokenType>, pos: usize) -> (r: Result<
    (Vec<JsonValue>, usize),
    ParseError,
>)
    ensures
        match r {
            Ok((elements, p)) => spec_parse_elements(tokens.deep_view(), pos as int) == Ok::<
                _,
                ParseError,
            >((element_views(elements@), p as int)) && pos < p <= tokens.len(),
            Err(e) => spec_parse_elements(tokens.deep_view(), pos as int) == Err::<
                (Seq<JsonModel>, int),
                _,
            >(e),
        },
    decreases tokens@.len() - pos, 1int,
{
    if pos >= tokens.len() {
        return Err(ParseError::UnterminatedArray);
    }
    if let TokenType::BracketClosing = &tokens[pos] {
        return Ok((Vec::new(), pos + 1));
    }
    match parse_value_at(tokens, pos) {
        Err(e) => Err(e),
        Ok((v, p)) => {
            if p >= tokens.len() {
                Err(ParseError::UnterminatedArray)
            } else if let TokenType::Comma = &tokens[p] {
                match parse_elements_at(tokens, p + 1) {
                    Err(e) => Err(e),
                    Ok((mut rest, p2)) => {
                        proof {
                            lemma_element_views_cons(v, rest@);
                            assert(rest@.insert(0, v) =~= seq![v] + rest@);
                        }
                        rest.insert(0, v);
                        Ok((rest, p2))
                    },
                }
            } else if let TokenType::BracketClosing = &tokens[p] {
                let mut elements: Vec<JsonValue> = Vec::new();
                proof {
                    lemma_element_views_cons(v, Seq::empty());
                    assert(seq![v] + Seq::<JsonValue>::empty() =~= seq![v]);
                }
                elements.push(v);
                Ok((elements, p + 1))
            } else {
                Err(ParseError::ExpectedCommaOrBracket)
            }
        },
    }
}

/// The members of an object whose `{` stood just before `pos`, exactly as
/// [`spec_parse_members`] assigns them.
fn parse_members_at(tokens: &Vec<TokenType>, pos: usize) -> (r: Result<
    (Vec<(String, JsonValue)>, usize),
    ParseError,
>)
    ensures
        match r {
            Ok((members, p)) => spec_parse_members(tokens.deep_view(), pos as int) == Ok::<
                _,
                ParseError,
            >((member_views(members@), p as int)) && pos < p <= tokens.len(),
            Err(e) => spec_parse_members(tokens.deep_view(), pos as int) == Err::<
                (Seq<(Seq<char>, JsonModel)>, int),
                _,
            >(e),
        },
    decreases tokens@.len() - pos, 1int,
{
    if pos >= tokens.len() {
        return Err(ParseError::UnterminatedObject);
    }
    if let TokenType::CurlyBraceClosing = &tokens[pos] {
        return Ok((Vec::new(), pos + 1));
    }
    let k = match &tokens[pos] {
        TokenType::String(s) => s.clone(),
        _ => {
            return Err(ParseError::ExpectedStringKey);
        },
    };
    if pos + 1 >= tokens.len() {
        return Err(ParseError::UnterminatedObject);
    }
    match &tokens[pos + 1] {
        TokenType::Colon => {},
        _ => {
            return Err(ParseError::UnexpectedToken);
        },
    }
    match parse_value_at(tokens, pos + 2) {
        Err(e) => Err(e),
        Ok((v, p)) => {
            if p >= tokens.len() {
                Err(ParseError::UnterminatedObject)
            } else if let TokenType::Comma = &tokens[p] {
                match parse_members_at(tokens, p + 1) {
                    Err(e) => Err(e),
                    Ok((mut rest, p2)) => {
                        if has_key(&rest, &k) {
                            Ok((rest, p2))
                        } else {
                            proof {
                                lemma_member_views_cons(k, v, rest@);
                                assert(rest@.insert(0, (k, v)) =~= seq![(k, v)] + rest@);
                            }
                            rest.insert(0, (k, v));
                            Ok((rest, p2))
                        }
                    },
                }
            } else if let TokenType::CurlyBraceClosing = &tokens[p] {
                let mut members: Vec<(String, JsonValue)> = Vec::new();
                proof {
                    lemma_member_views_cons(k, v, Seq::empty());
                    assert(seq![(k, v)] + Seq::<(String, JsonValue)>::empty() =~= seq![(k, v)]);
                }
                members.push((k, v));
                Ok((members, p + 1))
            } else {
                Err(ParseError::ExpectedCommaOrBrace)
            }
        },
    }
}

/// Builds the value tree of a whole token stream, or reports the first
/// grammar error: exactly the outcome that [`spec_parse`] assigns to the
/// stream's model. The entire stream must be consumed by the one
/// top-level value, and the tree built is well-formed: in every object
/// the keys are unique.
pub fn parse(tokens: Vec<TokenType>) -> (r: Result<JsonValue, ParseError>)
    ensures
        match r {
            Ok(v) => spec_parse(tokens.deep_view()) == Ok::<_, ParseError>(json_view(v))
                && wf_json_model(json_view(v)),
            Err(e) => spec_parse(tokens.deep_view()) == Err::<JsonModel, _>(e),
        },
{
    match parse_value_at(&tokens, 0) {
        Err(e) => Err(e),
        Ok((v, p)) => if p == tokens.len() {
            proof {
                lemma_parse_value_wf(tokens.deep_view(), 0);
            }
            Ok(v)
        } else {
            Err(ParseError::TrailingTokens)
        },
    }
}

} // verus!
