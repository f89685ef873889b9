//! The JSON grammar, stated declaratively, and the proof that the parser
//! is complete for it: every token sequence the grammar derives for a
//! value tree is parsed successfully into exactly that tree.

use vstd::prelude::*;

use crate::parser::member_cons;
use crate::parser::member_key_present;
use crate::parser::spec_parse;
use crate::parser::spec_parse_elements;
use crate::parser::spec_parse_members;
use crate::parser::spec_parse_value;
use crate::parser::JsonModel;
use crate::parser::ParseError;
use crate::tokenizer::TokenModel;

verus! {

/// Whether `ts` derives the value `v`:
///
/// ```text
/// value   := object | array | string | number | "true" | "false" | "null"
/// object  := "{" [ pair ("," pair)* [","] ] "}"
/// pair    := string ":" value
/// array   := "[" [ value ("," value)* [","] ] "]"
/// ```
///
/// `ts` must be exactly the derivation's tokens, nothing before or after.
/// In an object derivation a later pair whose key repeats an earlier one
/// overwrites it, exactly as the parser does.
pub open spec fn grammar_value(ts: Seq<TokenModel>, v: JsonModel) -> bool
    decreases ts.len(), 0int,
{
    match v {
        JsonModel::Null => ts == seq![TokenModel::Null],
        JsonModel::Boolean(b) => if b {
            ts == seq![TokenModel::True]
        } else {
            ts == seq![TokenModel::False]
        },
        JsonModel::Text(s) => ts == seq![TokenModel::Text(s)],
        JsonModel::Number(x) => ts == seq![TokenModel::Number(x)],
        JsonModel::Array(elements) => ts.len() >= 2 && ts[0] is BracketOpening
            && grammar_elements(ts.subrange(1, ts.len() as int), elements),
        JsonModel::Object(members) => ts.len() >= 2 && ts[0] is CurlyBraceOpening
            && grammar_members(ts.subrange(1, ts.len() as int), members),
    }
}

/// Whether `ts`, the tokens of an array after its `[`, derives exactly
/// the elements `elements` and ends with the closing `]`.
pub open spec fn grammar_elements(ts: Seq<TokenModel>, elements: Seq<JsonModel>) -> bool
    decreases ts.len(), 1int,
{
    if elements.len() == 0 {
        ts == seq![TokenModel::BracketClosing]
    } else {
        exists|i: int|
            0 < i < ts.len() && grammar_value(#[trigger] ts.subrange(0, i), elements[0])
                && grammar_elements_rest(
                ts.subrange(i, ts.len() as int),
                elements.subrange(1, elements.len() as int),
            )
    }
}

/// Whether `ts`, the tokens of an array after one of its elements,
/// derives exactly the remaining elements `elements`: either the array
/// closes (possibly after one trailing comma), or a comma and further
/// elements follow.
pub open spec fn grammar_elements_rest(ts: Seq<TokenModel>, elements: Seq<JsonModel>) -> bool
    decreases ts.len(), 2int,
{
    if elements.len() == 0 {
        ts == seq![TokenModel::BracketClosing] || ts == seq![
            TokenModel::Comma,
            TokenModel::BracketClosing,
        ]
    } else {
        ts.len() > 0 && ts[0] is Comma && grammar_elements(
            ts.subrange(1, ts.len() as int),
            elements,
        )
    }
}

/// Whether `ts`, the tokens of an object after its `{`, derives exactly
/// the members `members` and ends with the closing `}`. A later pair
/// whose key repeats an earlier one overwrites it ([`member_cons`]).
pub open spec fn grammar_members(
    ts: Seq<TokenModel>,
    members: Seq<(Seq<char>, JsonModel)>,
) -> bool
    decreases ts.len(), 3int,
{
    if ts.len() > 0 && ts[0] is CurlyBraceClosing {
        ts == seq![TokenModel::CurlyBraceClosing] && members == Seq::<(Seq<char>, JsonModel)>::empty()
    } else if ts.len() >= 2 && ts[0] is Text && ts[1] is Colon {
        exists|i: int, v: JsonModel, rest: Seq<(Seq<char>, JsonModel)>|
            #![trigger ts.subrange(2, i), member_cons(ts[0]->Text_0, v, rest)]
            2 < i < ts.len() && grammar_value(ts.subrange(2, i), v) && grammar_members_rest(
                ts.subrange(i, ts.len() as int),
                rest,
            ) && members == member_cons(ts[0]->Text_0, v, rest)
    } else {
        false
    }
}

/// Whether `ts`, the tokens of an object after one of its members,
/// derives exactly the remaining members `members`: either the object
/// closes (possibly after one trailing comma), or a comma and further
/// members follow.
pub open spec fn grammar_members_rest(
    ts: Seq<TokenModel>,
    members: Seq<(Seq<char>, JsonModel)>,
) -> bool
    decreases ts.len(), 4int,
{
    (ts == seq![TokenModel::CurlyBraceClosing] && members == Seq::<(Seq<char>, JsonModel)>::empty())
        || (ts.len() > 0 && ts[0] is Comma && grammar_members(
        ts.subrange(1, ts.len() as int),
        members,
    ))
}

/// A derivation is never empty, and its first token is one that can
/// start a value.
proof fn lemma_grammar_value_first(ts: Seq<TokenModel>, v: JsonModel)
    requires
        grammar_value(ts, v),
    ensures
        ts.len() > 0,
        ts[0] is CurlyBraceOpening || ts[0] is BracketOpening || ts[0] is Text
            || ts[0] is Number || ts[0] is True || ts[0] is False || ts[0] is Null,
{
    match v {
        JsonModel::Null => {
            assert(ts[0] == TokenModel::Null);
        },
        JsonModel::Boolean(b) => {
            if b {
                assert(ts[0] == TokenModel::True);
            } else {
                assert(ts[0] == TokenModel::False);
            }
        },
        JsonModel::Text(s) => {
            assert(ts[0] == TokenModel::Text(s));
        },
        JsonModel::Number(x) => {
            assert(ts[0] == TokenModel::Number(x));
        },
        JsonModel::Array(_) => {},
        JsonModel::Object(_) => {},
    }
}

/// The parser accepts a derivation of a value wherever it stands inside
/// a larger token sequence, returning the derived value and stopping
/// just after the derivation.
proof fn lemma_parse_value_complete(
    full: Seq<TokenModel>,
    pos: int,
    seg: Seq<TokenModel>,
    v: JsonModel,
)
    requires
        0 <= pos,
        pos + seg.len() <= full.len(),
        full.subrange(pos, pos + seg.len() as int) == seg,
        grammar_value(seg, v),
    ensures
        spec_parse_value(full, pos) == Ok::<(JsonModel, int), ParseError>((v, pos + seg.len())),
    decreases seg.len(), 0int,
{
    assert forall|j: int| 0 <= j < seg.len() implies seg[j] == full[pos + j] by {
        assert(full.subrange(pos, pos + seg.len() as int)[j] == full[pos + j]);
    }
    lemma_grammar_value_first(seg, v);
    match v {
        JsonModel::Null => {},
        JsonModel::Boolean(_) => {},
        JsonModel::Text(_) => {},
        JsonModel::Number(_) => {},
        JsonModel::Array(elements) => {
            let inner = seg.subrange(1, seg.len() as int);
            assert(full.subrange(pos + 1, pos + seg.len() as int) =~= inner);
            lemma_parse_elements_complete(full, pos + 1, inner, elements);
        },
        JsonModel::Object(members) => {
            let inner = seg.subrange(1, seg.len() as int);
            assert(full.subrange(pos + 1, pos + seg.len() as int) =~= inner);
            lemma_parse_members_complete(full, pos + 1, inner, members);
        },
    }
}

/// The parser accepts a derivation of array elements wherever it stands
/// inside a larger token sequence, returning the derived elements and
/// stopping just after the closing `]`.
proof fn lemma_parse_elements_complete(
    full: Seq<TokenModel>,
    pos: int,
    seg: Seq<TokenModel>,
    elements: Seq<JsonModel>,
)
    requires
        0 <= pos,
        pos + seg.len() <= full.len(),
        full.subrange(pos, pos + seg.len() as int) == seg,
        grammar_elements(seg, elements),
    ensures
        spec_parse_elements(full, pos) == Ok::<(Seq<JsonModel>, int), ParseError>(
            (elements, pos + seg.len()),
        ),
    decreases seg.len(), 1int,
{
    assert forall|j: int| 0 <= j < seg.len() implies seg[j] == full[pos + j] by {
        assert(full.subrange(pos, pos + seg.len() as int)[j] == full[pos + j]);
    }
    if elements.len() == 0 {
        assert(seg[0] == TokenModel::BracketClosing);
        assert(elements =~= Seq::<JsonModel>::empty());
    } else {
        let i = choose|i: int|
            0 < i < seg.len() && grammar_value(#[trigger] seg.subrange(0, i), elements[0])
                && grammar_elements_rest(
                seg.subrange(i, seg.len() as int),
                elements.subrange(1, elements.len() as int),
            );
        let seg0 = seg.subrange(0, i);
        let segr = seg.subrange(i, seg.len() as int);
        let rest_elems = elements.subrange(1, elements.len() as int);
        assert(full.subrange(pos, pos + i) =~= seg0);
        lemma_parse_value_complete(full, pos, seg0, elements[0]);
        lemma_grammar_value_first(seg0, elements[0]);
        assert(seg0[0] == seg[0]);
        let p = pos + i;
        assert(full[p] == seg[i]);
        assert(seg[i] == segr[0]);
        if rest_elems.len() == 0 {
            if segr == seq![TokenModel::BracketClosing] {
                assert(elements =~= seq![elements[0]]);
            } else {
                assert(segr == seq![TokenModel::Comma, TokenModel::BracketClosing]);
                assert(full[p + 1] == segr[1]);
                assert(elements =~= seq![elements[0]]);
                assert(seq![elements[0]] + Seq::<JsonModel>::empty() =~= seq![elements[0]]);
            }
        } else {
            let segr2 = segr.subrange(1, segr.len() as int);
            assert(full.subrange(p + 1, pos + seg.len() as int) =~= segr2);
            lemma_parse_elements_complete(full, p + 1, segr2, rest_elems);
            assert(seq![elements[0]] + rest_elems =~= elements);
        }
    }
}

/// The parser accepts a derivation of object members wherever it stands
/// inside a larger token sequence, returning the derived members and
/// stopping just after the closing `}`.
proof fn lemma_parse_members_complete(
    full: Seq<TokenModel>,
    pos: int,
    seg: Seq<TokenModel>,
    members: Seq<(Seq<char>, JsonModel)>,
)
    requires
        0 <= pos,
        pos + seg.len() <= full.len(),
        full.subrange(pos, pos + seg.len() as int) == seg,
        grammar_members(seg, members),
    ensures
        spec_parse_members(full, pos) == Ok::<(Seq<(Seq<char>, JsonModel)>, int), ParseError>(
            (members, pos + seg.len()),
        ),
    decreases seg.len(), 1int,
{
    assert forall|j: int| 0 <= j < seg.len() implies seg[j] == full[pos + j] by {
        assert(full.subrange(pos, pos + seg.len() as int)[j] == full[pos + j]);
    }
    if seg.len() > 0 && seg[0] is CurlyBraceClosing {
        assert(members =~= Seq::<(Seq<char>, JsonModel)>::empty());
    } else {
        assert(seg.len() >= 2);
        assert(seg[0] is Text);
        assert(seg[1] is Colon);
        let (i, v, rest) = choose|i: int, v: JsonModel, rest: Seq<(Seq<char>, JsonModel)>|
            #![trigger seg.subrange(2, i), member_cons(seg[0]->Text_0, v, rest)]
            2 < i < seg.len() && grammar_value(seg.subrange(2, i), v) && grammar_members_rest(
                seg.subrange(i, seg.len() as int),
                rest,
            ) && members == member_cons(seg[0]->Text_0, v, rest);
        let k = seg[0]->Text_0;
        let seg0 = seg.subrange(2, i);
        let segr = seg.subrange(i, seg.len() as int);
        assert(full.subrange(pos + 2, pos + i) =~= seg0);
        lemma_parse_value_complete(full, pos + 2, seg0, v);
        let p = pos + i;
        assert(full[p] == seg[i]);
        assert(seg[i] == segr[0]);
        if segr == seq![TokenModel::CurlyBraceClosing] {
            assert(!member_key_present(Seq::<(Seq<char>, JsonModel)>::empty(), k));
            assert(members =~= seq![(k, v)]);
        } else if segr[0] is Comma && grammar_members(
            segr.subrange(1, segr.len() as int),
            rest,
        ) {
            let segr2 = segr.subrange(1, segr.len() as int);
            assert(full.subrange(p + 1, pos + seg.len() as int) =~= segr2);
            lemma_parse_members_complete(full, p + 1, segr2, rest);
        }
    }
}

/// Completeness of the parser for the grammar: every token sequence that
/// the grammar derives for a value tree parses successfully, and the
/// parse result is exactly that tree, so its nesting and element counts
/// match the derivation's.
pub proof fn lemma_grammar_parse_complete(ts: Seq<TokenModel>, v: JsonModel)
    requires
        grammar_value(ts, v),
    ensures
        spec_parse(ts) == Ok::<JsonModel, ParseError>(v),
{
    assert(ts.subrange(0, ts.len() as int) =~= ts);
    lemma_parse_value_complete(ts, 0, ts, v);
}

/// A value the parser accepts is derived by the grammar from exactly the
/// tokens the parser consumed.
proof fn lemma_parse_value_sound(ts: Seq<TokenModel>, pos: int)
    requires
        spec_parse_value(ts, pos) is Ok,
    ensures
        pos < spec_parse_value(ts, pos)->Ok_0.1 <= ts.len(),
        grammar_value(
            ts.subrange(pos, spec_parse_value(ts, pos)->Ok_0.1),
            spec_parse_value(ts, pos)->Ok_0.0,
        ),
    decreases ts.len() - pos, 0int,
{
    let (v, p) = spec_parse_value(ts, pos)->Ok_0;
    let seg = ts.subrange(pos, p);
    match ts[pos] {
        TokenModel::CurlyBraceOpening => {
            lemma_parse_members_sound(ts, pos + 1);
            assert(seg.subrange(1, seg.len() as int) =~= ts.subrange(pos + 1, p));
        },
        TokenModel::BracketOpening => {
            lemma_parse_elements_sound(ts, pos + 1);
            assert(seg.subrange(1, seg.len() as int) =~= ts.subrange(pos + 1, p));
        },
        _ => {
            assert(seg =~= seq![ts[pos]]);
        },
    }
}

/// Elements the parser accepts are derived by the grammar from exactly
/// the tokens the parser consumed, closing bracket included.
proof fn lemma_parse_elements_sound(ts: Seq<TokenModel>, pos: int)
    requires
        spec_parse_elements(ts, pos) is Ok,
    ensures
        pos < spec_parse_elements(ts, pos)->Ok_0.1 <= ts.len(),
        grammar_elements(
            ts.subrange(pos, spec_parse_elements(ts, pos)->Ok_0.1),
            spec_parse_elements(ts, pos)->Ok_0.0,
        ),
    decreases ts.len() - pos, 1int,
{
    let (elements, p2) = spec_parse_elements(ts, pos)->Ok_0;
    let seg = ts.subrange(pos, p2);
    if ts[pos] is BracketClosing {
        assert(seg =~= seq![TokenModel::BracketClosing]);
    } else {
        let (v, p) = spec_parse_value(ts, pos)->Ok_0;
        lemma_parse_value_sound(ts, pos);
        let i = p - pos;
        if ts[p] is Comma {
            let rest = spec_parse_elements(ts, p + 1)->Ok_0.0;
            lemma_parse_elements_sound(ts, p + 1);
            assert(seg.subrange(0, i) =~= ts.subrange(pos, p));
            let segr = seg.subrange(i, seg.len() as int);
            assert(segr =~= ts.subrange(p, p2));
            assert(elements == seq![v] + rest);
            assert(elements[0] == v);
            assert(elements.subrange(1, elements.len() as int) =~= rest);
            if rest.len() == 0 {
                // an empty remainder comes only from an immediate `]`
                assert(ts[p + 1] is BracketClosing && p2 == p + 2);
                assert(segr =~= seq![TokenModel::Comma, TokenModel::BracketClosing]);
            } else {
                assert(segr.subrange(1, segr.len() as int) =~= ts.subrange(p + 1, p2));
            }
            assert(grammar_elements_rest(segr, rest));
            assert(0 < i < seg.len() && grammar_value(seg.subrange(0, i), elements[0])
                && grammar_elements_rest(
                seg.subrange(i, seg.len() as int),
                elements.subrange(1, elements.len() as int),
            ));
        } else {
            assert(ts[p] is BracketClosing);
            assert(seg.subrange(0, i) =~= ts.subrange(pos, p));
            let segr = seg.subrange(i, seg.len() as int);
            assert(segr =~= seq![TokenModel::BracketClosing]);
            assert(elements == seq![v]);
            assert(elements[0] == v);
            assert(elements.subrange(1, elements.len() as int) =~= Seq::<JsonModel>::empty());
            assert(grammar_elements_rest(segr, Seq::<JsonModel>::empty()));
            assert(0 < i < seg.len() && grammar_value(seg.subrange(0, i), elements[0])
                && grammar_elements_rest(
                seg.subrange(i, seg.len() as int),
                elements.subrange(1, elements.len() as int),
            ));
        }
    }
}

/// Members the parser accepts are derived by the grammar from exactly
/// the tokens the parser consumed, closing brace included.
proof fn lemma_parse_members_sound(ts: Seq<TokenModel>, pos: int)
    requires
        spec_parse_members(ts, pos) is Ok,
    ensures
        pos < spec_parse_members(ts, pos)->Ok_0.1 <= ts.len(),
        grammar_members(
            ts.subrange(pos, spec_parse_members(ts, pos)->Ok_0.1),
            spec_parse_members(ts, pos)->Ok_0.0,
        ),
    decreases ts.len() - pos, 1int,
{
    let (members, p2) = spec_parse_members(ts, pos)->Ok_0;
    let seg = ts.subrange(pos, p2);
    if ts[pos] is CurlyBraceClosing {
        assert(seg =~= seq![TokenModel::CurlyBraceClosing]);
    } else {
        let k = ts[pos]->Text_0;
        let (v, p) = spec_parse_value(ts, pos + 2)->Ok_0;
        lemma_parse_value_sound(ts, pos + 2);
        let i = p - pos;
        if ts[p] is Comma {
            let rest = spec_parse_members(ts, p + 1)->Ok_0.0;
            lemma_parse_members_sound(ts, p + 1);
            assert(seg[0] == ts[pos]);
            assert(seg[1] == ts[pos + 1]);
            assert(seg.subrange(2, i) =~= ts.subrange(pos + 2, p));
            let segr = seg.subrange(i, seg.len() as int);
            assert(segr =~= ts.subrange(p, p2));
            assert(segr.subrange(1, segr.len() as int) =~= ts.subrange(p + 1, p2));
            assert(grammar_members_rest(segr, rest));
            assert(members == member_cons(k, v, rest));
            assert(member_cons(seg[0]->Text_0, v, rest) == members);
            assert(2 < i < seg.len() && grammar_value(seg.subrange(2, i), v)
                && grammar_members_rest(seg.subrange(i, seg.len() as int), rest) && members
                == member_cons(seg[0]->Text_0, v, rest));
        } else {
            assert(ts[p] is CurlyBraceClosing);
            assert(seg[0] == ts[pos]);
            assert(seg[1] == ts[pos + 1]);
            assert(seg.subrange(2, i) =~= ts.subrange(pos + 2, p));
            let segr = seg.subrange(i, seg.len() as int);
            assert(segr =~= seq![TokenModel::CurlyBraceClosing]);
            assert(grammar_members_rest(segr, Seq::<(Seq<char>, JsonModel)>::empty()));
            assert(members == seq![(k, v)]);
            assert(!member_key_present(Seq::<(Seq<char>, JsonModel)>::empty(), k));
            assert(member_cons(seg[0]->Text_0, v, Seq::<(Seq<char>, JsonModel)>::empty()) =~= seq![
                (k, v),
            ]);
            assert(2 < i < seg.len() && grammar_value(seg.subrange(2, i), v)
                && grammar_members_rest(
                seg.subrange(i, seg.len() as int),
                Seq::<(Seq<char>, JsonModel)>::empty(),
            ) && members == member_cons(
                seg[0]->Text_0,
                v,
                Seq::<(Seq<char>, JsonModel)>::empty(),
            ));
        }
    }
}

/// Soundness of the parser for the grammar: every value the parser
/// returns for a whole token sequence is one the grammar derives from it.
pub proof fn lemma_parse_grammar_sound(ts: Seq<TokenModel>, v: JsonModel)
    requires
        spec_parse(ts) == Ok::<JsonModel, ParseError>(v),
    ensures
        grammar_value(ts, v),
{
    lemma_parse_value_sound(ts, 0);
    assert(ts.subrange(0, ts.len() as int) =~= ts);
}

/// The grammar characterizes the parser exactly: a whole token sequence
/// parses to a value precisely when the grammar derives that value from
/// it.
pub proof fn lemma_grammar_characterizes_parse(ts: Seq<TokenModel>, v: JsonModel)
    ensures
        grammar_value(ts, v) <==> spec_parse(ts) == Ok::<JsonModel, ParseError>(v),
{
    if grammar_value(ts, v) {
        lemma_grammar_parse_complete(ts, v);
    }
    if spec_parse(ts) == Ok::<JsonModel, ParseError>(v) {
        lemma_parse_grammar_sound(ts, v);
    }
}

} // verus!
