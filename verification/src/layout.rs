//! Whitespace insignificance: writing a token sequence back as text, with
//! any amount of insignificant whitespace between the tokens, tokenizes
//! to exactly that sequence. Two inputs that differ only in such
//! whitespace therefore produce identical token sequences.

use vstd::prelude::*;

use crate::tokenizer::digit_run_len;
use crate::tokenizer::exponent_from;
use crate::tokenizer::is_digit_char;
use crate::tokenizer::is_json_number;
use crate::tokenizer::is_number_char;
use crate::tokenizer::is_ws_char;
use crate::tokenizer::number_run_len;
use crate::tokenizer::spec_tokenize;
use crate::tokenizer::spec_tokenize_from;
use crate::tokenizer::string_body_len;
use crate::tokenizer::with_token;
use crate::tokenizer::TokenModel;

verus! {

/// The text of one token: the characters the tokenizer reads it from.
pub open spec fn token_text(t: TokenModel) -> Seq<char> {
    match t {
        TokenModel::CurlyBraceOpening => seq!['{'],
        TokenModel::CurlyBraceClosing => seq!['}'],
        TokenModel::BracketOpening => seq!['['],
        TokenModel::BracketClosing => seq![']'],
        TokenModel::Colon => seq![':'],
        TokenModel::Comma => seq![','],
        TokenModel::Text(s) => seq!['"'] + s + seq!['"'],
        TokenModel::Number(x) => x,
        TokenModel::Null => seq!['n', 'u', 'l', 'l'],
        TokenModel::True => seq!['t', 'r', 'u', 'e'],
        TokenModel::False => seq!['f', 'a', 'l', 's', 'e'],
    }
}

/// Whether a token can be written back as text that the tokenizer reads
/// as that same token: a string body must not contain a quote, and a
/// number lexeme must satisfy the number grammar.
pub open spec fn token_renderable(t: TokenModel) -> bool {
    match t {
        TokenModel::Text(s) => forall|j: int| 0 <= j < s.len() ==> s[j] != '"',
        TokenModel::Number(x) => is_json_number(x),
        _ => true,
    }
}

/// Whether every character of `p` is insignificant whitespace.
pub open spec fn all_ws(p: Seq<char>) -> bool {
    forall|j: int| 0 <= j < p.len() ==> is_ws_char(p[j])
}

/// The text of a token sequence under one whitespace layout: `pads[0]`
/// before the first token, `pads[k]` after the `k`-th token.
pub open spec fn layout(ts: Seq<TokenModel>, pads: Seq<Seq<char>>) -> Seq<char>
    decreases ts.len(),
{
    if ts.len() == 0 {
        pads[0]
    } else {
        pads[0] + token_text(ts[0]) + layout(ts.drop_first(), pads.drop_first())
    }
}

/// A well-formed layout: one padding around each token, paddings all
/// whitespace, every token renderable, and two adjacent number tokens
/// separated by at least one whitespace character (with nothing between
/// them their lexemes would fuse into one).
pub open spec fn layout_ok(ts: Seq<TokenModel>, pads: Seq<Seq<char>>) -> bool {
    &&& pads.len() == ts.len() + 1
    &&& forall|j: int| 0 <= j < pads.len() ==> all_ws(#[trigger] pads[j])
    &&& forall|j: int| 0 <= j < ts.len() ==> token_renderable(#[trigger] ts[j])
    &&& forall|j: int|
        #![trigger pads[j]]
        0 < j < ts.len() && ts[j - 1] is Number && ts[j] is Number ==> pads[j].len() > 0
}

/// Tokenization is unchanged by skipping a run of whitespace.
proof fn lemma_skip_ws(s: Seq<char>, pos: int, m: int)
    requires
        0 <= pos,
        0 <= m,
        pos + m <= s.len(),
        forall|j: int| pos <= j < pos + m ==> is_ws_char(#[trigger] s[j]),
    ensures
        spec_tokenize_from(s, pos) == spec_tokenize_from(s, pos + m),
    decreases m,
{
    if m > 0 {
        lemma_skip_ws(s, pos + 1, m - 1);
    }
}

/// A maximal digit run stays inside the input and holds digits only.
proof fn lemma_digit_run_chars(x: Seq<char>, i: int)
    requires
        0 <= i <= x.len(),
    ensures
        i + digit_run_len(x, i) <= x.len(),
        forall|j: int| i <= j < i + digit_run_len(x, i) ==> is_digit_char(#[trigger] x[j]),
    decreases x.len() - i,
{
    if i < x.len() && is_digit_char(x[i]) {
        lemma_digit_run_chars(x, i + 1);
    }
}

/// Every character of a JSON number lexeme is a number character, the
/// lexeme is not empty, and it starts with a minus sign or a digit.
proof fn lemma_json_number_chars(x: Seq<char>)
    requires
        is_json_number(x),
    ensures
        x.len() > 0,
        x[0] == '-' || is_digit_char(x[0]),
        forall|j: int| 0 <= j < x.len() ==> is_number_char(#[trigger] x[j]),
{
    let i = if x.len() > 0 && x[0] == '-' {
        1int
    } else {
        0int
    };
    let j = if x[i] == '0' {
        i + 1
    } else {
        i + digit_run_len(x, i)
    };
    lemma_digit_run_chars(x, i);
    assert(digit_run_len(x, i) > 0);
    assert(j <= x.len());
    assert forall|m: int| 0 <= m < j implies is_number_char(#[trigger] x[m]) by {
        if m >= i {
            if x[i] == '0' {
                assert(m == i);
            } else {
                assert(is_digit_char(x[m]));
            }
        }
    }
    let je = if 0 <= j < x.len() && x[j] == '.' {
        j + 1 + digit_run_len(x, j + 1)
    } else {
        j
    };
    if j < x.len() && x[j] == '.' {
        lemma_digit_run_chars(x, j + 1);
    }
    assert forall|m: int| j <= m < je implies is_number_char(#[trigger] x[m]) by {}
    assert(exponent_from(x, je));
    if je < x.len() {
        let d = if je + 1 < x.len() && (x[je + 1] == '+' || x[je + 1] == '-') {
            je + 2
        } else {
            je + 1
        };
        lemma_digit_run_chars(x, if d <= x.len() {
            d
        } else {
            x.len() as int
        });
        assert forall|m: int| je <= m < x.len() implies is_number_char(#[trigger] x[m]) by {
            if m >= d {
                assert(is_digit_char(x[m]));
            }
        }
    }
}

/// A quote-free span followed by a quote is exactly the string body the
/// tokenizer measures.
proof fn lemma_string_body_at(s: Seq<char>, pos: int, m: int)
    requires
        0 <= pos,
        0 <= m,
        pos + m < s.len(),
        forall|j: int| pos <= j < pos + m ==> #[trigger] s[j] != '"',
        s[pos + m] == '"',
    ensures
        string_body_len(s, pos) == Some(m as nat),
    decreases m,
{
    if m > 0 {
        lemma_string_body_at(s, pos + 1, m - 1);
    }
}

/// A span of number characters bounded by a non-number character (or the
/// input's end) is exactly the run the tokenizer measures.
proof fn lemma_number_run_at(s: Seq<char>, pos: int, n: int)
    requires
        0 <= pos,
        0 <= n,
        pos + n <= s.len(),
        forall|j: int| pos <= j < pos + n ==> is_number_char(#[trigger] s[j]),
        pos + n == s.len() || !is_number_char(s[pos + n]),
    ensures
        number_run_len(s, pos) == n,
    decreases n,
{
    if n > 0 {
        lemma_number_run_at(s, pos + 1, n - 1);
    }
}

/// A token's text is never empty, and unless the token is a number its
/// first character is not a number character.
proof fn lemma_token_text_first(t: TokenModel)
    requires
        token_renderable(t),
    ensures
        token_text(t).len() > 0,
        !(t is Number) ==> !is_number_char(token_text(t)[0]),
{
    match t {
        TokenModel::Text(s) => {
            assert(token_text(t)[0] == '"');
        },
        TokenModel::Number(x) => {
            lemma_json_number_chars(x);
        },
        _ => {},
    }
}

/// Scanning at the start of one token's text reads exactly that token
/// and continues just after it. A number lexeme must not be followed
/// directly by another number character, or the scan would take it too.
proof fn lemma_token_step(s: Seq<char>, pos: int, t: TokenModel)
    requires
        0 <= pos,
        token_renderable(t),
        pos + token_text(t).len() <= s.len(),
        s.subrange(pos, pos + token_text(t).len() as int) == token_text(t),
        t is Number ==> pos + token_text(t).len() == s.len() || !is_number_char(
            s[pos + token_text(t).len()],
        ),
    ensures
        spec_tokenize_from(s, pos) == with_token(t, spec_tokenize_from(s, pos + token_text(t).len())),
{
    let text = token_text(t);
    assert forall|j: int| pos <= j < pos + text.len() implies #[trigger] s[j] == text[j - pos] by {
        assert(s.subrange(pos, pos + text.len() as int)[j - pos] == s[j]);
    }
    lemma_token_text_first(t);
    match t {
        TokenModel::CurlyBraceOpening => {},
        TokenModel::CurlyBraceClosing => {},
        TokenModel::BracketOpening => {},
        TokenModel::BracketClosing => {},
        TokenModel::Colon => {},
        TokenModel::Comma => {},
        TokenModel::Null => {},
        TokenModel::True => {},
        TokenModel::False => {},
        TokenModel::Text(body) => {
            assert(s[pos] == '"');
            assert forall|j: int| pos + 1 <= j < pos + 1 + body.len() implies #[trigger] s[j]
                != '"' by {
                assert(text[j - pos] == body[j - pos - 1]);
            }
            assert(text[1 + body.len() as int] == '"');
            assert(s[pos + 1 + body.len()] == '"');
            lemma_string_body_at(s, pos + 1, body.len() as int);
            assert(s.subrange(pos + 1, pos + 1 + body.len() as int) =~= body) by {
                assert forall|j: int| 0 <= j < body.len() implies s.subrange(
                    pos + 1,
                    pos + 1 + body.len() as int,
                )[j] == body[j] by {
                    assert(s[pos + 1 + j] == text[1 + j]);
                    assert(text[1 + j] == body[j]);
                }
            }
        },
        TokenModel::Number(x) => {
            lemma_json_number_chars(x);
            assert(s[pos] == x[0]);
            assert forall|j: int| pos <= j < pos + x.len() implies is_number_char(
                #[trigger] s[j],
            ) by {
                assert(s[j] == text[j - pos]);
            }
            lemma_number_run_at(s, pos, x.len() as int);
            assert(number_run_len(s, pos) == 1 + number_run_len(s, pos + 1));
            assert(s.subrange(pos, pos + x.len() as int) =~= x) by {
                assert forall|j: int| 0 <= j < x.len() implies s.subrange(
                    pos,
                    pos + x.len() as int,
                )[j] == x[j] by {
                    assert(s[pos + j] == text[j]);
                }
            }
        },
    }
}

/// The tokens of a suffix of the input that is a well-formed layout are
/// exactly the layout's tokens.
proof fn lemma_layout_tokenizes_from(
    s: Seq<char>,
    pos: int,
    ts: Seq<TokenModel>,
    pads: Seq<Seq<char>>,
)
    requires
        layout_ok(ts, pads),
        0 <= pos <= s.len(),
        s.subrange(pos, s.len() as int) == layout(ts, pads),
    ensures
        spec_tokenize_from(s, pos) == Ok::<Seq<TokenModel>, crate::tokenizer::TokenizeError>(ts),
    decreases ts.len(),
{
    let rem = layout(ts, pads);
    assert forall|j: int| pos <= j < s.len() implies #[trigger] s[j] == rem[j - pos] by {
        assert(s.subrange(pos, s.len() as int)[j - pos] == s[j]);
    }
    assert(rem.len() == s.len() - pos);
    if ts.len() == 0 {
        assert forall|j: int| pos <= j < s.len() implies is_ws_char(#[trigger] s[j]) by {
            assert(all_ws(pads[0]));
        }
        lemma_skip_ws(s, pos, s.len() - pos);
        assert(ts =~= Seq::<TokenModel>::empty());
    } else {
        let ts2 = ts.drop_first();
        let pads2 = pads.drop_first();
        let rest = layout(ts2, pads2);
        let text = token_text(ts[0]);
        assert(all_ws(pads[0]));
        assert(token_renderable(ts[0]));
        lemma_token_text_first(ts[0]);
        let p1 = pos + pads[0].len();
        let p2 = p1 + text.len();
        assert(rem == pads[0] + text + rest);
        assert forall|j: int| pos <= j < p1 implies is_ws_char(#[trigger] s[j]) by {
            assert(rem[j - pos] == pads[0][j - pos]);
        }
        lemma_skip_ws(s, pos, pads[0].len() as int);
        assert(s.subrange(p1, p2) =~= text) by {
            assert forall|j: int| 0 <= j < text.len() implies s.subrange(p1, p2)[j] == text[
                j
            ] by {
                assert(s[p1 + j] == rem[p1 + j - pos]);
                assert(rem[pads[0].len() + j] == text[j]);
            }
        }
        // a number lexeme never runs into the next token
        if ts[0] is Number && p2 < s.len() {
            assert(rem[p2 - pos] == rest[0]);
            assert(rest.len() > 0);
            if ts2.len() == 0 {
                assert(rest == pads2[0]);
                assert(pads2[0] == pads[1]);
                assert(all_ws(pads[1]));
                assert(is_ws_char(rest[0]));
            } else {
                assert(rest == pads2[0] + token_text(ts2[0]) + layout(
                    ts2.drop_first(),
                    pads2.drop_first(),
                ));
                assert(pads2[0] == pads[1]);
                assert(token_renderable(ts2[0])) by {
                    assert(ts2[0] == ts[1]);
                }
                lemma_token_text_first(ts2[0]);
                if pads[1].len() > 0 {
                    assert(rest[0] == pads[1][0]);
                    assert(all_ws(pads[1]));
                    assert(is_ws_char(rest[0]));
                } else {
                    assert(rest[0] == token_text(ts2[0])[0]);
                    assert(!(ts2[0] is Number)) by {
                        assert(ts2[0] == ts[1]);
                        assert(ts[0] is Number && ts[1] is Number ==> pads[1].len() > 0);
                    }
                    assert(!is_number_char(rest[0]));
                }
            }
            assert(!is_number_char(s[p2]));
        }
        lemma_token_step(s, p1, ts[0]);
        assert(layout_ok(ts2, pads2)) by {
            assert forall|j: int| 0 <= j < pads2.len() implies all_ws(#[trigger] pads2[j]) by {
                assert(pads2[j] == pads[j + 1]);
            }
            assert forall|j: int| 0 <= j < ts2.len() implies token_renderable(
                #[trigger] ts2[j],
            ) by {
                assert(ts2[j] == ts[j + 1]);
            }
            assert forall|j: int|
                0 < j < ts2.len() && ts2[j - 1] is Number && ts2[j] is Number implies #[trigger] pads2[j].len()
                > 0 by {
                assert(ts2[j - 1] == ts[j]);
                assert(ts2[j] == ts[j + 1]);
                assert(pads2[j] == pads[j + 1]);
            }
        }
        assert(s.subrange(p2, s.len() as int) =~= rest) by {
            assert forall|j: int| 0 <= j < rest.len() implies s.subrange(p2, s.len() as int)[j]
                == rest[j] by {
                assert(s[p2 + j] == rem[p2 + j - pos]);
                assert(rem[pads[0].len() + text.len() + j] == rest[j]);
            }
        }
        lemma_layout_tokenizes_from(s, p2, ts2, pads2);
        assert(seq![ts[0]] + ts2 =~= ts);
    }
}

/// Writing a token sequence back as text, under any well-formed
/// whitespace layout, tokenizes to exactly that sequence.
pub proof fn lemma_layout_tokenizes(ts: Seq<TokenModel>, pads: Seq<Seq<char>>)
    requires
        layout_ok(ts, pads),
    ensures
        spec_tokenize(layout(ts, pads)) == Ok::<Seq<TokenModel>, crate::tokenizer::TokenizeError>(
            ts,
        ),
{
    let s = layout(ts, pads);
    assert(s.subrange(0, s.len() as int) =~= s);
    lemma_layout_tokenizes_from(s, 0, ts, pads);
}

/// Inputs that differ only in the insignificant whitespace between their
/// tokens produce identical token sequences.
pub proof fn lemma_whitespace_variation_irrelevant(
    ts: Seq<TokenModel>,
    pads1: Seq<Seq<char>>,
    pads2: Seq<Seq<char>>,
)
    requires
        layout_ok(ts, pads1),
        layout_ok(ts, pads2),
    ensures
        spec_tokenize(layout(ts, pads1)) == spec_tokenize(layout(ts, pads2)),
{
    lemma_layout_tokenizes(ts, pads1);
    lemma_layout_tokenizes(ts, pads2);
}

} // verus!
