//! Lexical analysis: a single left-to-right scan that turns raw character
//! input into a sequence of tokens.
//!
//! The whole behaviour of [`tokenize`] is pinned down by the specification
//! function [`spec_tokenize`]: the executable scanner returns exactly the
//! token sequence (or exactly the error) that the specification assigns to
//! the input's character sequence.

use vstd::prelude::*;

verus! {

/// One lexical unit: structural punctuation or a value-bearing token.
///
/// A number token carries its lexeme, the exact numeric text of the input,
/// which [`tokenize`] guarantees to satisfy the JSON number grammar
/// ([`is_json_number`]); converting that text to a machine number is left
/// to the caller.
#[derive(Debug, PartialEq, Eq)]
pub enum TokenType {
    CurlyBraceOpening,
    CurlyBraceClosing,
    BracketOpening,
    BracketClosing,
    String(String),
    Null,
    Number(String),
    Colon,
    Comma,
    True,
    False,
}

/// The mathematical model of a token: string-bearing variants carry the
/// character sequence itself.
pub enum TokenModel {
    CurlyBraceOpening,
    CurlyBraceClosing,
    BracketOpening,
    BracketClosing,
    Text(Seq<char>),
    Null,
    Number(Seq<char>),
    Colon,
    Comma,
    True,
    False,
}

impl View for TokenType {
    type V = TokenModel;

    open spec fn view(&self) -> TokenModel {
        match self {
            TokenType::CurlyBraceOpening => TokenModel::CurlyBraceOpening,
            TokenType::CurlyBraceClosing => TokenModel::CurlyBraceClosing,
            TokenType::BracketOpening => TokenModel::BracketOpening,
            TokenType::BracketClosing => TokenModel::BracketClosing,
            TokenType::String(s) => TokenModel::Text(s@),
            TokenType::Null => TokenModel::Null,
            TokenType::Number(s) => TokenModel::Number(s@),
            TokenType::Colon => TokenModel::Colon,
            TokenType::Comma => TokenModel::Comma,
            TokenType::True => TokenModel::True,
            TokenType::False => TokenModel::False,
        }
    }
}

impl DeepView for TokenType {
    type V = TokenModel;

    open spec fn deep_view(&self) -> TokenModel {
        self.view()
    }
}

/// The keyword a literal token was expected to spell.
#[derive(Debug, Clone, Copy, PartialEq, Eq, Structural)]
pub enum Keyword {
    Null,
    True,
    False,
}

/// A lexical error, detected at the first offending character.
#[derive(Debug, Clone, Copy, PartialEq, Eq, Structural)]
pub enum TokenizeError {
    /// A character that cannot start any token, with its position.
    UnexpectedCharacter(char, usize),
    /// A string literal with no closing quote before the input ends.
    UnterminatedString,
    /// Numeric text that does not satisfy the JSON number grammar.
    InvalidNumber,
    /// A keyword (`null`, `true`, `false`) whose spelling does not match.
    InvalidLiteral(Keyword),
}

/// JSON insignificant whitespace: space, tab, line feed, carriage return.
pub open spec fn is_ws_char(c: char) -> bool {
    c == ' ' || c == '\t' || c == '\n' || c == '\r'
}

/// A decimal digit.
pub open spec fn is_digit_char(c: char) -> bool {
    '0' <= c && c <= '9'
}

/// A character that may occur in a numeric lexeme; a maximal run of these
/// starting with a digit or `-` is scanned and then validated.
pub open spec fn is_number_char(c: char) -> bool {
    is_digit_char(c) || c == '.' || c == '-' || c == '+' || c == 'e' || c == 'E'
}

/// The number of characters of the string-literal body that starts at
/// `pos`: the distance to the next `"` at or after `pos`, or `None` when
/// the input ends first.
pub open spec fn string_body_len(s: Seq<char>, pos: int) -> Option<nat>
    decreases s.len() - pos,
{
    if pos < 0 || pos >= s.len() {
        None
    } else if s[pos] == '"' {
        Some(0)
    } else {
        match string_body_len(s, pos + 1) {
            None => None,
            Some(k) => Some((k + 1) as nat),
        }
    }
}

/// The length of the maximal run of decimal digits starting at `i`.
pub open spec fn digit_run_len(s: Seq<char>, i: int) -> nat
    decreases s.len() - i,
{
    if 0 <= i < s.len() && is_digit_char(s[i]) {
        (digit_run_len(s, i + 1) + 1) as nat
    } else {
        0
    }
}

/// The length of the maximal run of number characters starting at `i`.
pub open spec fn number_run_len(s: Seq<char>, i: int) -> nat
    decreases s.len() - i,
{
    if 0 <= i < s.len() && is_number_char(s[i]) {
        (number_run_len(s, i + 1) + 1) as nat
    } else {
        0
    }
}

/// Whether `x[j..]` is a well-formed exponent part (`e`/`E`, an optional
/// sign, one or more digits, reaching the end of `x`) or `j` is the end.
pub open spec fn exponent_from(x: Seq<char>, j: int) -> bool {
    if j == x.len() {
        true
    } else if 0 <= j < x.len() && (x[j] == 'e' || x[j] == 'E') {
        let d = if j + 1 < x.len() && (x[j + 1] == '+' || x[j + 1] == '-') {
            j + 2
        } else {
            j + 1
        };
        digit_run_len(x, d) > 0 && d + digit_run_len(x, d) == x.len()
    } else {
        false
    }
}

/// Whether `x[j..]` is a well-formed optional fraction part (`.` and one
/// or more digits) followed by a well-formed optional exponent part.
pub open spec fn fraction_exponent_from(x: Seq<char>, j: int) -> bool {
    if 0 <= j < x.len() && x[j] == '.' {
        digit_run_len(x, j + 1) > 0 && exponent_from(x, j + 1 + digit_run_len(x, j + 1))
    } else {
        exponent_from(x, j)
    }
}

/// The JSON number grammar: an optional minus sign, an integer part with
/// no leading zero, an optional fraction, an optional exponent.
pub open spec fn is_json_number(x: Seq<char>) -> bool {
    let i = if x.len() > 0 && x[0] == '-' {
        1int
    } else {
        0int
    };
    &&& i < x.len()
    &&& is_digit_char(x[i])
    &&& fraction_exponent_from(
        x,
        if x[i] == '0' {
            i + 1
        } else {
            i + digit_run_len(x, i)
        },
    )
}

/// Prepends one token to a tokenization outcome, keeping an error as it is.
pub open spec fn with_token(
    t: TokenModel,
    rest: Result<Seq<TokenModel>, TokenizeError>,
) -> Result<Seq<TokenModel>, TokenizeError> {
    match rest {
        Ok(ts) => Ok(seq![t] + ts),
        Err(e) => Err(e),
    }
}

/// The token sequence of `s[pos..]`, or the first lexical error.
///
/// One left-to-right scan: whitespace is skipped; punctuation maps to its
/// token; `"` opens a string literal read to the next `"`; a digit or `-`
/// opens a maximal numeric run validated against [`is_json_number`];
/// `n`, `t`, `f` must spell their keyword exactly; anything else is an
/// unexpected character.
pub open spec fn spec_tokenize_from(s: Seq<char>, pos: int) -> Result<
    Seq<TokenModel>,
    TokenizeError,
>
    decreases s.len() - pos,
        via spec_tokenize_from_decreases
{
    if pos < 0 || pos >= s.len() {
        Ok(Seq::empty())
    } else {
        let c = s[pos];
        if is_ws_char(c) {
            spec_tokenize_from(s, pos + 1)
        } else if c == '{' {
            with_token(TokenModel::CurlyBraceOpening, spec_tokenize_from(s, pos + 1))
        } else if c == '}' {
            with_token(TokenModel::CurlyBraceClosing, spec_tokenize_from(s, pos + 1))
        } else if c == '[' {
            with_token(TokenModel::BracketOpening, spec_tokenize_from(s, pos + 1))
        } else if c == ']' {
            with_token(TokenModel::BracketClosing, spec_tokenize_from(s, pos + 1))
        } else if c == ':' {
            with_token(TokenModel::Colon, spec_tokenize_from(s, pos + 1))
        } else if c == ',' {
            with_token(TokenModel::Comma, spec_tokenize_from(s, pos + 1))
        } else if c == '"' {
            match string_body_len(s, pos + 1) {
                None => Err(TokenizeError::UnterminatedString),
                Some(k) => with_token(
                    TokenModel::Text(s.subrange(pos + 1, pos + 1 + k)),
                    spec_tokenize_from(s, pos + 2 + k),
                ),
            }
        } else if c == '-' || is_digit_char(c) {
            let k = 1 + number_run_len(s, pos + 1);
            if is_json_number(s.subrange(pos, pos + k)) {
                with_token(
                    TokenModel::Number(s.subrange(pos, pos + k)),
                    spec_tokenize_from(s, pos + k),
                )
            } else {
                Err(TokenizeError::InvalidNumber)
            }
        } else if c == 'n' {
            if pos + 4 <= s.len() && s[pos + 1] == 'u' && s[pos + 2] == 'l' && s[pos + 3] == 'l' {
                with_token(TokenModel::Null, spec_tokenize_from(s, pos + 4))
            } else {
                Err(TokenizeError::InvalidLiteral(Keyword::Null))
            }
        } else if c == 't' {
            if pos + 4 <= s.len() && s[pos + 1] == 'r' && s[pos + 2] == 'u' && s[pos + 3] == 'e' {
                with_token(TokenModel::True, spec_tokenize_from(s, pos + 4))
            } else {
                Err(TokenizeError::InvalidLiteral(Keyword::True))
            }
        } else if c == 'f' {
            if pos + 5 <= s.len() && s[pos + 1] == 'a' && s[pos + 2] == 'l' && s[pos + 3] == 's'
                && s[pos + 4] == 'e' {
                with_token(TokenModel::False, spec_tokenize_from(s, pos + 5))
            } else {
                Err(TokenizeError::InvalidLiteral(Keyword::False))
            }
        } else {
            Err(TokenizeError::UnexpectedCharacter(c, pos as usize))
        }
    }
}

#[via_fn]
proof fn spec_tokenize_from_decreases(s: Seq<char>, pos: int) {
    if 0 <= pos < s.len() {
        if s[pos] == '"' {
            if string_body_len(s, pos + 1) is Some {
                lemma_string_body_len_in_bounds(s, pos + 1);
            }
        }
        lemma_number_run_len_in_bounds(s, pos + 1);
    }
}

/// A terminated string body ends at a quote inside the input.
proof fn lemma_string_body_len_in_bounds(s: Seq<char>, pos: int)
    requires
        string_body_len(s, pos) is Some,
    ensures
        0 <= pos,
        pos + string_body_len(s, pos)->Some_0 < s.len(),
        s[pos + string_body_len(s, pos)->Some_0] == '"',
    decreases s.len() - pos,
{
    if !(pos < 0 || pos >= s.len()) && s[pos] != '"' {
        lemma_string_body_len_in_bounds(s, pos + 1);
    }
}

/// A run of number characters stays inside the input.
proof fn lemma_number_run_len_in_bounds(s: Seq<char>, i: int)
    ensures
        0 <= i <= s.len() ==> i + number_run_len(s, i) <= s.len(),
    decreases s.len() - i,
{
    if 0 <= i < s.len() && is_number_char(s[i]) {
        lemma_number_run_len_in_bounds(s, i + 1);
    }
}

/// The token sequence of the whole input, or the first lexical error.
pub open spec fn spec_tokenize(s: Seq<char>) -> Result<Seq<TokenModel>, TokenizeError> {
    spec_tokenize_from(s, 0)
}

/// Prepends an already-scanned token prefix to a tokenization outcome.
pub open spec fn prefixed(
    pre: Seq<TokenModel>,
    rest: Result<Seq<TokenModel>, TokenizeError>,
) -> Result<Seq<TokenModel>, TokenizeError> {
    match rest {
        Ok(ts) => Ok(pre + ts),
        Err(e) => Err(e),
    }
}

/// An empty prefix changes nothing.
proof fn lemma_prefixed_empty(rest: Result<Seq<TokenModel>, TokenizeError>)
    ensures
        prefixed(Seq::empty(), rest) == rest,
{
    match rest {
        Ok(ts) => {
            assert(Seq::<TokenModel>::empty() + ts =~= ts);
        },
        Err(_) => {},
    }
}

/// Moving one token from the outcome to the prefix keeps the whole.
proof fn lemma_prefixed_push(
    pre: Seq<TokenModel>,
    t: TokenModel,
    rest: Result<Seq<TokenModel>, TokenizeError>,
)
    ensures
        prefixed(pre, with_token(t, rest)) == prefixed(pre.push(t), rest),
{
    match rest {
        Ok(ts) => {
            assert(pre + (seq![t] + ts) =~= pre.push(t) + ts);
        },
        Err(_) => {},
    }
}

/// Appends one token, extending the vector's model by the token's model.
fn push_token(tokens: &mut Vec<TokenType>, t: TokenType)
    ensures
        final(tokens).deep_view() == old(tokens).deep_view().push(t@),
{
    let ghost pre = tokens.deep_view();
    let ghost tv = t@;
    tokens.push(t);
    proof {
        assert(tokens.deep_view() =~= pre.push(tv));
    }
}

/// The position just after the maximal run of decimal digits at `from`.
fn digit_run_end(s: &str, from: usize) -> (j: usize)
    requires
        from <= s@.len(),
    ensures
        from <= j <= s@.len(),
        j == from + digit_run_len(s@, from as int),
{
    let n: usize = s.unicode_len();
    let mut j: usize = from;
    loop
        invariant
            from <= j <= n,
            n == s@.len(),
            digit_run_len(s@, from as int) == j - from + digit_run_len(s@, j as int),
        ensures
            from <= j <= n,
            digit_run_len(s@, j as int) == 0,
            digit_run_len(s@, from as int) == j - from,
        decreases n - j,
    {
        if j >= n {
            break;
        }
        let c = s.get_char(j);
        if !(c >= '0' && c <= '9') {
            break;
        }
        j = j + 1;
    }
    j
}

/// The position just after the maximal run of number characters at `from`.
fn number_run_end(s: &str, from: usize) -> (j: usize)
    requires
        from <= s@.len(),
    ensures
        from <= j <= s@.len(),
        j == from + number_run_len(s@, from as int),
{
    let n: usize = s.unicode_len();
    let mut j: usize = from;
    loop
        invariant
            from <= j <= n,
            n == s@.len(),
            number_run_len(s@, from as int) == j - from + number_run_len(s@, j as int),
        ensures
            from <= j <= n,
            number_run_len(s@, from as int) == j - from,
        decreases n - j,
    {
        if j >= n {
            break;
        }
        let c = s.get_char(j);
        if !(c >= '0' && c <= '9' || c == '.' || c == '-' || c == '+' || c == 'e' || c == 'E') {
            break;
        }
        j = j + 1;
    }
    j
}

/// Whether `x[j..]` is a well-formed optional exponent part, exactly as
/// [`exponent_from`] defines it.
fn exponent_from_exec(x: &str, j: usize) -> (b: bool)
    requires
        j <= x@.len(),
    ensures
        b == exponent_from(x@, j as int),
{
    let n: usize = x.unicode_len();
    if j == n {
        return true;
    }
    let c = x.get_char(j);
    if !(c == 'e' || c == 'E') {
        return false;
    }
    let d: usize = if j + 1 < n {
        let c2 = x.get_char(j + 1);
        if c2 == '+' || c2 == '-' {
            j + 2
        } else {
            j + 1
        }
    } else {
        j + 1
    };
    let e = digit_run_end(x, d);
    e > d && e == n
}

/// Whether `x` satisfies the JSON number grammar, exactly as
/// [`is_json_number`] defines it.
fn is_json_number_exec(x: &str) -> (b: bool)
    ensures
        b == is_json_number(x@),
{
    let n: usize = x.unicode_len();
    let start: usize = if n > 0 && x.get_char(0) == '-' {
        1
    } else {
        0
    };
    if start >= n {
        return false;
    }
    let c = x.get_char(start);
    if !(c >= '0' && c <= '9') {
        return false;
    }
    let j: usize = if c == '0' {
        start + 1
    } else {
        digit_run_end(x, start)
    };
    if j < n && x.get_char(j) == '.' {
        let j2 = digit_run_end(x, j + 1);
        if j2 == j + 1 {
            return false;
        }
        exponent_from_exec(x, j2)
    } else {
        exponent_from_exec(x, j)
    }
}

/// Scans the whole input into its token sequence, or reports the first
/// lexical error: exactly the outcome that [`spec_tokenize`] assigns to
/// the input's character sequence.
pub fn tokenize(string: &str) -> (r: Result<Vec<TokenType>, TokenizeError>)
    ensures
        match r {
            Ok(tokens) => spec_tokenize(string@) == Ok::<_, TokenizeError>(tokens.deep_view()),
            Err(e) => spec_tokenize(string@) == Err::<Seq<TokenModel>, _>(e),
        },
{
    let n: usize = string.unicode_len();
    let mut tokens: Vec<TokenType> = Vec::new();
    let mut i: usize = 0;
    proof {
        assert(tokens.deep_view() =~= Seq::<TokenModel>::empty());
        lemma_prefixed_empty(spec_tokenize_from(string@, 0));
    }
    while i < n
        invariant
            i <= n,
            n == string@.len(),
            spec_tokenize_from(string@, 0) == prefixed(
                tokens.deep_view(),
                spec_tokenize_from(string@, i as int),
            ),
        decreases n - i,
    {
        let ghost pre = tokens.deep_view();
        let c = string.get_char(i);
        if c == ' ' || c == '\t' || c == '\n' || c == '\r' {
            i = i + 1;
        } else if c == '{' {
            proof {
                lemma_prefixed_push(
                    pre,
                    TokenModel::CurlyBraceOpening,
                    spec_tokenize_from(string@, i + 1),
                );
            }
            push_token(&mut tokens, TokenType::CurlyBraceOpening);
            i = i + 1;
        } else if c == '}' {
            proof {
                lemma_prefixed_push(
                    pre,
                    TokenModel::CurlyBraceClosing,
                    spec_tokenize_from(string@, i + 1),
                );
            }
            push_token(&mut tokens, TokenType::CurlyBraceClosing);
            i = i + 1;
        } else if c == '[' {
            proof {
                lemma_prefixed_push(
                    pre,
                    TokenModel::BracketOpening,
                    spec_tokenize_from(string@, i + 1),
                );
            }
            push_token(&mut tokens, TokenType::BracketOpening);
            i = i + 1;
        } else if c == ']' {
            proof {
                lemma_prefixed_push(
                    pre,
                    TokenModel::BracketClosing,
                    spec_tokenize_from(string@, i + 1),
                );
            }
            push_token(&mut tokens, TokenType::BracketClosing);
            i = i + 1;
        } else if c == ':' {
            proof {
                lemma_prefixed_push(pre, TokenModel::Colon, spec_tokenize_from(string@, i + 1));
            }
            push_token(&mut tokens, TokenType::Colon);
            i = i + 1;
        } else if c == ',' {
            proof {
                lemma_prefixed_push(pre, TokenModel::Comma, spec_tokenize_from(string@, i + 1));
            }
            push_token(&mut tokens, TokenType::Comma);
            i = i + 1;
        } else if c == '"' {
            let mut j: usize = i + 1;
            loop
                invariant
                    i + 1 <= j <= n,
                    n == string@.len(),
                    match string_body_len(string@, j as int) {
                        Some(k) => string_body_len(string@, i + 1) == Some((k + j - i - 1) as nat),
                        None => string_body_len(string@, i + 1) is None,
                    },
                ensures
                    i + 1 <= j <= n,
                    j == n ==> string_body_len(string@, i + 1) is None,
                    j < n ==> string@[j as int] == '"' && string_body_len(string@, i + 1) == Some(
                        (j - i - 1) as nat,
                    ),
                decreases n - j,
            {
                if j >= n {
                    break;
                }
                let cc = string.get_char(j);
                if cc == '"' {
                    break;
                }
                j = j + 1;
            }
            if j >= n {
                return Err(TokenizeError::UnterminatedString);
            }
            let text = string.substring_char(i + 1, j);
            proof {
                lemma_prefixed_push(
                    pre,
                    TokenModel::Text(string@.subrange(i + 1, j as int)),
                    spec_tokenize_from(string@, j + 1),
                );
            }
            push_token(&mut tokens, TokenType::String(text.to_owned()));
            i = j + 1;
        } else if c == '-' || (c >= '0' && c <= '9') {
            let j = number_run_end(string, i + 1);
            let lexeme = string.substring_char(i, j);
            if is_json_number_exec(lexeme) {
                proof {
                    lemma_prefixed_push(
                        pre,
                        TokenModel::Number(string@.subrange(i as int, j as int)),
                        spec_tokenize_from(string@, j as int),
                    );
                }
                push_token(&mut tokens, TokenType::Number(lexeme.to_owned()));
                i = j;
            } else {
                return Err(TokenizeError::InvalidNumber);
            }
        } else if c == 'n' {
            if n - i >= 4 && string.get_char(i + 1) == 'u' && string.get_char(i + 2) == 'l'
                && string.get_char(i + 3) == 'l' {
                proof {
                    lemma_prefixed_push(pre, TokenModel::Null, spec_tokenize_from(string@, i + 4));
                }
                push_token(&mut tokens, TokenType::Null);
                i = i + 4;
            } else {
                return Err(TokenizeError::InvalidLiteral(Keyword::Null));
            }
        } else if c == 't' {
            if n - i >= 4 && string.get_char(i + 1) == 'r' && string.get_char(i + 2) == 'u'
                && string.get_char(i + 3) == 'e' {
                proof {
                    lemma_prefixed_push(pre, TokenModel::True, spec_tokenize_from(string@, i + 4));
                }
                push_token(&mut tokens, TokenType::True);
                i = i + 4;
            } else {
                return Err(TokenizeError::InvalidLiteral(Keyword::True));
            }
        } else if c == 'f' {
            if n - i >= 5 && string.get_char(i + 1) == 'a' && string.get_char(i + 2) == 'l'
                && string.get_char(i + 3) == 's' && string.get_char(i + 4) == 'e' {
                proof {
                    lemma_prefixed_push(pre, TokenModel::False, spec_tokenize_from(string@, i + 5));
                }
                push_token(&mut tokens, TokenType::False);
                i = i + 5;
            } else {
                return Err(TokenizeError::InvalidLiteral(Keyword::False));
            }
        } else {
            return Err(TokenizeError::UnexpectedCharacter(c, i));
        }
    }
    proof {
        assert(tokens.deep_view() + Seq::<TokenModel>::empty() =~= tokens.deep_view());
    }
    Ok(tokens)
}

} // verus!
