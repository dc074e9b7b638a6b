//! The pattern parser: pattern text to a tree of tokens.
//!
//! The grammar is given twice. [`spec_tokenize`] and the spec functions under
//! it define, on sequences of characters, which token tree or which error a
//! pattern has. [`Tokens::tokenize_regex`] and [`Token::tokenize_one`] compute
//! it, and are proved to agree with that definition.

use vstd::prelude::*;
use vstd::slice::slice_subrange;

use vstd::string::StringExecFns;

use crate::text::{chars_of, push_decimal, spec_decimal};

verus! {

/// How often the value of a token may occur in a row.
#[derive(Debug, Clone, Copy, PartialEq)]
pub enum Repeat {
    /// Zero or one time (`?`).
    Optional,
    /// Exactly that many times. A token without a modifier has `Exactly(1)`.
    Exactly(usize),
    /// That many times or more: `*` is `AtLeast(0)`, `+` is `AtLeast(1)`.
    AtLeast(usize),
    /// At most that many times.
    AtMost(usize),
    /// Between the first and the second number of times, both included.
    Range(usize, usize),
}

/// What a token matches once.
#[derive(Debug, PartialEq)]
pub enum MatchCharacter {
    /// This character.
    Char(char),
    /// Any one character (`.`).
    Wildcard,
    /// A parenthesised group: its tokens one after the other.
    String(Vec<Box<Token>>),
    /// Either of two tokens (`|`).
    Or(Box<Token>, Box<Token>),
}

/// One node of the parsed pattern.
#[derive(Debug, PartialEq)]
pub struct Token {
    pub repeat: Repeat,
    pub value: MatchCharacter,
}

/// A parsed pattern: its tokens, and whether it began with `^` and ended
/// with `$`. The two markers never occur among the tokens.
#[derive(Debug, PartialEq)]
pub struct Tokens {
    pub beginning_boundary: bool,
    pub end_boundary: bool,
    pub tokens: Vec<Box<Token>>,
}

/// Why a pattern was rejected. `at` is an offset into the pattern, counted
/// in characters.
#[derive(Debug, Clone, Copy, PartialEq)]
pub enum Error {
    /// No token stands where one has to follow: the pattern ends after a
    /// `\`, or it ends or a group closes after a `|`.
    MissingToken { at: usize },
    /// A `?`, `*`, `+` or `|` with nothing before it that it could apply to.
    InvalidModifierLocation { at: usize },
    /// A `(` that is never closed (`at` is where the pattern ends), or a `)`
    /// that closes nothing (`at` is its offset).
    MismatchedGroup { at: usize },
    /// A `^` that is not the first character, or a `$` that is not the last.
    UnexpectedBoundary { at: usize },
    /// The pattern is well formed, but holds an alternation or a repetition
    /// count that the automaton cannot express.
    UnsupportedConstruct,
}

impl Error {
    /// The offset that the error carries, where it carries one.
    pub open spec fn spec_at(self) -> Option<usize> {
        match self {
            Error::MissingToken { at } => Some(at),
            Error::InvalidModifierLocation { at } => Some(at),
            Error::MismatchedGroup { at } => Some(at),
            Error::UnexpectedBoundary { at } => Some(at),
            Error::UnsupportedConstruct => None,
        }
    }

    /// What the message says of the kind of error, before the offset.
    pub open spec fn spec_headline(self) -> Seq<char> {
        match self {
            Error::MissingToken { .. } => "Missing token at char "@,
            Error::InvalidModifierLocation { .. } => "Invalid modifier (+, ?, etc.) at char "@,
            Error::MismatchedGroup { .. } => "Mismatched group (parentheses) at char "@,
            Error::UnexpectedBoundary { .. } => "Unexpected expression boundary (^ or $) at char "@,
            Error::UnsupportedConstruct => "Unsupported construct (alternation or repetition count)"@,
        }
    }

    /// The message of the error: its headline, then its offset in decimal
    /// digits where it carries one.
    pub open spec fn spec_message(self) -> Seq<char> {
        match self.spec_at() {
            Some(at) => self.spec_headline() + spec_decimal(at as nat),
            None => self.spec_headline(),
        }
    }

    /// The message of the error, for a reader.
    pub fn message(&self) -> (text: String)
        ensures
            text@ == self.spec_message(),
    {
        match self {
            Error::MissingToken { at } => {
                let mut text = String::from_str("Missing token at char ");
                push_decimal(&mut text, *at);
                text
            },
            Error::InvalidModifierLocation { at } => {
                let mut text = String::from_str("Invalid modifier (+, ?, etc.) at char ");
                push_decimal(&mut text, *at);
                text
            },
            Error::MismatchedGroup { at } => {
                let mut text = String::from_str("Mismatched group (parentheses) at char ");
                push_decimal(&mut text, *at);
                text
            },
            Error::UnexpectedBoundary { at } => {
                let mut text = String::from_str(
                    "Unexpected expression boundary (^ or $) at char ",
                );
                push_decimal(&mut text, *at);
                text
            },
            Error::UnsupportedConstruct => String::from_str(
                "Unsupported construct (alternation or repetition count)",
            ),
        }
    }
}

/// The mathematical value of a [`MatchCharacter`].
pub enum ValueView {
    Char(char),
    Wildcard,
    String(Seq<TokenView>),
    Or(Box<TokenView>, Box<TokenView>),
}

/// The mathematical value of a [`Token`].
pub struct TokenView {
    pub repeat: Repeat,
    pub value: ValueView,
}

/// The mathematical value of a parsed pattern.
pub struct TokensView {
    pub beginning_boundary: bool,
    pub end_boundary: bool,
    pub tokens: Seq<TokenView>,
}

/// The value of a [`MatchCharacter`]: the same shape, over the values of the
/// tokens it holds.
pub open spec fn value_view(v: MatchCharacter) -> ValueView
    decreases v,
{
    match v {
        MatchCharacter::Char(c) => ValueView::Char(c),
        MatchCharacter::Wildcard => ValueView::Wildcard,
        MatchCharacter::String(ts) => ValueView::String(
            Seq::new(
                ts.len() as nat,
                |i: int|
                    if 0 <= i < ts.len() {
                        token_view(*ts[i])
                    } else {
                        arbitrary()
                    },
            ),
        ),
        MatchCharacter::Or(a, b) => ValueView::Or(
            Box::new(token_view(*a)),
            Box::new(token_view(*b)),
        ),
    }
}

/// The value of a [`Token`].
pub open spec fn token_view(t: Token) -> TokenView
    decreases t,
{
    TokenView { repeat: t.repeat, value: value_view(t.value) }
}

impl View for MatchCharacter {
    type V = ValueView;

    open spec fn view(&self) -> ValueView {
        value_view(*self)
    }
}

impl View for Token {
    type V = TokenView;

    open spec fn view(&self) -> TokenView {
        token_view(*self)
    }
}

/// The values of a list of tokens, in order.
pub open spec fn token_views(ts: Seq<Box<Token>>) -> Seq<TokenView> {
    Seq::new(ts.len(), |i: int| ts[i]@)
}

impl View for Tokens {
    type V = TokensView;

    open spec fn view(&self) -> TokensView {
        TokensView {
            beginning_boundary: self.beginning_boundary,
            end_boundary: self.end_boundary,
            tokens: token_views(self.tokens@),
        }
    }
}

/// The value of a [`MatchCharacter`], case by case.
pub proof fn lemma_value_view(v: MatchCharacter)
    ensures
        v matches MatchCharacter::Char(c) ==> v@ == ValueView::Char(c),
        v is Wildcard ==> v@ == ValueView::Wildcard,
        v matches MatchCharacter::String(ts) ==> v@ == ValueView::String(token_views(ts@)),
        v matches MatchCharacter::Or(a, b) ==> v@ == ValueView::Or(Box::new(a@), Box::new(b@)),
{
    if let MatchCharacter::String(ts) = v {
        assert(v@->String_0 =~= token_views(ts@));
    }
}

/// The token with this repetition and this value.
pub open spec fn token_of(repeat: Repeat, value: ValueView) -> TokenView {
    TokenView { repeat, value }
}

/// The value of a token: its repetition and the value of what it holds.
pub proof fn lemma_token_view(t: Token)
    ensures
        t@ == token_of(t.repeat, t.value@),
{
}

/// The repetition that the character at `i` stands for, and the offset
/// behind it. Where that character is no modifier, none is taken.
pub open spec fn spec_repeat(chars: Seq<char>, i: int) -> (Repeat, int) {
    if 0 <= i < chars.len() && chars[i] == '?' {
        (Repeat::Optional, i + 1)
    } else if 0 <= i < chars.len() && chars[i] == '+' {
        (Repeat::AtLeast(1), i + 1)
    } else if 0 <= i < chars.len() && chars[i] == '*' {
        (Repeat::AtLeast(0), i + 1)
    } else {
        (Repeat::Exactly(1), i)
    }
}

/// The value that starts at offset `i` of `chars`, without its modifier,
/// and the offset behind it.
pub open spec fn spec_tokenize_value(chars: Seq<char>, i: int) -> Result<(ValueView, int), Error>
    decreases chars.len() - i, 0int,
{
    if i < 0 || i >= chars.len() {
        Err(Error::MissingToken { at: i as usize })
    } else if chars[i] == '\\' {
        if i + 1 < chars.len() {
            Ok((ValueView::Char(chars[i + 1]), i + 2))
        } else {
            Err(Error::MissingToken { at: (i + 1) as usize })
        }
    } else if chars[i] == '^' || chars[i] == '$' {
        Err(Error::UnexpectedBoundary { at: i as usize })
    } else if chars[i] == '?' || chars[i] == '*' || chars[i] == '+' || chars[i] == '|' {
        Err(Error::InvalidModifierLocation { at: i as usize })
    } else if chars[i] == ')' {
        Err(Error::MismatchedGroup { at: i as usize })
    } else if chars[i] == '(' {
        match spec_tokenize_group(chars, i + 1) {
            Ok((tokens, close)) => Ok((ValueView::String(tokens), close + 1)),
            Err(e) => Err(e),
        }
    } else if chars[i] == '.' {
        Ok((ValueView::Wildcard, i + 1))
    } else {
        Ok((ValueView::Char(chars[i]), i + 1))
    }
}

/// The token that starts at offset `i` of `chars`, and the offset behind it.
///
/// A token is a value, then at most one modifier. Where a `|` follows, the
/// token is the alternation of what was read so far and of the token behind
/// the `|`: an alternation binds single tokens, and groups to the right.
/// Where the pattern ends or a group closes behind the `|`, that token is
/// missing.
pub open spec fn spec_tokenize_one(chars: Seq<char>, i: int) -> Result<(TokenView, int), Error>
    decreases chars.len() - i, 1int,
{
    match spec_tokenize_value(chars, i) {
        Err(e) => Err(e),
        Ok((value, j)) => {
            let (repeat, k) = spec_repeat(chars, j);
            let token = TokenView { repeat, value };
            if i < k < chars.len() && chars[k] == '|' {
                if k + 1 < chars.len() && chars[k + 1] == ')' {
                    Err(Error::MissingToken { at: (k + 1) as usize })
                } else {
                    match spec_tokenize_one(chars, k + 1) {
                    Ok((right, m)) => Ok(
                        (
                            TokenView {
                                repeat: Repeat::Exactly(1),
                                value: ValueView::Or(Box::new(token), Box::new(right)),
                            },
                            m,
                        ),
                    ),
                        Err(e) => Err(e),
                    }
                }
            } else {
                Ok((token, k))
            }
        },
    }
}

/// The tokens of a group whose `(` stands just before offset `i`, and the
/// offset of the `)` that closes it.
pub open spec fn spec_tokenize_group(chars: Seq<char>, i: int) -> Result<
    (Seq<TokenView>, int),
    Error,
>
    decreases chars.len() - i, 2int,
{
    if i < 0 || i >= chars.len() {
        Err(Error::MismatchedGroup { at: i as usize })
    } else if chars[i] == ')' {
        Ok((Seq::empty(), i))
    } else {
        match spec_tokenize_one(chars, i) {
            Err(e) => Err(e),
            Ok((token, j)) => {
                // A token takes at least one character (`lemma_tokenize_one_advances`).
                if i < j <= chars.len() {
                    match spec_tokenize_group(chars, j) {
                        Ok((rest, close)) => Ok((seq![token] + rest, close)),
                        Err(e) => Err(e),
                    }
                } else {
                    Err(Error::MissingToken { at: i as usize })
                }
            },
        }
    }
}

/// The tokens of `chars` from offset `i` to its end, outside any group.
pub open spec fn spec_tokenize_from(chars: Seq<char>, i: int) -> Result<Seq<TokenView>, Error>
    decreases chars.len() - i,
{
    if i < 0 || i >= chars.len() {
        Ok(Seq::empty())
    } else {
        match spec_tokenize_one(chars, i) {
            Err(e) => Err(e),
            Ok((token, j)) => {
                // A token takes at least one character (`lemma_tokenize_one_advances`).
                if i < j <= chars.len() {
                    match spec_tokenize_from(chars, j) {
                        Ok(rest) => Ok(seq![token] + rest),
                        Err(e) => Err(e),
                    }
                } else {
                    Err(Error::MissingToken { at: i as usize })
                }
            },
        }
    }
}

/// Whether a pattern begins with the marker `^`.
pub open spec fn spec_beginning_boundary(chars: Seq<char>) -> bool {
    chars.len() > 0 && chars[0] == '^'
}

/// Whether the character at offset `i` stands behind a `\` that takes its
/// meaning away: a `\` that is not itself taken by a `\` before it.
pub open spec fn spec_escaped(chars: Seq<char>, i: int) -> bool
    decreases i,
{
    0 < i <= chars.len() && chars[i - 1] == '\\' && !spec_escaped(chars, i - 1)
}

/// Whether a pattern ends with the marker `$`: a `$` in the last place that
/// no `\` takes the meaning of.
pub open spec fn spec_end_boundary(chars: Seq<char>) -> bool {
    chars.len() > 0 && chars.last() == '$' && !spec_escaped(chars, chars.len() - 1)
}

/// What a pattern parses to. A `^` in the first place and a `$` in the last
/// that is not escaped are the two markers; what stands between them is a
/// list of tokens.
pub open spec fn spec_tokenize(chars: Seq<char>) -> Result<TokensView, Error> {
    let beginning_boundary = spec_beginning_boundary(chars);
    let end_boundary = spec_end_boundary(chars);
    let start: int = if beginning_boundary { 1 } else { 0 };
    let end: int = if end_boundary { chars.len() - 1 } else { chars.len() as int };
    match spec_tokenize_from(chars.subrange(0, end), start) {
        Ok(tokens) => Ok(TokensView { beginning_boundary, end_boundary, tokens }),
        Err(e) => Err(e),
    }
}

/// A value that parses takes at least one character and ends inside the
/// pattern.
pub proof fn lemma_tokenize_value_advances(chars: Seq<char>, i: int)
    ensures
        spec_tokenize_value(chars, i) matches Ok((_, j)) ==> 0 <= i < j <= chars.len(),
    decreases chars.len() - i, 0int,
{
    if 0 <= i < chars.len() && chars[i] == '(' {
        lemma_tokenize_group_advances(chars, i + 1);
    }
}

/// A token that parses takes at least one character and ends inside the
/// pattern.
pub proof fn lemma_tokenize_one_advances(chars: Seq<char>, i: int)
    ensures
        spec_tokenize_one(chars, i) matches Ok((_, j)) ==> 0 <= i < j <= chars.len(),
    decreases chars.len() - i, 1int,
{
    lemma_tokenize_value_advances(chars, i);
    if let Ok((_, j)) = spec_tokenize_value(chars, i) {
        let (_, k) = spec_repeat(chars, j);
        if i < k < chars.len() && chars[k] == '|' {
            lemma_tokenize_one_advances(chars, k + 1);
        }
    }
}

/// The `)` that closes a group stands inside the pattern, at or behind the
/// offset where the group's tokens start.
pub proof fn lemma_tokenize_group_advances(chars: Seq<char>, i: int)
    ensures
        spec_tokenize_group(chars, i) matches Ok((_, close)) ==> 0 <= i <= close < chars.len(),
    decreases chars.len() - i, 2int,
{
    if 0 <= i < chars.len() && chars[i] != ')' {
        lemma_tokenize_one_advances(chars, i);
        if let Ok((_, j)) = spec_tokenize_one(chars, i) {
            lemma_tokenize_group_advances(chars, j);
        }
    }
}

/// `front`, then the tokens of `rest` where there are any.
pub open spec fn spec_prepend(front: Seq<TokenView>, rest: Result<Seq<TokenView>, Error>) -> Result<
    Seq<TokenView>,
    Error,
> {
    match rest {
        Ok(tokens) => Ok(front + tokens),
        Err(e) => Err(e),
    }
}

/// `front`, then the tokens of the group `rest` where there are any.
pub open spec fn spec_prepend_group(
    front: Seq<TokenView>,
    rest: Result<(Seq<TokenView>, int), Error>,
) -> Result<(Seq<TokenView>, int), Error> {
    match rest {
        Ok((tokens, close)) => Ok((front + tokens, close)),
        Err(e) => Err(e),
    }
}

/// Whether the character at offset `i` of `chars` stands behind a `\` that
/// takes its meaning away.
fn escaped(chars: &[char], i: usize) -> (taken: bool)
    requires
        i <= chars@.len(),
    ensures
        taken == spec_escaped(chars@, i as int),
{
    let mut j = i;
    let mut taken = false;
    while j > 0 && chars[j - 1] == '\\'
        invariant
            j <= i <= chars@.len(),
            spec_escaped(chars@, i as int) == (taken != spec_escaped(chars@, j as int)),
        decreases j,
    {
        taken = !taken;
        j -= 1;
    }
    taken
}

impl Tokens {
    /// Parses a pattern. The result is what [`spec_tokenize`] gives for the
    /// pattern's characters: its tokens and markers, or the error with its
    /// offset.
    #[verifier::loop_isolation(false)]
    pub fn tokenize_regex(expression: &str) -> (res: Result<Tokens, Error>)
        ensures
            match spec_tokenize(expression@) {
                Ok(parsed) => res matches Ok(tokens) && tokens@ == parsed,
                Err(e) => res matches Err(err) && err == e,
            },
            res matches Err(e) ==> e.spec_at() is Some,
    {
        let chars = chars_of(expression);
        let n = chars.len();
        let beginning_boundary = n > 0 && chars[0] == '^';
        let end_boundary = n > 0 && chars[n - 1] == '$' && !escaped(chars.as_slice(), n - 1);
        let start: usize = if beginning_boundary { 1 } else { 0 };
        let end: usize = if end_boundary { n - 1 } else { n };
        let body = slice_subrange(chars.as_slice(), 0, end);
        let mut tokens: Vec<Box<Token>> = Vec::new();
        let mut i = start;
        while i < end
            invariant
                body@.len() == end,
                start <= i <= end,
                spec_tokenize_from(body@, start as int) == spec_prepend(
                    token_views(tokens@),
                    spec_tokenize_from(body@, i as int),
                ),
            decreases end - i,
        {
            proof {
                lemma_tokenize_one_advances(body@, i as int);
            }
            let ghost before = token_views(tokens@);
            match Token::tokenize_one(body, &mut i) {
                Ok(token) => {
                    tokens.push(token);
                    assert(token_views(tokens@) == before + seq![token@]);
                    assert forall|rest: Seq<TokenView>|
                        before + (seq![token@] + rest) == token_views(tokens@) + rest by {
                        assert(before + (seq![token@] + rest) =~= token_views(tokens@) + rest);
                    }
                },
                Err(e) => {
                    return Err(e);
                },
            }
        }
        assert(token_views(tokens@) + Seq::<TokenView>::empty() == token_views(tokens@));
        Ok(Tokens { tokens, beginning_boundary, end_boundary })
    }
}

impl Token {
    /// Parses the token that starts at offset `*i` of `chars` and moves `*i`
    /// behind it. The result is what [`spec_tokenize_one`] gives. Where that
    /// is an error, `*i` is left at the error's offset.
    #[verifier::loop_isolation(false)]
    pub fn tokenize_one(chars: &[char], i: &mut usize) -> (res: Result<Box<Token>, Error>)
        ensures
            match spec_tokenize_one(chars@, *old(i) as int) {
                Ok((parsed, behind)) => res matches Ok(token) && token@ == parsed && *final(i)
                    == behind,
                Err(e) => res matches Err(err) && err == e && e.spec_at() == Some(*final(i)),
            },
        decreases chars@.len() - *old(i),
    {
        if *i >= chars.len() {
            return Err(Error::MissingToken { at: *i });
        }
        let ghost first = *i as int;
        proof {
            lemma_tokenize_value_advances(chars@, first);
        }
        let c = chars[*i];
        let value = if c == '\\' {
            *i += 1;
            if *i >= chars.len() {
                return Err(Error::MissingToken { at: *i });
            }
            MatchCharacter::Char(chars[*i])
        } else if c == '^' || c == '$' {
            return Err(Error::UnexpectedBoundary { at: *i });
        } else if c == '?' || c == '*' || c == '+' || c == '|' {
            return Err(Error::InvalidModifierLocation { at: *i });
        } else if c == ')' {
            return Err(Error::MismatchedGroup { at: *i });
        } else if c == '(' {
            *i += 1;
            let mut group: Vec<Box<Token>> = Vec::new();
            while *i < chars.len() && chars[*i] != ')'
                invariant
                    first < *i <= chars@.len(),
                    spec_tokenize_group(chars@, first + 1) == spec_prepend_group(
                        token_views(group@),
                        spec_tokenize_group(chars@, *i as int),
                    ),
                decreases chars@.len() - *i,
            {
                proof {
                    lemma_tokenize_one_advances(chars@, *i as int);
                }
                let ghost before = token_views(group@);
                match Token::tokenize_one(chars, i) {
                    Ok(token) => {
                        group.push(token);
                        assert(token_views(group@) == before + seq![token@]);
                        assert forall|rest: Seq<TokenView>|
                            before + (seq![token@] + rest) == token_views(group@) + rest by {
                            assert(before + (seq![token@] + rest) =~= token_views(group@) + rest);
                        }
                    },
                    Err(e) => {
                        return Err(e);
                    },
                }
            }
            if *i >= chars.len() {
                return Err(Error::MismatchedGroup { at: *i });
            }
            assert(token_views(group@) + Seq::<TokenView>::empty() == token_views(group@));
            MatchCharacter::String(group)
        } else if c == '.' {
            MatchCharacter::Wildcard
        } else {
            MatchCharacter::Char(c)
        };
        *i += 1;
        let repeat = if *i < chars.len() && chars[*i] == '?' {
            *i += 1;
            Repeat::Optional
        } else if *i < chars.len() && chars[*i] == '+' {
            *i += 1;
            Repeat::AtLeast(1)
        } else if *i < chars.len() && chars[*i] == '*' {
            *i += 1;
            Repeat::AtLeast(0)
        } else {
            Repeat::Exactly(1)
        };
        let token = Token { repeat, value };
        proof {
            lemma_value_view(token.value);
            lemma_token_view(token);
        }
        if *i < chars.len() && chars[*i] == '|' {
            *i += 1;
            if *i < chars.len() && chars[*i] == ')' {
                return Err(Error::MissingToken { at: *i });
            }
            match Token::tokenize_one(chars, i) {
                Ok(right) => {
                    let either = Token {
                        repeat: Repeat::Exactly(1),
                        value: MatchCharacter::Or(Box::new(token), right),
                    };
                    proof {
                        lemma_value_view(either.value);
                        lemma_token_view(either);
                    }
                    Ok(Box::new(either))
                },
                Err(e) => Err(e),
            }
        } else {
            Ok(Box::new(token))
        }
    }
}

} // verus!
