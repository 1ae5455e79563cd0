//! The lexer: turns source text into a stream of tokens.
//!
//! Tokens are punctuation (`( ) { } , & ->`), the keywords `proc fn label op
//! var in out`, names (`[A-Za-z_][A-Za-z0-9_]*`) and decimal integers that fit
//! in an `i32`. ASCII whitespace separates tokens and is otherwise ignored.
//! Positions are counted in characters.
use vstd::prelude::*;
use crate::symbols::chars_of;

verus! {

/// What a token means, with names as character sequences.
pub enum SpecTokenValue {
    LPAR,
    RPAR,
    LBR,
    RBR,
    COMMA,
    AMP,
    ARROW,
    PROC,
    FN,
    LABEL,
    OP,
    VAR,
    IN,
    OUT,
    NAME(Seq<char>),
    INT(int),
}

/// One lexing step from a position: the end of the input, a token spanning
/// `start..end`, or an input on which lexing cannot go on.
pub enum Lexed {
    End,
    Token { start: int, end: int, value: SpecTokenValue },
    Invalid,
}

/// ASCII whitespace, as `char::is_ascii_whitespace` defines it.
pub open spec fn is_space(c: char) -> bool {
    c == ' ' || c == '\t' || c == '\n' || c == '\x0C' || c == '\r'
}

pub open spec fn is_alpha(c: char) -> bool {
    ('a' <= c && c <= 'z') || ('A' <= c && c <= 'Z')
}

pub open spec fn is_digit(c: char) -> bool {
    '0' <= c && c <= '9'
}

/// A character that may start a name.
pub open spec fn is_word_start(c: char) -> bool {
    is_alpha(c) || c == '_'
}

/// A character that may continue a name.
pub open spec fn is_word_char(c: char) -> bool {
    is_alpha(c) || is_digit(c) || c == '_'
}

/// The first position at or after `p` that holds no whitespace.
pub open spec fn skip_spaces(s: Seq<char>, p: int) -> int
    decreases s.len() - p,
{
    if 0 <= p < s.len() && is_space(s[p]) {
        skip_spaces(s, p + 1)
    } else {
        p
    }
}

/// The first position at or after `p` that holds no name character.
pub open spec fn word_end(s: Seq<char>, p: int) -> int
    decreases s.len() - p,
{
    if 0 <= p < s.len() && is_word_char(s[p]) {
        word_end(s, p + 1)
    } else {
        p
    }
}

/// The first position at or after `p` that holds no digit.
pub open spec fn digits_end(s: Seq<char>, p: int) -> int
    decreases s.len() - p,
{
    if 0 <= p < s.len() && is_digit(s[p]) {
        digits_end(s, p + 1)
    } else {
        p
    }
}

/// The number that a sequence of decimal digits denotes.
pub open spec fn digits_value(d: Seq<char>) -> int
    decreases d.len(),
{
    if d.len() == 0 {
        0
    } else {
        digits_value(d.drop_last()) * 10 + (d.last() as int - '0' as int)
    }
}

/// The token that a word stands for: a keyword, or else a name.
pub open spec fn word_token(w: Seq<char>) -> SpecTokenValue {
    if w == seq!['p', 'r', 'o', 'c'] {
        SpecTokenValue::PROC
    } else if w == seq!['f', 'n'] {
        SpecTokenValue::FN
    } else if w == seq!['l', 'a', 'b', 'e', 'l'] {
        SpecTokenValue::LABEL
    } else if w == seq!['o', 'p'] {
        SpecTokenValue::OP
    } else if w == seq!['v', 'a', 'r'] {
        SpecTokenValue::VAR
    } else if w == seq!['i', 'n'] {
        SpecTokenValue::IN
    } else if w == seq!['o', 'u', 't'] {
        SpecTokenValue::OUT
    } else {
        SpecTokenValue::NAME(w)
    }
}

/// The token of a single punctuation character, if it is one.
pub open spec fn punct_token(c: char) -> Option<SpecTokenValue> {
    if c == '(' {
        Some(SpecTokenValue::LPAR)
    } else if c == ')' {
        Some(SpecTokenValue::RPAR)
    } else if c == '{' {
        Some(SpecTokenValue::LBR)
    } else if c == '}' {
        Some(SpecTokenValue::RBR)
    } else if c == ',' {
        Some(SpecTokenValue::COMMA)
    } else if c == '&' {
        Some(SpecTokenValue::AMP)
    } else {
        None
    }
}

/// What the lexer finds when it resumes at position `p` of `s`.
pub open spec fn lex_at(s: Seq<char>, p: int) -> Lexed {
    let q = skip_spaces(s, p);
    if q >= s.len() {
        Lexed::End
    } else {
        let c = s[q];
        if punct_token(c) is Some {
            Lexed::Token { start: q, end: q + 1, value: punct_token(c)->0 }
        } else if c == '-' {
            if q + 1 < s.len() && s[q + 1] == '>' {
                Lexed::Token { start: q, end: q + 2, value: SpecTokenValue::ARROW }
            } else {
                Lexed::Invalid
            }
        } else if is_word_start(c) {
            let e = word_end(s, q + 1);
            Lexed::Token { start: q, end: e, value: word_token(s.subrange(q, e)) }
        } else if is_digit(c) {
            let e = digits_end(s, q + 1);
            let v = digits_value(s.subrange(q, e));
            if v <= i32::MAX {
                Lexed::Token { start: q, end: e, value: SpecTokenValue::INT(v) }
            } else {
                Lexed::Invalid
            }
        } else {
            Lexed::Invalid
        }
    }
}

/// All tokens from position `p` on, as `(start, end, value)`, or `None` when
/// the lexer meets an input it cannot lex.
pub open spec fn lex_from(s: Seq<char>, p: int) -> Option<Seq<(int, int, SpecTokenValue)>>
    decreases s.len() - p,
{
    if p < 0 || p > s.len() {
        None
    } else {
        match lex_at(s, p) {
            Lexed::End => Some(Seq::empty()),
            Lexed::Invalid => None,
            Lexed::Token { start, end, value } => {
                if p < end <= s.len() {
                    match lex_from(s, end) {
                        Some(rest) => Some(seq![(start, end, value)].add(rest)),
                        None => None,
                    }
                } else {
                    None
                }
            },
        }
    }
}

/// All tokens of `s`.
pub open spec fn lex_all(s: Seq<char>) -> Option<Seq<(int, int, SpecTokenValue)>> {
    lex_from(s, 0)
}

pub proof fn lemma_skip_spaces(s: Seq<char>, p: int)
    requires
        0 <= p <= s.len(),
    ensures
        p <= skip_spaces(s, p) <= s.len(),
        forall|k: int| p <= k < skip_spaces(s, p) ==> is_space(#[trigger] s[k]),
        skip_spaces(s, p) < s.len() ==> !is_space(s[skip_spaces(s, p)]),
    decreases s.len() - p,
{
    if p < s.len() && is_space(s[p]) {
        lemma_skip_spaces(s, p + 1);
    }
}

pub proof fn lemma_word_end(s: Seq<char>, p: int)
    requires
        0 <= p <= s.len(),
    ensures
        p <= word_end(s, p) <= s.len(),
        forall|k: int| p <= k < word_end(s, p) ==> is_word_char(#[trigger] s[k]),
        word_end(s, p) < s.len() ==> !is_word_char(s[word_end(s, p)]),
    decreases s.len() - p,
{
    if p < s.len() && is_word_char(s[p]) {
        lemma_word_end(s, p + 1);
    }
}

pub proof fn lemma_digits_end(s: Seq<char>, p: int)
    requires
        0 <= p <= s.len(),
    ensures
        p <= digits_end(s, p) <= s.len(),
        forall|k: int| p <= k < digits_end(s, p) ==> is_digit(#[trigger] s[k]),
        digits_end(s, p) < s.len() ==> !is_digit(s[digits_end(s, p)]),
    decreases s.len() - p,
{
    if p < s.len() && is_digit(s[p]) {
        lemma_digits_end(s, p + 1);
    }
}

/// The keywords of the language.
pub open spec fn is_keyword(w: Seq<char>) -> bool {
    ||| w == seq!['p', 'r', 'o', 'c']
    ||| w == seq!['f', 'n']
    ||| w == seq!['l', 'a', 'b', 'e', 'l']
    ||| w == seq!['o', 'p']
    ||| w == seq!['v', 'a', 'r']
    ||| w == seq!['i', 'n']
    ||| w == seq!['o', 'u', 't']
}

/// What a token that spans `start..end` of `s` with value `v` is: a name is
/// its text, a word that is no keyword; a number is the decimal value of its
/// digits; a word or a number is as long as it can be (the next character
/// could not continue it); and a word that is a keyword gives its keyword.
pub open spec fn token_law(s: Seq<char>, start: int, end: int, v: SpecTokenValue) -> bool {
    let text = s.subrange(start, end);
    &&& (v matches SpecTokenValue::NAME(n) ==> {
        &&& n == text
        &&& !is_keyword(text)
        &&& is_word_start(s[start])
        &&& forall|k: int| start <= k < end ==> is_word_char(#[trigger] s[k])
    })
    &&& (v matches SpecTokenValue::INT(x) ==> {
        &&& x == digits_value(text)
        &&& forall|k: int| start <= k < end ==> is_digit(#[trigger] s[k])
    })
    &&& (is_word_start(s[start]) ==> v == word_token(text) && (end == s.len() || !is_word_char(s[end])))
    &&& (is_digit(s[start]) ==> v is INT && (end == s.len() || !is_digit(s[end])))
}

/// A token found by one lexing step obeys the token law.
pub proof fn lemma_lex_at_token(s: Seq<char>, p: int)
    requires
        0 <= p <= s.len(),
    ensures
        lex_at(s, p) matches Lexed::Token { start, end, value } ==> token_law(s, start, end, value),
{
    lemma_skip_spaces(s, p);
    let q = skip_spaces(s, p);
    if q < s.len() {
        lemma_word_end(s, q + 1);
        lemma_digits_end(s, q + 1);
        let c = s[q];
        if punct_token(c) is None && c != '-' && is_word_start(c) {
            let e = word_end(s, q + 1);
            let w = s.subrange(q, e);
            if word_token(w) is NAME {
                assert(!is_keyword(w));
            }
        }
    }
}

/// Characters in `p..` covered by none of the spans `ts`.
pub open spec fn uncovered(ts: Seq<(int, int, SpecTokenValue)>, k: int) -> bool {
    forall|i: int| 0 <= i < ts.len() ==> !(#[trigger] ts[i].0 <= k < ts[i].1)
}

/// The lexing law. Lexing loses nothing but whitespace: the tokens found
/// from `p` on are non-empty spans of the input that come in order without
/// overlapping, and every character from `p` on that lies in no token is
/// whitespace. Each token obeys the token law: a name carries exactly its
/// text and is no keyword, a number carries the decimal value of its digits,
/// and words and numbers are as long as they can be.
pub proof fn lemma_tokens_partition(s: Seq<char>, p: int)
    requires
        0 <= p <= s.len(),
        lex_from(s, p) is Some,
    ensures
        ({
            let ts = lex_from(s, p)->0;
            &&& forall|i: int| 0 <= i < ts.len() ==> p <= #[trigger] ts[i].0 < ts[i].1 <= s.len()
            &&& forall|i: int| 0 <= i < ts.len() - 1 ==> #[trigger] ts[i].1 <= ts[i + 1].0
            &&& forall|k: int| p <= k < s.len() && uncovered(ts, k) ==> is_space(#[trigger] s[k])
            &&& forall|i: int| 0 <= i < ts.len() ==> (#[trigger] ts[i].2 matches SpecTokenValue::NAME(n)
                ==> n == s.subrange(ts[i].0, ts[i].1))
            &&& forall|i: int| 0 <= i < ts.len() ==> token_law(s, (#[trigger] ts[i]).0, ts[i].1, ts[i].2)
        }),
    decreases s.len() - p,
{
    lemma_lex_at_bounds(s, p);
    lemma_skip_spaces(s, p);
    lemma_lex_at_token(s, p);
    match lex_at(s, p) {
        Lexed::Token { start, end, value } => {
            lemma_tokens_partition(s, end);
            let rest = lex_from(s, end)->0;
            let ts = lex_from(s, p)->0;
            assert(ts == seq![(start, end, value)] + rest);
            assert forall|i: int| 0 <= i < ts.len() - 1 implies #[trigger] ts[i].1 <= ts[i + 1].0 by {
                if i > 0 {
                    assert(ts[i] == rest[i - 1]);
                    assert(ts[i + 1] == rest[i]);
                } else if rest.len() > 0 {
                    assert(ts[1] == rest[0]);
                }
            }
            assert forall|k: int| p <= k < s.len() && uncovered(ts, k) implies is_space(
                #[trigger] s[k],
            ) by {
                assert(!(ts[0].0 <= k < ts[0].1));
                if k >= end {
                    assert forall|i: int| 0 <= i < rest.len() implies !(#[trigger] rest[i].0 <= k
                        < rest[i].1) by {
                        assert(rest[i] == ts[i + 1]);
                    }
                }
            }
            assert forall|i: int| 0 <= i < ts.len() implies p <= #[trigger] ts[i].0 < ts[i].1
                <= s.len() by {
                if i > 0 {
                    assert(ts[i] == rest[i - 1]);
                }
            }
            assert forall|i: int| 0 <= i < ts.len() implies (#[trigger] ts[i].2 matches SpecTokenValue::NAME(
                n,
            ) ==> n == s.subrange(ts[i].0, ts[i].1)) by {
                if i > 0 {
                    assert(ts[i] == rest[i - 1]);
                }
            }
            assert forall|i: int| 0 <= i < ts.len() implies token_law(s, (#[trigger] ts[i]).0, ts[i].1, ts[i].2) by {
                if i > 0 {
                    assert(ts[i] == rest[i - 1]);
                }
            }
        },
        _ => {
        },
    }
}

/// Lexing ends exactly where only whitespace is left, and once ended it
/// stays ended: at the end of the input there is nothing more to find.
pub proof fn lemma_end_of_input(s: Seq<char>, p: int)
    requires
        0 <= p <= s.len(),
    ensures
        (lex_at(s, p) is End) <==> (forall|k: int| p <= k < s.len() ==> is_space(#[trigger] s[k])),
        lex_at(s, s.len() as int) is End,
{
    lemma_skip_spaces(s, p);
    let q = skip_spaces(s, p);
    if forall|k: int| p <= k < s.len() ==> is_space(#[trigger] s[k]) {
        if q < s.len() {
            assert(is_space(s[q]));
        }
    }
    assert(skip_spaces(s, s.len() as int) == s.len());
}

/// A token found at `p` lies after `p`, is not empty and ends inside the input.
pub proof fn lemma_lex_at_bounds(s: Seq<char>, p: int)
    requires
        0 <= p <= s.len(),
    ensures
        lex_at(s, p) matches Lexed::Token { start, end, value } ==> p <= start < end <= s.len(),
        lex_at(s, p) is End ==> skip_spaces(s, p) == s.len(),
{
    lemma_skip_spaces(s, p);
    let q = skip_spaces(s, p);
    if q < s.len() {
        lemma_word_end(s, q + 1);
        lemma_digits_end(s, q + 1);
    }
}


/// Words are ASCII words: at a position that holds an ASCII letter, lower
/// or upper case, or `_`, one lexing step finds a word that starts there and
/// runs over every ASCII letter, digit and `_` that follows; the word is a
/// keyword or else a name that carries exactly its text.
pub proof fn lemma_ascii_words(s: Seq<char>, p: int)
    requires
        0 <= p < s.len(),
        ('a' <= s[p] && s[p] <= 'z') || ('A' <= s[p] && s[p] <= 'Z') || s[p] == '_',
    ensures
        lex_at(s, p) matches Lexed::Token { start, end, value } && {
            &&& start == p
            &&& p < end <= s.len()
            &&& forall|k: int|
                p < k < end ==> ('a' <= #[trigger] s[k] && s[k] <= 'z') || ('A' <= s[k] && s[k] <= 'Z') || (
                '0' <= s[k] && s[k] <= '9') || s[k] == '_'
            &&& end < s.len() ==> !(('a' <= s[end] && s[end] <= 'z') || ('A' <= s[end] && s[end] <= 'Z') || (
                '0' <= s[end] && s[end] <= '9') || s[end] == '_')
            &&& (value == SpecTokenValue::NAME(s.subrange(p, end)) || is_keyword(s.subrange(p, end)))
        },
{
    lemma_word_end(s, p + 1);
    assert(skip_spaces(s, p) == p);
    let e = word_end(s, p + 1);
    let w = s.subrange(p, e);
    if !(word_token(w) is NAME) {
        assert(is_keyword(w));
    }
}

/// Punctuation is one character long, `->` two: at a position holding one
/// of `( ) { } , &`, one lexing step finds that character's token, and at
/// `->` the arrow.
pub proof fn lemma_punctuation(s: Seq<char>, p: int)
    requires
        0 <= p < s.len(),
    ensures
        s[p] == '(' ==> lex_at(s, p) == (Lexed::Token { start: p, end: p + 1, value: SpecTokenValue::LPAR }),
        s[p] == ')' ==> lex_at(s, p) == (Lexed::Token { start: p, end: p + 1, value: SpecTokenValue::RPAR }),
        s[p] == '{' ==> lex_at(s, p) == (Lexed::Token { start: p, end: p + 1, value: SpecTokenValue::LBR }),
        s[p] == '}' ==> lex_at(s, p) == (Lexed::Token { start: p, end: p + 1, value: SpecTokenValue::RBR }),
        s[p] == ',' ==> lex_at(s, p) == (Lexed::Token { start: p, end: p + 1, value: SpecTokenValue::COMMA }),
        s[p] == '&' ==> lex_at(s, p) == (Lexed::Token { start: p, end: p + 1, value: SpecTokenValue::AMP }),
        s[p] == '-' && p + 1 < s.len() && s[p + 1] == '>' ==> lex_at(s, p) == (Lexed::Token {
            start: p,
            end: p + 2,
            value: SpecTokenValue::ARROW,
        }),
{
    if s[p] == '(' || s[p] == ')' || s[p] == '{' || s[p] == '}' || s[p] == ',' || s[p] == '&' || s[p] == '-' {
        assert(skip_spaces(s, p) == p);
    }
}

/// A character of a plain source: an ASCII letter, digit or `_`, ASCII
/// whitespace, or one of `( ) { } , &`.
spec fn plain_char(c: char) -> bool {
    ||| ('a' <= c && c <= 'z') || ('A' <= c && c <= 'Z') || ('0' <= c && c <= '9') || c == '_'
    ||| c == ' ' || c == '\t' || c == '\n' || c == '\x0C' || c == '\r'
    ||| c == '(' || c == ')' || c == '{' || c == '}' || c == ',' || c == '&'
}

spec fn ascii_word_char(c: char) -> bool {
    ('a' <= c && c <= 'z') || ('A' <= c && c <= 'Z') || ('0' <= c && c <= '9') || c == '_'
}

proof fn lemma_plain_from(s: Seq<char>, p: int)
    requires
        0 <= p <= s.len(),
        forall|k: int| 0 <= k < s.len() ==> plain_char(#[trigger] s[k]),
        forall|k: int| 0 <= k < s.len() && '0' <= #[trigger] s[k] && s[k] <= '9' ==> 0 < k && ascii_word_char(s[k - 1]),
        p == 0 || p == s.len() || !ascii_word_char(s[p - 1]) || !ascii_word_char(s[p]),
    ensures
        lex_from(s, p) is Some,
    decreases s.len() - p,
{
    lemma_skip_spaces(s, p);
    lemma_lex_at_bounds(s, p);
    let q = skip_spaces(s, p);
    if q < s.len() {
        let c = s[q];
        assert(plain_char(c));
        if '0' <= c && c <= '9' {
            assert(ascii_word_char(s[q - 1]));
            if q > p {
                assert(is_space(s[q - 1]));
            }
            assert(false);
        }
        lemma_word_end(s, q + 1);
        match lex_at(s, p) {
            Lexed::Token { start, end, value } => {
                if end < s.len() && punct_token(c) is None {
                    assert(!is_word_char(s[end]));
                }
                lemma_plain_from(s, end);
            },
            _ => {},
        }
    }
}

/// Every source made of ASCII letters, digits and `_`, ASCII whitespace and
/// the punctuation `( ) { } , &`, in which each digit follows a letter, a
/// digit or `_` (so that digits only continue words), can be lexed.
pub proof fn lemma_plain_source_lexes(s: Seq<char>)
    requires
        forall|k: int|
            0 <= k < s.len() ==> {
                let c = #[trigger] s[k];
                ||| ('a' <= c && c <= 'z') || ('A' <= c && c <= 'Z') || ('0' <= c && c <= '9') || c == '_'
                ||| c == ' ' || c == '\t' || c == '\n' || c == '\x0C' || c == '\r'
                ||| c == '(' || c == ')' || c == '{' || c == '}' || c == ',' || c == '&'
            },
        forall|k: int|
            0 <= k < s.len() && '0' <= #[trigger] s[k] && s[k] <= '9' ==> 0 < k && (('a' <= s[k - 1] && s[k - 1]
                <= 'z') || ('A' <= s[k - 1] && s[k - 1] <= 'Z') || ('0' <= s[k - 1] && s[k - 1] <= '9') || s[k
                - 1] == '_'),
    ensures
        lex_all(s) is Some,
{
    assert forall|k: int| 0 <= k < s.len() implies plain_char(#[trigger] s[k]) by {}
    assert forall|k: int| 0 <= k < s.len() && '0' <= #[trigger] s[k] && s[k] <= '9' implies 0 < k
        && ascii_word_char(s[k - 1]) by {}
    lemma_plain_from(s, 0);
}


/// The value carried by a token.
#[derive(Debug)]
pub enum TokenValue<'a> {
    LPAR,
    RPAR,
    LBR,
    RBR,
    COMMA,
    AMP,
    ARROW,
    PROC,
    FN,
    LABEL,
    OP,
    VAR,
    IN,
    OUT,
    /// A name; the slice is always the token's text.
    NAME(&'a str),
    INT(i32),
}

impl<'a> View for TokenValue<'a> {
    type V = SpecTokenValue;

    open spec fn view(&self) -> SpecTokenValue {
        match self {
            TokenValue::LPAR => SpecTokenValue::LPAR,
            TokenValue::RPAR => SpecTokenValue::RPAR,
            TokenValue::LBR => SpecTokenValue::LBR,
            TokenValue::RBR => SpecTokenValue::RBR,
            TokenValue::COMMA => SpecTokenValue::COMMA,
            TokenValue::AMP => SpecTokenValue::AMP,
            TokenValue::ARROW => SpecTokenValue::ARROW,
            TokenValue::PROC => SpecTokenValue::PROC,
            TokenValue::FN => SpecTokenValue::FN,
            TokenValue::LABEL => SpecTokenValue::LABEL,
            TokenValue::OP => SpecTokenValue::OP,
            TokenValue::VAR => SpecTokenValue::VAR,
            TokenValue::IN => SpecTokenValue::IN,
            TokenValue::OUT => SpecTokenValue::OUT,
            TokenValue::NAME(n) => SpecTokenValue::NAME(n@),
            TokenValue::INT(v) => SpecTokenValue::INT(*v as int),
        }
    }
}

/// A token, with the text it was read from.
#[derive(Debug)]
pub struct Token<'a> {
    source: &'a str,
    text: &'a str,
    pub value: TokenValue<'a>,
}

impl<'a> Token<'a> {
    /// The source text that the token was read from.
    pub closed spec fn spec_source(&self) -> &'a str {
        self.source
    }

    /// What the token means.
    pub closed spec fn spec_value(&self) -> SpecTokenValue {
        self.value@
    }

    /// The part of the source that the token stands for.
    pub closed spec fn spec_text(&self) -> &'a str {
        self.text
    }

    pub fn value(&self) -> (r: &TokenValue<'a>)
        ensures
            r@ == self.spec_value(),
    {
        &self.value
    }

    pub fn source(&self) -> (r: &'a str)
        ensures
            r == self.spec_source(),
    {
        self.source
    }

    pub fn text(&self) -> (r: &'a str)
        ensures
            r == self.spec_text(),
    {
        self.text
    }
}

/// Reads tokens one at a time from a source text.
pub struct Lexer<'a> {
    source: &'a str,
    chars: Vec<char>,
    pos: usize,
}

fn char_is_space(c: char) -> (r: bool)
    ensures
        r == is_space(c),
{
    c == ' ' || c == '\t' || c == '\n' || c == '\x0C' || c == '\r'
}

fn char_is_digit(c: char) -> (r: bool)
    ensures
        r == is_digit(c),
{
    '0' <= c && c <= '9'
}

fn char_is_word_start(c: char) -> (r: bool)
    ensures
        r == is_word_start(c),
{
    ('a' <= c && c <= 'z') || ('A' <= c && c <= 'Z') || c == '_'
}

fn char_is_word_char(c: char) -> (r: bool)
    ensures
        r == is_word_char(c),
{
    ('a' <= c && c <= 'z') || ('A' <= c && c <= 'Z') || ('0' <= c && c <= '9') || c == '_'
}


/// Whether `chars[start..end]` spells `w`.
fn word_is(chars: &Vec<char>, start: usize, end: usize, w: &[char]) -> (r: bool)
    requires
        start <= end <= chars@.len(),
    ensures
        r == (chars@.subrange(start as int, end as int) == w@),
{
    if end - start != w.len() {
        proof {
            if chars@.subrange(start as int, end as int) == w@ {
                assert(chars@.subrange(start as int, end as int).len() == w@.len());
            }
        }
        return false;
    }
    let mut i: usize = 0;
    while i < w.len()
        invariant
            start <= end <= chars@.len(),
            end - start == w@.len(),
            0 <= i <= w@.len(),
            forall|k: int| 0 <= k < i ==> chars@[start + k] == w@[k],
        decreases w@.len() - i,
    {
        if chars[start + i] != w[i] {
            proof {
                if chars@.subrange(start as int, end as int) == w@ {
                    assert(chars@.subrange(start as int, end as int)[i as int] == w@[i as int]);
                }
            }
            return false;
        }
        i += 1;
    }
    assert(chars@.subrange(start as int, end as int) =~= w@);
    true
}

pub proof fn lemma_digits_value_step(s: Seq<char>, q: int, e: int)
    requires
        0 <= q < e <= s.len(),
    ensures
        digits_value(s.subrange(q, e)) == digits_value(s.subrange(q, e - 1)) * 10 + (s[e - 1] as int
            - '0' as int),
{
    assert(s.subrange(q, e).drop_last() =~= s.subrange(q, e - 1));
}

pub proof fn lemma_digits_value_nonneg(d: Seq<char>)
    requires
        forall|k: int| 0 <= k < d.len() ==> is_digit(#[trigger] d[k]),
    ensures
        digits_value(d) >= 0,
    decreases d.len(),
{
    if d.len() > 0 {
        lemma_digits_value_nonneg(d.drop_last());
    }
}

impl<'a> Lexer<'a> {
    /// The lexer's fields agree: `chars` holds the source's characters and the
    /// position lies within them.
    pub closed spec fn wf(&self) -> bool {
        &&& self.chars@ == self.source@
        &&& self.pos <= self.chars@.len()
    }

    pub closed spec fn spec_source(&self) -> &'a str {
        self.source
    }

    /// The position, in characters, where the next token is looked for.
    pub closed spec fn position(&self) -> int {
        self.pos as int
    }

    /// A valid lexer's position lies within its source.
    pub proof fn lemma_position_in_source(&self)
        requires
            self.wf(),
        ensures
            0 <= self.position() <= self.spec_source()@.len(),
    {
    }

    pub fn new(source: &'a str) -> (l: Self)
        ensures
            l.wf(),
            l.spec_source() == source,
            l.position() == 0,
            lex_from(source@, l.position()) == lex_all(source@),
    {
        Lexer { source: source, chars: chars_of(source), pos: 0 }
    }

    fn skip_whitespace(&mut self)
        requires
            old(self).wf(),
        ensures
            final(self).wf(),
            final(self).source == old(self).source,
            final(self).pos == skip_spaces(old(self).chars@, old(self).pos as int),
    {
        proof {
            lemma_skip_spaces(self.chars@, self.pos as int);
        }
        loop
            invariant
                self.wf(),
                self.source == old(self).source,
                skip_spaces(self.chars@, self.pos as int) == skip_spaces(
                    old(self).chars@,
                    old(self).pos as int,
                ),
            ensures
                self.wf(),
                self.source == old(self).source,
                self.pos == skip_spaces(old(self).chars@, old(self).pos as int),
            decreases self.chars@.len() - self.pos,
        {
            if self.pos >= self.chars.len() {
                break ;
            }
            if !char_is_space(self.chars[self.pos]) {
                break ;
            }
            self.pos = self.pos + 1;
        }
    }

    /// The token that the word `chars[start..end]` stands for.
    fn word_value(&self, start: usize, end: usize) -> (t: TokenValue<'a>)
        requires
            self.wf(),
            start <= end <= self.chars@.len(),
        ensures
            t@ == word_token(self.chars@.subrange(start as int, end as int)),
    {
        if word_is(&self.chars, start, end, &['p', 'r', 'o', 'c']) {
            TokenValue::PROC
        } else if word_is(&self.chars, start, end, &['f', 'n']) {
            TokenValue::FN
        } else if word_is(&self.chars, start, end, &['l', 'a', 'b', 'e', 'l']) {
            TokenValue::LABEL
        } else if word_is(&self.chars, start, end, &['o', 'p']) {
            TokenValue::OP
        } else if word_is(&self.chars, start, end, &['v', 'a', 'r']) {
            TokenValue::VAR
        } else if word_is(&self.chars, start, end, &['i', 'n']) {
            TokenValue::IN
        } else if word_is(&self.chars, start, end, &['o', 'u', 't']) {
            TokenValue::OUT
        } else {
            TokenValue::NAME(self.source.substring_char(start, end))
        }
    }
}


impl<'a> Lexer<'a> {
    /// One lexing step: `Ok(None)` at the end of the input, `Ok(Some(token))`,
    /// or `Err(())` where the input holds no valid token.
    fn scan(&mut self) -> (r: Result<Option<Token<'a>>, ()>)
        requires
            old(self).wf(),
        ensures
            final(self).wf(),
            final(self).source == old(self).source,
            match lex_at(old(self).chars@, old(self).pos as int) {
                Lexed::End => r matches Ok(None) && final(self).pos == old(self).chars@.len(),
                Lexed::Token { start, end, value } => {
                    &&& r matches Ok(Some(t))
                    &&& t.value@ == value
                    &&& t.text@ == old(self).source@.subrange(start, end)
                    &&& t.source == old(self).source
                    &&& final(self).pos == end
                },
                Lexed::Invalid => r is Err,
            },
    {
        let ghost s = self.chars@;
        proof {
            lemma_skip_spaces(s, self.pos as int);
        }
        self.skip_whitespace();
        let q = self.pos;
        let len = self.chars.len();
        if q >= len {
            return Ok(None);
        }
        let c = self.chars[q];
        let punct: Option<TokenValue<'a>> = if c == '(' {
            Some(TokenValue::LPAR)
        } else if c == ')' {
            Some(TokenValue::RPAR)
        } else if c == '{' {
            Some(TokenValue::LBR)
        } else if c == '}' {
            Some(TokenValue::RBR)
        } else if c == ',' {
            Some(TokenValue::COMMA)
        } else if c == '&' {
            Some(TokenValue::AMP)
        } else {
            None
        };
        if let Some(v) = punct {
            self.pos = q + 1;
            return Ok(
                Some(Token { source: self.source, text: self.source.substring_char(q, q + 1), value: v }),
            );
        }
        if c == '-' {
            if q + 1 < len && self.chars[q + 1] == '>' {
                self.pos = q + 2;
                return Ok(
                    Some(
                        Token {
                            source: self.source,
                            text: self.source.substring_char(q, q + 2),
                            value: TokenValue::ARROW,
                        },
                    ),
                );
            } else {
                return Err(());
            }
        }
        if char_is_word_start(c) {
            let mut e = q + 1;
            proof {
                lemma_word_end(s, q + 1);
            }
            while e < len && char_is_word_char(self.chars[e])
                invariant
                    self.wf(),
                    self.chars@ == s,
                    len == s.len(),
                    q + 1 <= e <= len,
                    word_end(s, e as int) == word_end(s, q + 1),
                decreases len - e,
            {
                e = e + 1;
            }
            let value = self.word_value(q, e);
            self.pos = e;
            return Ok(Some(Token { source: self.source, text: self.source.substring_char(q, e), value }));
        }
        if char_is_digit(c) {
            let mut e = q + 1;
            let mut v: u64 = (c as u32 - '0' as u32) as u64;
            proof {
                lemma_digits_end(s, q + 1);
                lemma_digits_value_step(s, q as int, q + 1);
                assert(s.subrange(q as int, q as int).len() == 0);
            }
            while e < len && char_is_digit(self.chars[e])
                invariant
                    self.wf(),
                    self.chars@ == s,
                    len == s.len(),
                    q + 1 <= e <= len,
                    is_digit(s[q as int]),
                    digits_end(s, e as int) == digits_end(s, q + 1),
                    forall|k: int| q <= k < e ==> is_digit(#[trigger] s[k]),
                    v == (if digits_value(s.subrange(q as int, e as int)) < 0x8000_0000 {
                        digits_value(s.subrange(q as int, e as int))
                    } else {
                        0x8000_0000
                    }),
                decreases len - e,
            {
                let d: u64 = (self.chars[e] as u32 - '0' as u32) as u64;
                proof {
                    lemma_digits_value_step(s, q as int, e + 1);
                    assert(s.subrange(q as int, e + 1).drop_last() == s.subrange(q as int, e as int));
                    lemma_digits_value_nonneg(s.subrange(q as int, e as int));
                }
                if v >= 0x8000_0000 {
                    v = 0x8000_0000;
                } else {
                    let w = v * 10 + d;
                    v = if w >= 0x8000_0000 { 0x8000_0000 } else { w };
                }
                e = e + 1;
            }
            if v <= 0x7fff_ffff {
                self.pos = e;
                return Ok(
                    Some(
                        Token {
                            source: self.source,
                            text: self.source.substring_char(q, e),
                            value: TokenValue::INT(v as i32),
                        },
                    ),
                );
            } else {
                return Err(());
            }
        }
        Err(())
    }
}

impl<'a> Lexer<'a> {
    /// Reads the next token, skipping the whitespace before it; `None` at the
    /// end of the source. The source must hold a valid token there (or only
    /// whitespace): a stray character, a `-` without `>` or a number over
    /// `i32::MAX` cannot be lexed.
    pub fn next(&mut self) -> (r: Option<Token<'a>>)
        requires
            old(self).wf(),
            !(lex_at(old(self).spec_source()@, old(self).position()) is Invalid),
        ensures
            final(self).wf(),
            final(self).spec_source() == old(self).spec_source(),
            0 <= final(self).position() <= final(self).spec_source()@.len(),
            // once the lexer returns `None` it keeps returning `None`
            r is None ==> lex_at(final(self).spec_source()@, final(self).position()) is End,
            match lex_at(old(self).spec_source()@, old(self).position()) {
                Lexed::End => r is None && final(self).position() == old(self).spec_source()@.len(),
                Lexed::Token { start, end, value } => {
                    &&& r matches Some(t)
                    &&& t.spec_value() == value
                    &&& t.spec_text()@ == old(self).spec_source()@.subrange(start, end)
                    &&& t.spec_source() == old(self).spec_source()
                    &&& final(self).position() == end
                },
                Lexed::Invalid => false,
            },
            // a name carries exactly the token's text
            r matches Some(t) ==> (t.spec_value() matches SpecTokenValue::NAME(n) ==> n == t.spec_text()@),
            // successive calls hand out the tokens that `lex_from` lists, in
            // order, and `None` once they are used up
            lex_from(old(self).spec_source()@, old(self).position()) matches Some(ts) ==> {
                &&& (r is None <==> ts.len() == 0)
                &&& ts.len() > 0 ==> {
                    &&& r matches Some(t)
                    &&& token_matches(t, old(self).spec_source(), ts[0])
                    &&& lex_from(final(self).spec_source()@, final(self).position()) == Some(ts.drop_first())
                }
            },
    {
        proof {
            lemma_end_of_input(self.chars@, self.pos as int);
            lemma_lex_at_bounds(self.chars@, self.pos as int);
            let s = self.chars@;
            let p = self.pos as int;
            if let Some(ts) = lex_from(s, p) {
                if let Lexed::Token { start, end, value } = lex_at(s, p) {
                    let rest = lex_from(s, end)->0;
                    assert(ts == seq![(start, end, value)] + rest);
                    assert(ts.drop_first() =~= rest);
                }
            }
        }
        match self.scan() {
            Ok(t) => t,
            Err(_) => None,
        }
    }
}

/// A token of `source` as the lexer's model describes it: its value and the
/// span `start..end` of its text.
pub open spec fn token_matches(t: Token, source: &str, spec: (int, int, SpecTokenValue)) -> bool {
    &&& t.spec_value() == spec.2
    &&& t.spec_text()@ == source@.subrange(spec.0, spec.1)
    &&& t.spec_source() == source
}

/// All tokens of `source`, or `None` where the source holds something that
/// cannot be lexed (the lexer would stop there).
pub fn tokenize<'a>(source: &'a str) -> (r: Option<Vec<Token<'a>>>)
    ensures
        match lex_all(source@) {
            None => r is None,
            Some(ts) => r matches Some(v) && v@.len() == ts.len() && forall|i: int|
                0 <= i < ts.len() ==> token_matches(#[trigger] v@[i], source, ts[i]),
        },
        // a name carries exactly the token's text
        r matches Some(v) ==> forall|i: int|
            0 <= i < v@.len() ==> (#[trigger] v@[i].spec_value() matches SpecTokenValue::NAME(n) ==> n
                == v@[i].spec_text()@),
{
    let mut lexer = Lexer::new(source);
    let mut out: Vec<Token<'a>> = Vec::new();
    let ghost s = source@;
    let ghost mut done: Seq<(int, int, SpecTokenValue)> = Seq::empty();
    proof {
        if lex_all(s) is Some {
            lemma_tokens_partition(s, 0);
        }
    }
    loop
        invariant
            s == source@,
            lexer.wf(),
            lexer.source == source,
            out@.len() == done.len(),
            forall|i: int| 0 <= i < done.len() ==> token_matches(#[trigger] out@[i], source, done[i]),
            lex_from(s, lexer.pos as int) matches Some(rest) ==> lex_all(s) == Some(done + rest),
            lex_from(s, lexer.pos as int) is None ==> lex_all(s) is None,
        ensures
            match lex_all(s) {
                None => false,
                Some(ts) => out@.len() == ts.len() && forall|i: int|
                    0 <= i < ts.len() ==> token_matches(#[trigger] out@[i], source, ts[i]),
            },
        decreases s.len() - lexer.pos,
    {
        let ghost p = lexer.pos as int;
        proof {
            lemma_lex_at_bounds(s, p);
        }
        match lexer.scan() {
            Err(_) => {
                return None;
            },
            Ok(None) => {
                assert(done + Seq::<(int, int, SpecTokenValue)>::empty() =~= done);
                break ;
            },
            Ok(Some(t)) => {
                let ghost item = match lex_at(s, p) {
                    Lexed::Token { start, end, value } => (start, end, value),
                    _ => arbitrary(),
                };
                proof {
                    if let Some(rest) = lex_from(s, lexer.pos as int) {
                        assert(done.push(item) + rest =~= done + (seq![item] + rest));
                    }
                    done = done.push(item);
                }
                out.push(t);
            },
        }
    }
    Some(out)
}

} // verus!
