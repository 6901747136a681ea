//! The lexer: it turns the lines of a source text into tokens.
use vstd::prelude::*;
use vstd::utf8::{valid_utf8, decode_utf8};
use crate::values::Operator;
use crate::values::literal::{Literal, LiteralV};
use crate::parsing::literals::{literal_of, parse_literal};
use crate::strings::{string_from_chars, string_clone};
use crate::parsing::text::{seqs, split_ws, split_whitespace};
use crate::parsing::words::{merged, merge_words};
use crate::values::tape::{ROData, grows, holds_text, lemma_grows_holds};
use crate::values::tape::constants::BLOCK_SIZE;
use crate::values::value::LiteralObject;

verus! {

#[derive(Clone, Copy, Debug, PartialEq, Eq, Structural)]
pub enum KeyWord {
    Tts,
    SetValue,
    DougChain(usize),
    Bald,
    Loop,
    Prediction,
    Believers,
    Doubters,
    Wins,
    Break,
}

#[derive(Clone, Copy, Debug, PartialEq, Eq, Structural)]
pub enum ParenThesis {
    Left,
    Right,
    SquareLeft,
    SquareRight,
    AngleLeft,
    AngleRight,
}

#[derive(Clone, Debug)]
pub enum Token {
    KeyWord(KeyWord),
    Operator(Operator),
    Paren(ParenThesis),
    Literal(Literal),
    Variable(String),
}

pub enum TokenV {
    KeyWord(KeyWord),
    Operator(Operator),
    Paren(ParenThesis),
    Literal(LiteralV),
    Variable(Seq<char>),
}

impl View for Token {
    type V = TokenV;

    open spec fn view(&self) -> TokenV {
        match self {
            Token::KeyWord(k) => TokenV::KeyWord(*k),
            Token::Operator(o) => TokenV::Operator(*o),
            Token::Paren(p) => TokenV::Paren(*p),
            Token::Literal(l) => TokenV::Literal(l@),
            Token::Variable(s) => TokenV::Variable(s@),
        }
    }
}

impl Token {
    /// A copy of this token.
    pub fn duplicate(&self) -> (r: Token)
        ensures
            r@ == self@,
    {
        match self {
            Token::KeyWord(k) => Token::KeyWord(*k),
            Token::Operator(o) => Token::Operator(*o),
            Token::Paren(p) => Token::Paren(*p),
            Token::Literal(l) => Token::Literal(l.duplicate()),
            Token::Variable(s) => Token::Variable(string_clone(s)),
        }
    }
}

#[derive(Clone, Debug)]
pub enum LexerError {
    InvalidToken(String),
    StringNotClosed,
    NoClosingBracket,
    InvalidNumber,
    EOFReached,
    BinaryFile,
    /// A word that holds a character outside ASCII was reached: the lexer
    /// cuts words at byte offsets and cannot read it.
    NotAscii(String),
}

pub enum LexerErrorV {
    InvalidToken(Seq<char>),
    StringNotClosed,
    NoClosingBracket,
    InvalidNumber,
    EOFReached,
    BinaryFile,
    NotAscii(Seq<char>),
}

impl View for LexerError {
    type V = LexerErrorV;

    open spec fn view(&self) -> LexerErrorV {
        match self {
            LexerError::InvalidToken(s) => LexerErrorV::InvalidToken(s@),
            LexerError::StringNotClosed => LexerErrorV::StringNotClosed,
            LexerError::NoClosingBracket => LexerErrorV::NoClosingBracket,
            LexerError::InvalidNumber => LexerErrorV::InvalidNumber,
            LexerError::EOFReached => LexerErrorV::EOFReached,
            LexerError::BinaryFile => LexerErrorV::BinaryFile,
            LexerError::NotAscii(s) => LexerErrorV::NotAscii(s@),
        }
    }
}

impl LexerError {
    /// A copy of this error.
    pub fn duplicate(&self) -> (r: LexerError)
        ensures
            r@ == self@,
    {
        match self {
            LexerError::InvalidToken(s) => LexerError::InvalidToken(string_clone(s)),
            LexerError::StringNotClosed => LexerError::StringNotClosed,
            LexerError::NoClosingBracket => LexerError::NoClosingBracket,
            LexerError::InvalidNumber => LexerError::InvalidNumber,
            LexerError::EOFReached => LexerError::EOFReached,
            LexerError::BinaryFile => LexerError::BinaryFile,
            LexerError::NotAscii(s) => LexerError::NotAscii(string_clone(s)),
        }
    }
}

/// `s` is the four characters `Doug`.
pub open spec fn is_doug(s: Seq<char>) -> bool {
    s.len() == 4 && s[0] == 'D' && s[1] == 'o' && s[2] == 'u' && s[3] == 'g'
}

/// The token that a single character spells, if any.
pub open spec fn token1(c: char) -> Option<TokenV> {
    if c == '(' {
        Some(TokenV::Paren(ParenThesis::Left))
    } else if c == ')' {
        Some(TokenV::Paren(ParenThesis::Right))
    } else if c == '[' {
        Some(TokenV::Paren(ParenThesis::SquareLeft))
    } else if c == ']' {
        Some(TokenV::Paren(ParenThesis::SquareRight))
    } else if c == '+' {
        Some(TokenV::Operator(Operator::Plus))
    } else if c == '-' {
        Some(TokenV::Operator(Operator::Minus))
    } else if c == '*' {
        Some(TokenV::Operator(Operator::Multiply))
    } else if c == '/' {
        Some(TokenV::Operator(Operator::Divide))
    } else if c == '>' {
        Some(TokenV::Operator(Operator::Greater))
    } else if c == '<' {
        Some(TokenV::Operator(Operator::Less))
    } else {
        None
    }
}

/// The token that two characters spell, if any.
pub open spec fn token2(a: char, b: char) -> Option<TokenV> {
    if a == '<' && b == '<' {
        Some(TokenV::Paren(ParenThesis::AngleLeft))
    } else if a == '>' && b == '>' {
        Some(TokenV::Paren(ParenThesis::AngleRight))
    } else if a == '=' && b == '=' {
        Some(TokenV::Operator(Operator::Equals))
    } else if a == '<' && b == '=' {
        Some(TokenV::Operator(Operator::LessEquals))
    } else if a == '>' && b == '=' {
        Some(TokenV::Operator(Operator::GreaterEquals))
    } else {
        None
    }
}

/// The token that the text `s` spells on its own, if any: `tts`, `set`,
/// `Doug`, `Bald`, `loop`, `prediction`, `Believers`, `Doubters`, `win`,
/// `break`, a bracket `( ) [ ] << >>` or an operator
/// `+ - * / > < == <= >=`.
pub open spec fn token_of(s: Seq<char>) -> Option<TokenV> {
    if s.len() == 1 {
        token1(s[0])
    } else if s.len() == 2 {
        token2(s[0], s[1])
    } else if s.len() == 3 && s[0] == 't' && s[1] == 't' && s[2] == 's' {
        Some(TokenV::KeyWord(KeyWord::Tts))
    } else if s.len() == 3 && s[0] == 's' && s[1] == 'e' && s[2] == 't' {
        Some(TokenV::KeyWord(KeyWord::SetValue))
    } else if s.len() == 3 && s[0] == 'w' && s[1] == 'i' && s[2] == 'n' {
        Some(TokenV::KeyWord(KeyWord::Wins))
    } else if is_doug(s) {
        Some(TokenV::KeyWord(KeyWord::DougChain(1)))
    } else if s.len() == 4 && s[0] == 'B' && s[1] == 'a' && s[2] == 'l' && s[3] == 'd' {
        Some(TokenV::KeyWord(KeyWord::Bald))
    } else if s.len() == 4 && s[0] == 'l' && s[1] == 'o' && s[2] == 'o' && s[3] == 'p' {
        Some(TokenV::KeyWord(KeyWord::Loop))
    } else if s.len() == 5 && s[0] == 'b' && s[1] == 'r' && s[2] == 'e' && s[3] == 'a' && s[4]
        == 'k' {
        Some(TokenV::KeyWord(KeyWord::Break))
    } else if s.len() == 8 && s[0] == 'D' && s[1] == 'o' && s[2] == 'u' && s[3] == 'b' && s[4]
        == 't' && s[5] == 'e' && s[6] == 'r' && s[7] == 's' {
        Some(TokenV::KeyWord(KeyWord::Doubters))
    } else if s.len() == 9 && s[0] == 'B' && s[1] == 'e' && s[2] == 'l' && s[3] == 'i' && s[4]
        == 'e' && s[5] == 'v' && s[6] == 'e' && s[7] == 'r' && s[8] == 's' {
        Some(TokenV::KeyWord(KeyWord::Believers))
    } else if s.len() == 10 && s[0] == 'p' && s[1] == 'r' && s[2] == 'e' && s[3] == 'd' && s[4]
        == 'i' && s[5] == 'c' && s[6] == 't' && s[7] == 'i' && s[8] == 'o' && s[9] == 'n' {
        Some(TokenV::KeyWord(KeyWord::Prediction))
    } else {
        None
    }
}

/// Whether `w[i..j]` is the text `lit`.
fn seg_is(w: &Vec<char>, i: usize, j: usize, lit: &[char]) -> (r: bool)
    requires
        i <= j <= w.len(),
    ensures
        r == (j - i == lit.len() && forall|k: int| 0 <= k < lit.len() ==> w@[i + k] == lit@[k]),
{
    if j - i != lit.len() {
        return false;
    }
    let mut k: usize = 0;
    while k < lit.len()
        invariant
            k <= lit.len(),
            lit.len() == j - i,
            i <= j <= w.len(),
            forall|m: int| 0 <= m < k ==> w@[i + m] == lit@[m],
        decreases lit.len() - k,
    {
        if w[i + k] != lit[k] {
            return false;
        }
        k = k + 1;
    }
    true
}

/// The token that `w[i..j]` spells on its own, if any.
fn match_token(w: &Vec<char>, i: usize, j: usize) -> (r: Option<Token>)
    requires
        i <= j <= w.len(),
    ensures
        match r {
            Some(t) => token_of(w@.subrange(i as int, j as int)) == Some(t@),
            None => token_of(w@.subrange(i as int, j as int)) is None,
        },
{
    let ghost s = w@.subrange(i as int, j as int);
    let n = j - i;
    if n == 1 {
        assert(s[0] == w@[i as int]);
        let c = w[i];
        if c == '(' {
            Some(Token::Paren(ParenThesis::Left))
        } else if c == ')' {
            Some(Token::Paren(ParenThesis::Right))
        } else if c == '[' {
            Some(Token::Paren(ParenThesis::SquareLeft))
        } else if c == ']' {
            Some(Token::Paren(ParenThesis::SquareRight))
        } else if c == '+' {
            Some(Token::Operator(Operator::Plus))
        } else if c == '-' {
            Some(Token::Operator(Operator::Minus))
        } else if c == '*' {
            Some(Token::Operator(Operator::Multiply))
        } else if c == '/' {
            Some(Token::Operator(Operator::Divide))
        } else if c == '>' {
            Some(Token::Operator(Operator::Greater))
        } else if c == '<' {
            Some(Token::Operator(Operator::Less))
        } else {
            None
        }
    } else if n == 2 {
        assert(s[0] == w@[i as int] && s[1] == w@[i + 1]);
        let a = w[i];
        let b = w[i + 1];
        if a == '<' && b == '<' {
            Some(Token::Paren(ParenThesis::AngleLeft))
        } else if a == '>' && b == '>' {
            Some(Token::Paren(ParenThesis::AngleRight))
        } else if a == '=' && b == '=' {
            Some(Token::Operator(Operator::Equals))
        } else if a == '<' && b == '=' {
            Some(Token::Operator(Operator::LessEquals))
        } else if a == '>' && b == '=' {
            Some(Token::Operator(Operator::GreaterEquals))
        } else {
            None
        }
    } else {
        proof {
            assert forall|k: int| 0 <= k < n implies s[k] == w@[i + k] by {}
        }
        if seg_is(w, i, j, &['t', 't', 's']) {
            Some(Token::KeyWord(KeyWord::Tts))
        } else if seg_is(w, i, j, &['s', 'e', 't']) {
            Some(Token::KeyWord(KeyWord::SetValue))
        } else if seg_is(w, i, j, &['w', 'i', 'n']) {
            Some(Token::KeyWord(KeyWord::Wins))
        } else if seg_is(w, i, j, &['D', 'o', 'u', 'g']) {
            Some(Token::KeyWord(KeyWord::DougChain(1)))
        } else if seg_is(w, i, j, &['B', 'a', 'l', 'd']) {
            Some(Token::KeyWord(KeyWord::Bald))
        } else if seg_is(w, i, j, &['l', 'o', 'o', 'p']) {
            Some(Token::KeyWord(KeyWord::Loop))
        } else if seg_is(w, i, j, &['b', 'r', 'e', 'a', 'k']) {
            Some(Token::KeyWord(KeyWord::Break))
        } else if seg_is(w, i, j, &['D', 'o', 'u', 'b', 't', 'e', 'r', 's']) {
            Some(Token::KeyWord(KeyWord::Doubters))
        } else if seg_is(w, i, j, &['B', 'e', 'l', 'i', 'e', 'v', 'e', 'r', 's']) {
            Some(Token::KeyWord(KeyWord::Believers))
        } else if seg_is(w, i, j, &['p', 'r', 'e', 'd', 'i', 'c', 't', 'i', 'o', 'n']) {
            Some(Token::KeyWord(KeyWord::Prediction))
        } else {
            None
        }
    }
}

pub open spec fn is_ascii_text(w: Seq<char>) -> bool {
    forall|k: int| 0 <= k < w.len() ==> (#[trigger] w[k] as u32) < 128
}

/// `Doug` starts at index `i` of `w`.
pub open spec fn is_doug_at(w: Seq<char>, i: int) -> bool {
    0 <= i && i + 4 <= w.len() && is_doug(w.subrange(i, i + 4))
}

/// How many `Doug`s follow one another from index `i` of `w`.
pub open spec fn doug_run(w: Seq<char>, i: int) -> nat
    decreases w.len() - i,
{
    if is_doug_at(w, i) {
        1 + doug_run(w, i + 4)
    } else {
        0
    }
}

/// The largest `j'` with `i < j' <= j` such that `w[i..j']` is a token, or
/// `i` when there is none.
pub open spec fn best_end(w: Seq<char>, i: int, j: int) -> int
    decreases j - i,
{
    if j <= i {
        i
    } else if token_of(w.subrange(i, j)) is Some {
        j
    } else {
        best_end(w, i, j - 1)
    }
}

pub proof fn lemma_best_end(w: Seq<char>, i: int, j: int)
    requires
        0 <= i,
        j <= w.len(),
    ensures
        i <= best_end(w, i, j),
        best_end(w, i, j) <= j || best_end(w, i, j) == i,
        best_end(w, i, j) > i ==> token_of(w.subrange(i, best_end(w, i, j))) is Some,
        forall|k: int|
            best_end(w, i, j) < k <= j ==> #[trigger] token_of(w.subrange(i, k)) is None,
    decreases j - i,
{
    if j > i && token_of(w.subrange(i, j)) is None {
        lemma_best_end(w, i, j - 1);
    }
}

pub proof fn lemma_doug_run(w: Seq<char>, i: int)
    requires
        0 <= i <= w.len(),
    ensures
        i + 4 * doug_run(w, i) <= w.len(),
        is_doug_at(w, i) ==> doug_run(w, i) >= 1,
    decreases w.len() - i,
{
    if is_doug_at(w, i) {
        lemma_doug_run(w, i + 4);
    }
}

/// The tokens read from `w` starting at index `i`, matching the longest
/// token at each step (a run of `Doug`s makes one chain), and the index at
/// which no token could be matched any more.
pub open spec fn lex_tokens(w: Seq<char>, i: int) -> (Seq<TokenV>, int)
    decreases w.len() - i,
{
    if i < 0 || i >= w.len() {
        (seq![], i)
    } else {
        let j = best_end(w, i, w.len() as int);
        proof {
            lemma_best_end(w, i, w.len() as int);
        }
        if j <= i {
            (seq![], i)
        } else if is_doug(w.subrange(i, j)) {
            let c = doug_run(w, i);
            proof {
                assert(w.subrange(i, i + 4) =~= w.subrange(i, j));
                lemma_doug_run(w, i);
            }
            let rest = lex_tokens(w, i + 4 * c);
            (seq![TokenV::KeyWord(KeyWord::DougChain(c as usize))] + rest.0, rest.1)
        } else {
            let rest = lex_tokens(w, j);
            (seq![token_of(w.subrange(i, j))->0] + rest.0, rest.1)
        }
    }
}

pub open spec fn oks(ts: Seq<TokenV>) -> Seq<Result<TokenV, LexerErrorV>> {
    ts.map_values(|t: TokenV| Ok(t))
}

/// What one word lexes to: its tokens, followed by an error for the rest
/// that does not start with a token; a word that starts with no token at all
/// is a literal, or else a variable name. A word that holds a character
/// outside ASCII cannot be read.
pub open spec fn word_tokens(w: Seq<char>) -> Seq<Result<TokenV, LexerErrorV>> {
    let (ts, e) = lex_tokens(w, 0);
    if !is_ascii_text(w) {
        seq![Err(LexerErrorV::NotAscii(w))]
    } else if e == 0 {
        match literal_of(w) {
            Some(l) => seq![Ok(TokenV::Literal(l))],
            None => seq![Ok(TokenV::Variable(w))],
        }
    } else if e < w.len() {
        oks(ts) + seq![Err(LexerErrorV::InvalidToken(w.skip(e)))]
    } else {
        oks(ts)
    }
}

pub open spec fn results_view(v: Seq<Result<Token, LexerError>>) -> Seq<Result<TokenV, LexerErrorV>> {
    v.map_values(
        |r: Result<Token, LexerError>|
            match r {
                Ok(t) => Ok(t@),
                Err(e) => Err(e@),
            },
    )
}

pub open spec fn tokens_view(v: Seq<Token>) -> Seq<TokenV> {
    v.map_values(|t: Token| t@)
}

fn is_ascii_word(w: &Vec<char>) -> (r: bool)
    ensures
        r == is_ascii_text(w@),
{
    let mut k: usize = 0;
    while k < w.len()
        invariant
            k <= w.len(),
            forall|m: int| 0 <= m < k ==> (w@[m] as u32) < 128,
        decreases w.len() - k,
    {
        if (w[k] as u32) >= 128 {
            return false;
        }
        k = k + 1;
    }
    true
}

proof fn lemma_lex_tokens_unfold(w: Seq<char>, i: int)
    requires
        0 <= i < w.len(),
    ensures
        ({
            let j = best_end(w, i, w.len() as int);
            &&& j <= i ==> lex_tokens(w, i) == (Seq::<TokenV>::empty(), i)
            &&& (j > i && is_doug(w.subrange(i, j))) ==> lex_tokens(w, i) == (seq![
                TokenV::KeyWord(KeyWord::DougChain(doug_run(w, i) as usize)),
            ] + lex_tokens(w, i + 4 * doug_run(w, i)).0, lex_tokens(
                w,
                i + 4 * doug_run(w, i),
            ).1)
            &&& (j > i && !is_doug(w.subrange(i, j))) ==> lex_tokens(w, i) == (seq![
                token_of(w.subrange(i, j))->0,
            ] + lex_tokens(w, j).0, lex_tokens(w, j).1)
        }),
{
}

/// The text literal that the word `w` lexes to, if it lexes to one.
pub open spec fn text_literal(w: Seq<char>) -> Option<Seq<char>> {
    if is_ascii_text(w) && lex_tokens(w, 0).1 == 0 {
        match literal_of(w) {
            Some(LiteralV::String(t)) => Some(t),
            _ => None,
        }
    } else {
        None
    }
}

/// The token `t` is no text literal, or `objects` hold its text.
pub open spec fn token_text_held(t: TokenV, objects: Map<usize, LiteralObject>) -> bool {
    match t {
        TokenV::Literal(LiteralV::String(x)) => holds_text(objects, x),
        _ => true,
    }
}

/// `objects` hold the text of every text literal among `ts`.
pub open spec fn texts_held(ts: Seq<TokenV>, objects: Map<usize, LiteralObject>) -> bool {
    forall|k: int| 0 <= k < ts.len() ==> token_text_held(#[trigger] ts[k], objects)
}

proof fn lemma_texts_grow(ts: Seq<TokenV>, before: Map<usize, LiteralObject>, after: Map<usize, LiteralObject>)
    requires
        texts_held(ts, before),
        grows(before, after),
    ensures
        texts_held(ts, after),
{
    assert forall|k: int| 0 <= k < ts.len() implies token_text_held(#[trigger] ts[k], after) by {
        if let TokenV::Literal(LiteralV::String(x)) = ts[k] {
            lemma_grows_holds(before, after, x);
        }
    }
}

/// The tokens that `lex_tokens` reads are never literals.
proof fn lemma_lex_tokens_no_literal(w: Seq<char>, i: int, objects: Map<usize, LiteralObject>)
    ensures
        texts_held(lex_tokens(w, i).0, objects),
    decreases w.len() - i,
{
    if 0 <= i < w.len() {
        let j = best_end(w, i, w.len() as int);
        lemma_best_end(w, i, w.len() as int);
        if j > i {
            let next = if is_doug(w.subrange(i, j)) {
                lemma_doug_run(w, i);
                i + 4 * doug_run(w, i)
            } else {
                j
            };
            lemma_lex_tokens_no_literal(w, next, objects);
            let rest = lex_tokens(w, next).0;
            let t = lex_tokens(w, i).0;
            assert forall|k: int| 0 <= k < t.len() implies token_text_held(#[trigger] t[k], objects) by {
                if k > 0 {
                    assert(t[k] == rest[k - 1]);
                }
            }
        }
    }
}

/// What a word's lexing results collect to holds no text literal but the
/// word's own.
proof fn lemma_word_texts(w: Seq<char>, objects: Map<usize, LiteralObject>)
    requires
        text_literal(w) matches Some(t) ==> holds_text(objects, t),
    ensures
        collect(word_tokens(w)) matches Ok(ts) ==> texts_held(ts, objects),
{
    let (ts, e) = lex_tokens(w, 0);
    lemma_lex_tokens_no_literal(w, 0, objects);
    lemma_collect_oks(ts);
    if !is_ascii_text(w) {
        let rs = word_tokens(w);
        assert(rs[0] is Err);
    } else if e == 0 {
        let rs = word_tokens(w);
        assert(rs.len() == 1);
        assert(rs.drop_first() =~= Seq::<Result<TokenV, LexerErrorV>>::empty());
        assert(rs[0] is Ok);
        let t = rs[0]->Ok_0;
        assert(collect(rs.drop_first()) == Ok::<Seq<TokenV>, LexerErrorV>(Seq::<TokenV>::empty()));
        assert(collect(rs) == Ok::<Seq<TokenV>, LexerErrorV>(seq![t] + Seq::<TokenV>::empty()));
        assert(seq![t] + Seq::<TokenV>::empty() =~= seq![t]);
        assert(token_text_held(t, objects));
    } else if e < w.len() {
        lemma_collect_oks_err(ts, LexerErrorV::InvalidToken(w.skip(e)));
    }
}

proof fn lemma_collect_oks(ts: Seq<TokenV>)
    ensures
        collect(oks(ts)) == Ok::<Seq<TokenV>, LexerErrorV>(ts),
    decreases ts.len(),
{
    if ts.len() > 0 {
        lemma_collect_oks(ts.drop_first());
        assert(oks(ts).len() == ts.len());
        assert(oks(ts).drop_first() =~= oks(ts.drop_first()));
        assert(oks(ts)[0] == Ok::<TokenV, LexerErrorV>(ts[0]));
        assert(collect(oks(ts)) == prepend(seq![ts[0]], collect(oks(ts).drop_first())));
        assert(seq![ts[0]] + ts.drop_first() =~= ts);
    } else {
        assert(oks(ts) =~= Seq::<Result<TokenV, LexerErrorV>>::empty());
        assert(ts =~= Seq::<TokenV>::empty());
    }
}

proof fn lemma_collect_oks_err(ts: Seq<TokenV>, e: LexerErrorV)
    ensures
        collect(oks(ts) + seq![Err::<TokenV, LexerErrorV>(e)]) == Err::<Seq<TokenV>, LexerErrorV>(e),
    decreases ts.len(),
{
    if ts.len() > 0 {
        lemma_collect_oks_err(ts.drop_first(), e);
        assert((oks(ts) + seq![Err::<TokenV, LexerErrorV>(e)])[0] == Ok::<TokenV, LexerErrorV>(ts[0]));
        assert((oks(ts) + seq![Err::<TokenV, LexerErrorV>(e)]).drop_first() =~= oks(ts.drop_first())
            + seq![Err::<TokenV, LexerErrorV>(e)]);
    } else {
        assert(oks(ts) + seq![Err::<TokenV, LexerErrorV>(e)] =~= seq![Err::<TokenV, LexerErrorV>(e)]);
    }
}

/// Reads the tokens of one word (see [`word_tokens`]); a text literal is
/// also kept in the read-only data `data`, unless its heap has no room.
pub fn from_word(w: &Vec<char>, data: &mut ROData) -> (r: Vec<Result<Token, LexerError>>)
    requires
        old(data).wf(),
    ensures
        results_view(r@) == word_tokens(w@),
        final(data).wf(),
        old(data).next_block() <= final(data).next_block() <= old(data).next_block() + BLOCK_SIZE,
        grows(old(data).contents(), final(data).contents()),
        text_literal(w@) is None ==> final(data).contents() == old(data).contents(),
        text_literal(w@) matches Some(t) ==> final(data).exhausted() || holds_text(
            final(data).contents(),
            t,
        ),
{
    if !is_ascii_word(w) {
        let r = vec![Err(LexerError::NotAscii(string_from_chars(w)))];
        assert(results_view(r@) =~= word_tokens(w@));
        return r;
    }
    let n = w.len();
    let mut toks: Vec<Token> = Vec::new();
    let mut i: usize = 0;
    loop
        invariant
            i <= n == w.len(),
            tokens_view(toks@) + lex_tokens(w@, i as int).0 == lex_tokens(w@, 0).0,
            lex_tokens(w@, i as int).1 == lex_tokens(w@, 0).1,
            i == 0 ==> toks@.len() == 0,
        ensures
            i <= n,
            tokens_view(toks@) == lex_tokens(w@, 0).0,
            i == lex_tokens(w@, 0).1,
            i == 0 ==> toks@.len() == 0,
        decreases n - i,
    {
        if i >= n {
            assert(tokens_view(toks@) + Seq::<TokenV>::empty() =~= tokens_view(toks@));
            break;
        }
        proof {
            lemma_best_end(w@, i as int, n as int);
            lemma_lex_tokens_unfold(w@, i as int);
        }
        // Find the longest token that starts at `i`.
        let mut j: usize = n;
        let mut found: Option<Token> = None;
        while j > i
            invariant_except_break
                found is None,
            invariant
                i < n == w.len(),
                i <= j <= n,
                best_end(w@, i as int, n as int) == best_end(w@, i as int, j as int),
            ensures
                i <= j <= n,
                best_end(w@, i as int, n as int) == best_end(w@, i as int, j as int),
                found is None ==> j == i,
                found matches Some(t) ==> j > i && token_of(w@.subrange(i as int, j as int)) == Some(
                    t@,
                ),
            decreases j - i,
        {
            let t = match_token(w, i, j);
            if t.is_some() {
                found = t;
                break;
            }
            j = j - 1;
        }
        match found {
            None => {
                assert(best_end(w@, i as int, n as int) == i);
                assert(tokens_view(toks@) + Seq::<TokenV>::empty() =~= tokens_view(toks@));
                break;
            },
            Some(tok) => {
                assert(best_end(w@, i as int, n as int) == j);
                let ghost before = tokens_view(toks@);
                if j - i == 4 && w[i] == 'D' && w[i + 1] == 'o' && w[i + 2] == 'u' && w[i + 3]
                    == 'g' {
                    assert(is_doug(w@.subrange(i as int, j as int)));
                    proof {
                        lemma_doug_run(w@, i as int);
                    }
                    let mut c: usize = 0;
                    let mut k: usize = i;
                    while n - k >= 4 && w[k] == 'D' && w[k + 1] == 'o' && w[k + 2] == 'u' && w[k
                        + 3] == 'g'
                        invariant
                            i <= k <= n == w.len(),
                            k == i + 4 * c,
                            doug_run(w@, i as int) == c + doug_run(w@, k as int),
                            i + 4 * doug_run(w@, i as int) <= n,
                        decreases n - k,
                    {
                        assert(is_doug_at(w@, k as int));
                        c = c + 1;
                        k = k + 4;
                    }
                    assert(!is_doug_at(w@, k as int));
                    toks.push(Token::KeyWord(KeyWord::DougChain(c)));
                    assert(tokens_view(toks@) =~= before.push(
                        TokenV::KeyWord(KeyWord::DougChain(c)),
                    ));
                    i = k;
                } else {
                    proof {
                        if is_doug(w@.subrange(i as int, j as int)) {
                            assert(w@.subrange(i as int, j as int)[0] == w@[i as int]);
                            assert(w@.subrange(i as int, j as int)[1] == w@[i + 1]);
                            assert(w@.subrange(i as int, j as int)[2] == w@[i + 2]);
                            assert(w@.subrange(i as int, j as int)[3] == w@[i + 3]);
                        }
                    }
                    toks.push(tok);
                    assert(tokens_view(toks@) =~= before.push(
                        token_of(w@.subrange(i as int, j as int))->0,
                    ));
                    i = j;
                }
                assert(tokens_view(toks@) + lex_tokens(w@, i as int).0 =~= before + lex_tokens(
                    w@,
                    0,
                ).0.skip(before.len() as int)) by {
                    assert(before + lex_tokens(w@, 0).0.skip(before.len() as int) =~= lex_tokens(
                        w@,
                        0,
                    ).0);
                }
            },
        }
    }
    let mut r: Vec<Result<Token, LexerError>> = Vec::new();
    if i == 0 {
        match parse_literal(w) {
            Some(l) => {
                if let Literal::String(t) = &l {
                    let _ = data.allocate_text(string_clone(t));
                }
                r.push(Ok(Token::Literal(l)));
            },
            None => r.push(Ok(Token::Variable(string_from_chars(w)))),
        }
        assert(results_view(r@) =~= word_tokens(w@));
        return r;
    }
    let mut k: usize = 0;
    while k < toks.len()
        invariant
            k <= toks.len(),
            results_view(r@) == oks(tokens_view(toks@).take(k as int)),
        decreases toks.len() - k,
    {
        let ghost before = r@;
        let d = toks[k].duplicate();
        r.push(Ok(d));
        proof {
            assert(r@ =~= before.push(Ok(d)));
            assert(results_view(r@) =~= results_view(before).push(Ok(toks@[k as int]@)));
            assert(tokens_view(toks@).take(k + 1) =~= tokens_view(toks@).take(k as int).push(
                toks@[k as int]@,
            ));
        }
        k = k + 1;
        assert(results_view(r@) =~= oks(tokens_view(toks@).take(k as int)));
    }
    assert(k == toks.len());
    assert(tokens_view(toks@).len() == toks@.len());
    assert(tokens_view(toks@).take(k as int) =~= tokens_view(toks@));
    if i < n {
        let mut rest: Vec<char> = Vec::new();
        let mut m: usize = i;
        while m < n
            invariant
                i <= m <= n == w.len(),
                rest@ == w@.subrange(i as int, m as int),
            decreases n - m,
        {
            rest.push(w[m]);
            m = m + 1;
            assert(rest@ =~= w@.subrange(i as int, m as int));
        }
        assert(rest@ =~= w@.skip(i as int));
        let ghost before = results_view(r@);
        r.push(Err(LexerError::InvalidToken(string_from_chars(&rest))));
        assert(results_view(r@) =~= before.push(
            Err(LexerErrorV::InvalidToken(w@.skip(i as int))),
        ));
    }
    assert(results_view(r@) =~= word_tokens(w@));
    r
}

/// The tokens of a sequence of lexing results, or the first error among them.
pub open spec fn collect(rs: Seq<Result<TokenV, LexerErrorV>>) -> Result<Seq<TokenV>, LexerErrorV>
    decreases rs.len(),
{
    if rs.len() == 0 {
        Ok(seq![])
    } else {
        match rs[0] {
            Err(e) => Err(e),
            Ok(t) => prepend(seq![t], collect(rs.drop_first())),
        }
    }
}

/// `ts` in front of the tokens of `r`, or the error of `r`.
pub open spec fn prepend(ts: Seq<TokenV>, r: Result<Seq<TokenV>, LexerErrorV>) -> Result<
    Seq<TokenV>,
    LexerErrorV,
> {
    match r {
        Ok(x) => Ok(ts + x),
        Err(e) => Err(e),
    }
}

/// The tokens of the words `ws`, read word by word, or the first error.
pub open spec fn lex_words(ws: Seq<Seq<char>>) -> Result<Seq<TokenV>, LexerErrorV>
    decreases ws.len(),
{
    if ws.len() == 0 {
        Ok(seq![])
    } else {
        match collect(word_tokens(ws[0])) {
            Err(e) => Err(e),
            Ok(ts) => prepend(ts, lex_words(ws.drop_first())),
        }
    }
}

/// The words that the lexer reads from a line of text.
pub open spec fn line_words(line: Seq<char>) -> Seq<Seq<char>> {
    merged(split_ws(line))
}

/// The tokens of a line of text, or the first error.
pub open spec fn lex_text_spec(line: Seq<char>) -> Result<Seq<TokenV>, LexerErrorV> {
    lex_words(line_words(line))
}

proof fn lemma_prepend_assoc(a: Seq<TokenV>, b: Seq<TokenV>, r: Result<Seq<TokenV>, LexerErrorV>)
    ensures
        prepend(a, prepend(b, r)) == prepend(a + b, r),
{
    match r {
        Ok(x) => {
            assert(a + (b + x) =~= (a + b) + x);
        },
        Err(e) => {},
    }
}

/// Appends the tokens of `rs` to `out`, stopping at the first error, which
/// it returns.
fn collect_into(rs: &Vec<Result<Token, LexerError>>, out: &mut Vec<Token>) -> (err: Option<
    LexerError,
>)
    ensures
        match collect(results_view(rs@)) {
            Ok(ts) => err is None && tokens_view(final(out)@) == tokens_view(old(out)@) + ts,
            Err(e) => err matches Some(x) && x@ == e,
        },
{
    let ghost rv = results_view(rs@);
    let ghost base = tokens_view(out@);
    let mut q: usize = 0;
    assert(rv.skip(0) =~= rv);
    assert(base + Seq::<TokenV>::empty() =~= base);
    proof {
        lemma_prepend_assoc(base, seq![], collect(rv));
    }
    while q < rs.len()
        invariant
            q <= rs.len(),
            rv == results_view(rs@),
            prepend(base, collect(rv)) == prepend(tokens_view(out@), collect(rv.skip(q as int))),
        decreases rs.len() - q,
    {
        assert(rv.skip(q as int)[0] == rv[q as int]);
        assert(rv.skip(q as int).drop_first() =~= rv.skip(q + 1));
        match &rs[q] {
            Ok(t) => {
                let ghost before = tokens_view(out@);
                out.push(t.duplicate());
                assert(tokens_view(out@) =~= before + seq![t@]);
                proof {
                    lemma_prepend_assoc(before, seq![t@], collect(rv.skip(q + 1)));
                }
            },
            Err(e) => {
                return Some(e.duplicate());
            },
        }
        q = q + 1;
    }
    assert(rv.skip(q as int) =~= Seq::<Result<TokenV, LexerErrorV>>::empty());
    assert(tokens_view(out@) + Seq::<TokenV>::empty() =~= tokens_view(out@));
    None
}

/// Reads the tokens of a line of text (see [`lex_text_spec`]); its text
/// literals are also kept in the read-only data `data`, unless its heap has
/// no room.
pub fn lex_text(line: &Vec<char>, data: &mut ROData) -> (r: Result<Vec<Token>, LexerError>)
    requires
        old(data).wf(),
    ensures
        match r {
            Ok(ts) => lex_text_spec(line@) == Ok::<Seq<TokenV>, LexerErrorV>(tokens_view(ts@)),
            Err(e) => lex_text_spec(line@) == Err::<Seq<TokenV>, LexerErrorV>(e@),
        },
        final(data).wf(),
        old(data).next_block() <= final(data).next_block(),
        grows(old(data).contents(), final(data).contents()),
        r matches Ok(ts) ==> (!final(data).exhausted() ==> texts_held(
            tokens_view(ts@),
            final(data).contents(),
        )),
{
    let split = split_whitespace(line);
    let words = merge_words(&split);
    let ghost ws = seqs(words@);
    let mut out: Vec<Token> = Vec::new();
    let mut m: usize = 0;
    assert(ws.skip(0) =~= ws);
    assert(Seq::<TokenV>::empty() + Seq::<TokenV>::empty() =~= Seq::<TokenV>::empty());
    proof {
        lemma_prepend_assoc(seq![], seq![], lex_words(ws));
    }
    while m < words.len()
        invariant
            m <= words.len(),
            ws == seqs(words@),
            ws == line_words(line@),
            lex_words(ws) == prepend(tokens_view(out@), lex_words(ws.skip(m as int))),
            data.wf(),
            old(data).next_block() <= data.next_block(),
            grows(old(data).contents(), data.contents()),
            !data.exhausted() ==> texts_held(tokens_view(out@), data.contents()),
        decreases words.len() - m,
    {
        let ghost w = ws[m as int];
        assert(ws.skip(m as int)[0] == w);
        assert(ws.skip(m as int).drop_first() =~= ws.skip(m + 1));
        assert(words@[m as int]@ == w);
        let ghost d0 = data.contents();
        let ghost held0 = !data.exhausted();
        let rs = from_word(&words[m], data);
        proof {
            if !data.exhausted() {
                lemma_texts_grow(tokens_view(out@), d0, data.contents());
                lemma_word_texts(w, data.contents());
            }
        }
        let ghost before = tokens_view(out@);
        match collect_into(&rs, &mut out) {
            Some(e) => {
                return Err(e);
            },
            None => {
                proof {
                    let ts = collect(word_tokens(w))->Ok_0;
                    assert(tokens_view(out@) == before + ts);
                    assert(tokens_view(out@).skip(before.len() as int) =~= ts);
                    lemma_prepend_assoc(
                        before,
                        tokens_view(out@).skip(before.len() as int),
                        lex_words(ws.skip(m + 1)),
                    );
                }
                assert(before + tokens_view(out@).skip(before.len() as int) =~= tokens_view(
                    out@,
                ));
                proof {
                    if !data.exhausted() {
                        let ts = collect(word_tokens(w))->Ok_0;
                        assert forall|k: int| 0 <= k < tokens_view(out@).len() implies token_text_held(
                            #[trigger] tokens_view(out@)[k],
                            data.contents(),
                        ) by {
                            if k >= before.len() {
                                assert(tokens_view(out@)[k] == ts[k - before.len()]);
                            } else {
                                assert(tokens_view(out@)[k] == before[k]);
                            }
                        }
                    }
                }
            },
        }
        m = m + 1;
    }
    assert(ws.skip(m as int) =~= Seq::<Seq<char>>::empty());
    assert(tokens_view(out@) + Seq::<TokenV>::empty() =~= tokens_view(out@));
    Ok(out)
}

/// The index of the first byte `x` in `b`, or `b.len()`.
pub open spec fn first_byte(b: Seq<u8>, x: u8) -> int
    decreases b.len(),
{
    if b.len() == 0 {
        0
    } else if b[0] == x {
        0
    } else {
        1 + first_byte(b.drop_first(), x)
    }
}

/// How many bytes a read up to and including the delimiter `x` takes from
/// `b` (all of `b` when it holds no `x`).
pub open spec fn read_len(b: Seq<u8>, x: u8) -> int {
    if first_byte(b, x) < b.len() {
        first_byte(b, x) + 1
    } else {
        b.len() as int
    }
}

pub proof fn lemma_first_byte(b: Seq<u8>, x: u8)
    ensures
        0 <= first_byte(b, x) <= b.len(),
        forall|k: int| 0 <= k < first_byte(b, x) ==> b[k] != x,
        first_byte(b, x) < b.len() ==> b[first_byte(b, x)] == x,
    decreases b.len(),
{
    if b.len() > 0 && b[0] != x {
        lemma_first_byte(b.drop_first(), x);
        assert forall|k: int| 0 <= k < first_byte(b, x) implies b[k] != x by {
            if k > 0 {
                assert(b[k] == b.drop_first()[k - 1]);
            }
        }
    }
}

pub proof fn lemma_read_len(b: Seq<u8>, x: u8)
    ensures
        0 <= read_len(b, x) <= b.len(),
        b.len() > 0 ==> read_len(b, x) > 0,
{
    lemma_first_byte(b, x);
}

/// What reading one line after another takes from `b` until a line gives
/// tokens, an error comes, or the text ends: the outcome, and how many bytes
/// were read.
pub open spec fn lex_line_spec(b: Seq<u8>) -> (Result<Seq<TokenV>, LexerErrorV>, int)
    decreases b.len(),
{
    let n = read_len(b, 10u8);
    let line = b.take(n);
    proof {
        lemma_read_len(b, 10u8);
    }
    if n <= 0 {
        (Err(LexerErrorV::EOFReached), 0)
    } else if !valid_utf8(line) {
        (Err(LexerErrorV::EOFReached), n)
    } else {
        match lex_text_spec(decode_utf8(line)) {
            Err(e) => (Err(e), n),
            Ok(ts) => if ts.len() > 0 {
                (Ok(ts), n)
            } else {
                let rest = lex_line_spec(b.skip(n));
                (rest.0, n + rest.1)
            },
        }
    }
}

pub proof fn lemma_lex_line_consumed(b: Seq<u8>)
    ensures
        0 <= lex_line_spec(b).1 <= b.len(),
    decreases b.len(),
{
    let n = read_len(b, 10u8);
    lemma_read_len(b, 10u8);
    if n > 0 {
        lemma_lex_line_consumed(b.skip(n));
    }
}

/// What reading up to and including the next `]` takes from `b`: the tokens
/// of that text, or an error (also when the text ends with no `]`), and how
/// many bytes were read.
pub open spec fn lex_block_spec(b: Seq<u8>) -> (Result<Seq<TokenV>, LexerErrorV>, int) {
    let n = read_len(b, 93u8);
    let text = b.take(n);
    if n <= 0 {
        (Err(LexerErrorV::EOFReached), 0)
    } else if first_byte(b, 93u8) >= b.len() {
        (Err(LexerErrorV::NoClosingBracket), n)
    } else if !valid_utf8(text) {
        (Err(LexerErrorV::BinaryFile), n)
    } else {
        (lex_text_spec(decode_utf8(text)), n)
    }
}

/// Reads tokens from a source text, one line (or one bracketed block) at a
/// time.
pub struct Lexer {
    /// The bytes of the source text.
    source: Vec<u8>,
    /// How many of them have been read.
    pos: usize,
    /// The read-only data that the text literals are kept in.
    data: ROData,
}

impl Lexer {
    #[verifier::type_invariant]
    spec fn wf(self) -> bool {
        &&& self.pos <= self.source.len()
        &&& self.data.wf()
    }

    /// The read-only data that the text literals read so far are kept in.
    pub closed spec fn data(&self) -> ROData {
        self.data
    }

    /// The bytes not read yet.
    pub closed spec fn remaining(&self) -> Seq<u8> {
        self.source@.skip(self.pos as int)
    }

    /// A lexer that reads the source text `source` and keeps its text
    /// literals in `data`.
    pub fn new(source: Vec<u8>, data: ROData) -> (l: Lexer)
        requires
            data.wf(),
        ensures
            l.remaining() == source@,
            l.data() == data,
    {
        let l = Lexer { source, pos: 0, data };
        assert(l.source@.skip(0) =~= l.source@);
        l
    }

    /// Reads the tokens of `chars` (see [`lex_text`]), keeping its text
    /// literals in the lexer's read-only data.
    fn lex_chars(&mut self, chars: &Vec<char>) -> (r: Result<Vec<Token>, LexerError>)
        ensures
            match r {
                Ok(ts) => lex_text_spec(chars@) == Ok::<Seq<TokenV>, LexerErrorV>(tokens_view(ts@)),
                Err(e) => lex_text_spec(chars@) == Err::<Seq<TokenV>, LexerErrorV>(e@),
            },
            final(self).remaining() == old(self).remaining(),
            old(self).data().next_block() <= final(self).data().next_block(),
            grows(old(self).data().contents(), final(self).data().contents()),
            r matches Ok(ts) ==> (!final(self).data().exhausted() ==> texts_held(
                tokens_view(ts@),
                final(self).data().contents(),
            )),
    {
        proof {
            use_type_invariant(&*self);
        }
        let mut d = ROData::empty();
        std::mem::swap(&mut d, &mut self.data);
        let r = lex_text(chars, &mut d);
        std::mem::swap(&mut d, &mut self.data);
        r
    }

    /// The read-only data that the lexer kept its text literals in.
    pub fn into_data(self) -> (d: ROData)
        ensures
            d == self.data(),
            d.wf(),
    {
        proof {
            use_type_invariant(&self);
        }
        self.data
    }

    /// Takes the bytes up to and including the next `x` (or to the end).
    fn read_until(&mut self, x: u8) -> (r: Vec<u8>)
        ensures
            r@ == old(self).remaining().take(read_len(old(self).remaining(), x)),
            final(self).remaining() == old(self).remaining().skip(
                read_len(old(self).remaining(), x),
            ),
            final(self).data() == old(self).data(),
    {
        proof {
            use_type_invariant(&*self);
            lemma_first_byte(self.remaining(), x);
        }
        let ghost rem = self.remaining();
        let mut r: Vec<u8> = Vec::new();
        let start = self.pos;
        let mut k = self.pos;
        let n = self.source.len();
        while k < n && self.source[k] != x
            invariant
                start <= k <= n == self.source.len(),
                start == self.pos,
                rem == self.source@.skip(start as int),
                r@ == self.source@.subrange(start as int, k as int),
                forall|m: int| start <= m < k ==> self.source@[m] != x,
            decreases n - k,
        {
            r.push(self.source[k]);
            k = k + 1;
            assert(r@ =~= self.source@.subrange(start as int, k as int));
        }
        proof {
            assert forall|m: int| 0 <= m < k - start implies rem[m] != x by {
                assert(rem[m] == self.source@[start + m]);
            }
            if k < n {
                assert(rem[k - start] == x);
                if first_byte(rem, x) < k - start {
                    assert(rem[first_byte(rem, x)] == x);
                }
                assert(first_byte(rem, x) == k - start);
            } else {
                if first_byte(rem, x) < rem.len() {
                    assert(rem[first_byte(rem, x)] == x);
                }
                assert(first_byte(rem, x) == rem.len());
            }
        }
        if k < n {
            r.push(self.source[k]);
            k = k + 1;
            assert(r@ =~= self.source@.subrange(start as int, k as int));
        }
        self.pos = k;
        assert(r@ =~= rem.take(read_len(rem, x)));
        assert(self.remaining() =~= rem.skip(read_len(rem, x)));
        r
    }

    /// Reads lines until one of them holds tokens, and returns those tokens
    /// (see [`lex_line_spec`]).
    pub fn lex_line(&mut self) -> (r: Result<Vec<Token>, LexerError>)
        ensures
            old(self).data().next_block() <= final(self).data().next_block(),
            grows(old(self).data().contents(), final(self).data().contents()),
            r matches Ok(ts) ==> (!final(self).data().exhausted() ==> texts_held(
                tokens_view(ts@),
                final(self).data().contents(),
            )),
            match r {
                Ok(ts) => lex_line_spec(old(self).remaining()).0 == Ok::<
                    Seq<TokenV>,
                    LexerErrorV,
                >(tokens_view(ts@)),
                Err(e) => lex_line_spec(old(self).remaining()).0 == Err::<
                    Seq<TokenV>,
                    LexerErrorV,
                >(e@),
            },
            final(self).remaining() == old(self).remaining().skip(
                lex_line_spec(old(self).remaining()).1,
            ),
    {
        let ghost start = self.remaining();
        assert(start.skip(0) =~= start);
        loop
            invariant
                start == old(self).remaining(),
                start.len() >= self.remaining().len(),
                old(self).data().next_block() <= self.data().next_block(),
                grows(old(self).data().contents(), self.data().contents()),
                lex_line_spec(start).0 == lex_line_spec(self.remaining()).0,
                start.skip(lex_line_spec(start).1) == self.remaining().skip(
                    lex_line_spec(self.remaining()).1,
                ),
            decreases self.remaining().len(),
        {
            let ghost rem = self.remaining();
            proof {
                lemma_read_len(rem, 10u8);
            }
            let line = self.read_until(10u8);
            let ghost n = read_len(rem, 10u8);
            if line.len() == 0 {
                assert(rem.skip(0) =~= rem);
                return Err(LexerError::EOFReached);
            }
            let chars = match crate::strings::decode_utf8_chars(line.as_slice()) {
                Some(c) => c,
                None => {
                    return Err(LexerError::EOFReached);
                },
            };
            match self.lex_chars(&chars) {
                Err(e) => {
                    return Err(e);
                },
                Ok(ts) => {
                    if ts.len() > 0 {
                        return Ok(ts);
                    }
                    proof {
                        lemma_lex_line_consumed(rem.skip(n));
                    }
                    assert(rem.skip(n).skip(lex_line_spec(rem.skip(n)).1) =~= rem.skip(
                        n + lex_line_spec(rem.skip(n)).1,
                    ));
                },
            }
        }
    }

    /// Reads up to and including the next `]` and returns the tokens of that
    /// text (see [`lex_block_spec`]).
    pub fn lex_block(&mut self) -> (r: Result<Vec<Token>, LexerError>)
        ensures
            old(self).data().next_block() <= final(self).data().next_block(),
            grows(old(self).data().contents(), final(self).data().contents()),
            r matches Ok(ts) ==> (!final(self).data().exhausted() ==> texts_held(
                tokens_view(ts@),
                final(self).data().contents(),
            )),
            match r {
                Ok(ts) => lex_block_spec(old(self).remaining()).0 == Ok::<
                    Seq<TokenV>,
                    LexerErrorV,
                >(tokens_view(ts@)),
                Err(e) => lex_block_spec(old(self).remaining()).0 == Err::<
                    Seq<TokenV>,
                    LexerErrorV,
                >(e@),
            },
            final(self).remaining() == old(self).remaining().skip(
                lex_block_spec(old(self).remaining()).1,
            ),
    {
        let ghost rem = self.remaining();
        proof {
            lemma_read_len(rem, 93u8);
        }
        let block = self.read_until(93u8);
        if block.len() == 0 {
            assert(rem.skip(0) =~= rem);
            return Err(LexerError::EOFReached);
        }
        proof {
            lemma_first_byte(rem, 93u8);
            if first_byte(rem, 93u8) < rem.len() {
                assert(block@[block.len() - 1] == rem[first_byte(rem, 93u8)]);
            } else {
                assert(block@[block.len() - 1] == rem[block.len() - 1]);
            }
        }
        if block[block.len() - 1] != 93u8 {
            return Err(LexerError::NoClosingBracket);
        }
        let chars = match crate::strings::decode_utf8_chars(block.as_slice()) {
            Some(c) => c,
            None => {
                return Err(LexerError::BinaryFile);
            },
        };
        self.lex_chars(&chars)
    }
}

pub proof fn lemma_lex_line_ok(b: Seq<u8>)
    ensures
        lex_line_spec(b).0 is Ok ==> lex_line_spec(b).0->Ok_0.len() > 0 && 1 <= lex_line_spec(
            b,
        ).1,
        0 <= lex_line_spec(b).1 <= b.len(),
    decreases b.len(),
{
    let n = read_len(b, 10u8);
    lemma_read_len(b, 10u8);
    lemma_lex_line_consumed(b);
    if n > 0 {
        lemma_lex_line_ok(b.skip(n));
    }
}

} // verus!
