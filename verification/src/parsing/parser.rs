//! The parser: it turns the tokens of a source text into a tree of nodes.
use vstd::prelude::*;
use std::collections::VecDeque;
use crate::values::Operator;
use crate::values::literal::{Literal, LiteralV};
use crate::parsing::lexer::{
    Lexer, Token, TokenV, KeyWord, ParenThesis, LexerError, LexerErrorV, lex_line_spec,
    lemma_lex_line_ok, tokens_view,
};
use crate::strings::string_clone;
use crate::values::tape::ROData;

verus! {

#[derive(Clone, Copy, Debug, PartialEq, Eq, Structural)]
pub struct DougChain {
    pub count: usize,
}

/// Which form of the language the parser reads: the standard one, or the
/// `xaelia` one, which adds named variables (`<< name Doug.. >>`, `name set
/// ..`) and expressions with any operator.
#[derive(Clone, Copy, Debug, PartialEq, Eq, Structural)]
pub enum Dialect {
    Standard,
    Xaelia,
}

#[derive(Debug)]
pub enum Expression {
    DougSequence(Vec<DougChain>),
    Variable(String),
    RSequence { left: Box<Expression>, op: Option<Operator>, right: Option<Box<Expression>> },
    Literal(Literal),
}

pub enum ExprV {
    DougSequence(Seq<DougChain>),
    Variable(Seq<char>),
    RSequence { left: Box<ExprV>, op: Option<Operator>, right: Option<Box<ExprV>> },
    Literal(LiteralV),
}

pub open spec fn expr_view(e: Expression) -> ExprV
    decreases e,
{
    match e {
        Expression::DougSequence(c) => ExprV::DougSequence(c@),
        Expression::Variable(s) => ExprV::Variable(s@),
        Expression::RSequence { left, op, right } => ExprV::RSequence {
            left: Box::new(expr_view(*left)),
            op,
            right: match right {
                Some(r) => Some(Box::new(expr_view(*r))),
                None => None,
            },
        },
        Expression::Literal(l) => ExprV::Literal(l@),
    }
}

impl View for Expression {
    type V = ExprV;

    open spec fn view(&self) -> ExprV {
        expr_view(*self)
    }
}

/// A copy of the chains.
pub fn copy_chains(c: &Vec<DougChain>) -> (r: Vec<DougChain>)
    ensures
        r@ == c@,
{
    let mut v: Vec<DougChain> = Vec::new();
    let mut k: usize = 0;
    while k < c.len()
        invariant
            k <= c@.len(),
            v@ == c@.take(k as int),
        decreases c@.len() - k,
    {
        v.push(c[k]);
        assert(c@.take(k + 1) =~= c@.take(k as int).push(c@[k as int]));
        k = k + 1;
    }
    assert(c@.take(k as int) =~= c@);
    v
}

impl Expression {
    /// A copy of the expression.
    pub fn duplicate(&self) -> (r: Expression)
        ensures
            r@ == self@,
        decreases self,
    {
        match self {
            Expression::DougSequence(c) => Expression::DougSequence(copy_chains(c)),
            Expression::Variable(s) => Expression::Variable(string_clone(s)),
            Expression::RSequence { left, op, right } => {
                let l = (**left).duplicate();
                let r = match right {
                    Some(b) => Some(Box::new((**b).duplicate())),
                    None => None,
                };
                Expression::RSequence { left: Box::new(l), op: *op, right: r }
            },
            Expression::Literal(l) => Expression::Literal(l.duplicate()),
        }
    }
}

pub struct Parser {
    lexer: Option<Lexer>,
    tokens: VecDeque<Token>,
    column: u16,
    row: u16,
    dialect: Dialect,
    halted: bool,
}

#[derive(Debug)]
pub enum ASTNode {
    Doug { chains: Vec<DougChain>, reset: bool },
    Tts { msg: Option<Expression>, use_index: bool },
    SetValue { value: Expression, op: Option<Operator> },
    Declare { name: String, ptr: Vec<DougChain> },
    Modify { name: String, op: Option<Operator>, value: Expression },
    Loop { body: Vec<ASTNode> },
    Prediction { believers_body: Vec<ASTNode>, doubters_body: Vec<ASTNode>, condition: Expression },
    Break,
}

pub enum NodeV {
    Doug { chains: Seq<DougChain>, reset: bool },
    Tts { msg: Option<ExprV>, use_index: bool },
    SetValue { value: ExprV, op: Option<Operator> },
    Declare { name: Seq<char>, ptr: Seq<DougChain> },
    Modify { name: Seq<char>, op: Option<Operator>, value: ExprV },
    Loop { body: Seq<NodeV> },
    Prediction { believers_body: Seq<NodeV>, doubters_body: Seq<NodeV>, condition: ExprV },
    Break,
}

pub open spec fn node_view(n: ASTNode) -> NodeV
    decreases n, 0nat,
{
    match n {
        ASTNode::Doug { chains, reset } => NodeV::Doug { chains: chains@, reset },
        ASTNode::Tts { msg, use_index } => NodeV::Tts {
            msg: match msg {
                Some(m) => Some(expr_view(m)),
                None => None,
            },
            use_index,
        },
        ASTNode::SetValue { value, op } => NodeV::SetValue { value: expr_view(value), op },
        ASTNode::Declare { name, ptr } => NodeV::Declare { name: name@, ptr: ptr@ },
        ASTNode::Modify { name, op, value } => NodeV::Modify {
            name: name@,
            op,
            value: expr_view(value),
        },
        ASTNode::Loop { body } => NodeV::Loop { body: nodes_view(body@) },
        ASTNode::Prediction { believers_body, doubters_body, condition } => NodeV::Prediction {
            believers_body: nodes_view(believers_body@),
            doubters_body: nodes_view(doubters_body@),
            condition: expr_view(condition),
        },
        ASTNode::Break => NodeV::Break,
    }
}

pub open spec fn nodes_view(s: Seq<ASTNode>) -> Seq<NodeV>
    decreases s, 1nat,
{
    if s.len() == 0 {
        seq![]
    } else {
        nodes_view(s.drop_last()).push(node_view(s.last()))
    }
}

/// What a syntax error reports it found: a token, or a description.
#[derive(Debug)]
pub enum Found {
    Token(Token),
    Text(String),
}

pub enum FoundV {
    Token(TokenV),
    Text(Seq<char>),
}

impl View for Found {
    type V = FoundV;

    open spec fn view(&self) -> FoundV {
        match self {
            Found::Token(t) => FoundV::Token(t@),
            Found::Text(s) => FoundV::Text(s@),
        }
    }
}

#[derive(Debug)]
pub enum SyntaxError {
    Expected(String, Found, u16, u16),
    Unexpected(Found, u16, u16),
    Lexer(LexerError, u16, u16),
    NotPrintable,
    NoMoreTokens(u16, u16),
    BreakFromExprTree,
    WrongDialect(String),
}

pub enum SynV {
    Expected(Seq<char>, FoundV, u16, u16),
    Unexpected(FoundV, u16, u16),
    Lexer(LexerErrorV, u16, u16),
    NotPrintable,
    NoMoreTokens(u16, u16),
    BreakFromExprTree,
    WrongDialect(Seq<char>),
}

impl View for SyntaxError {
    type V = SynV;

    open spec fn view(&self) -> SynV {
        match self {
            SyntaxError::Expected(e, f, r, c) => SynV::Expected(e@, f@, *r, *c),
            SyntaxError::Unexpected(f, r, c) => SynV::Unexpected(f@, *r, *c),
            SyntaxError::Lexer(e, r, c) => SynV::Lexer(e@, *r, *c),
            SyntaxError::NotPrintable => SynV::NotPrintable,
            SyntaxError::NoMoreTokens(r, c) => SynV::NoMoreTokens(*r, *c),
            SyntaxError::BreakFromExprTree => SynV::BreakFromExprTree,
            SyntaxError::WrongDialect(s) => SynV::WrongDialect(s@),
        }
    }
}

/// The state of a parse: the tokens read but not consumed, the bytes not
/// read yet, whether there is a source at all, the position counters, and
/// whether the lexer has reached a word outside ASCII, where reading the
/// source cannot go on (the parse that follows counts for nothing).
pub struct PState {
    pub queue: Seq<TokenV>,
    pub rest: Seq<u8>,
    pub has_source: bool,
    pub row: u16,
    pub column: u16,
    pub halted: bool,
}

/// One more, wrapping at `u16::MAX`.
pub open spec fn inc(x: u16) -> u16 {
    if x == u16::MAX {
        0
    } else {
        (x + 1) as u16
    }
}

/// Parse states are ordered by the bytes left to read, then by the tokens
/// left to consume.
pub open spec fn pm_lt(a: PState, b: PState) -> bool {
    a.rest.len() < b.rest.len() || (a.rest.len() == b.rest.len() && a.queue.len() < b.queue.len())
}

pub open spec fn pm_le(a: PState, b: PState) -> bool {
    pm_lt(a, b) || (a.rest.len() == b.rest.len() && a.queue.len() == b.queue.len())
}

pub open spec fn spec_peek(s: PState) -> Result<TokenV, SynV> {
    if s.queue.len() > 0 {
        Ok(s.queue[0])
    } else {
        Err(SynV::NoMoreTokens(s.row, s.column))
    }
}

pub open spec fn spec_peek_two(s: PState) -> Option<TokenV> {
    if s.queue.len() > 1 {
        Some(s.queue[1])
    } else {
        None
    }
}

/// Reading one more line of tokens into the queue.
pub open spec fn spec_add_line(s: PState) -> (Result<(), SynV>, PState) {
    if !s.has_source {
        (Err(SynV::Lexer(LexerErrorV::EOFReached, s.row, s.column)), s)
    } else {
        let (r, n) = lex_line_spec(s.rest);
        let s1 = PState { rest: s.rest.skip(n), ..s };
        match r {
            Err(e) => (
                Err(SynV::Lexer(e, s.row, s.column)),
                PState { halted: s.halted || e is NotAscii, ..s1 },
            ),
            Ok(ts) => (Ok(()), PState { queue: s1.queue + ts, ..s1 }),
        }
    }
}

/// Taking the next token, reading a new line (a new row) when none is left.
pub open spec fn spec_consume(s: PState) -> (Result<TokenV, SynV>, PState) {
    let s1 = PState { column: inc(s.column), ..s };
    if s1.queue.len() > 0 {
        (Ok(s1.queue[0]), PState { queue: s1.queue.drop_first(), ..s1 })
    } else {
        let s2 = PState { row: inc(s1.row), column: 0, ..s1 };
        let (r, s3) = spec_add_line(s2);
        match r {
            Err(e) => (Err(e), s3),
            Ok(_) => (Ok(s3.queue[0]), PState { queue: s3.queue.drop_first(), ..s3 }),
        }
    }
}

pub proof fn lemma_consume(s: PState)
    ensures
        pm_le(spec_consume(s).1, s),
        spec_consume(s).0 is Ok ==> pm_lt(spec_consume(s).1, s),
        s.queue.len() > 0 ==> spec_consume(s) == (Ok::<TokenV, SynV>(s.queue[0]), PState {
            queue: s.queue.drop_first(),
            column: inc(s.column),
            ..s
        }),
        spec_consume(s).1.has_source == s.has_source,
{
    if s.queue.len() == 0 && s.has_source {
        lemma_lex_line_ok(s.rest);
    }
}

impl Parser {
    /// The state of the parse, as the parse functions see it.
    pub closed spec fn pstate(&self) -> PState {
        PState {
            queue: tokens_view(self.tokens@),
            rest: match self.lexer {
                Some(l) => l.remaining(),
                None => seq![],
            },
            has_source: self.lexer is Some,
            row: self.row,
            column: self.column,
            halted: self.halted,
        }
    }

    pub closed spec fn dialect_of(&self) -> Dialect {
        self.dialect
    }

    /// A parser with no source yet, reading the given dialect.
    pub fn with_dialect(dialect: Dialect) -> (p: Parser)
        ensures
            p.dialect_of() == dialect,
            p.pstate() == (PState {
                queue: seq![],
                rest: seq![],
                has_source: false,
                row: 0,
                column: 0,
                halted: false,
            }),
    {
        let p = Parser {
            column: 0,
            row: 0,
            lexer: None,
            tokens: VecDeque::new(),
            dialect,
            halted: false,
        };
        assert(tokens_view(p.tokens@) =~= Seq::<TokenV>::empty());
        p
    }

    /// A parser with no source yet, reading the `xaelia` dialect.
    pub fn new() -> (p: Parser)
        ensures
            p.dialect_of() == Dialect::Xaelia,
            p.pstate() == (PState {
                queue: seq![],
                rest: seq![],
                has_source: false,
                row: 0,
                column: 0,
                halted: false,
            }),
    {
        Parser::with_dialect(Dialect::Xaelia)
    }

    fn add_line(&mut self) -> (r: Result<(), SyntaxError>)
        ensures
            final(self).dialect_of() == old(self).dialect_of(),
            (match r {
                Ok(u) => Ok::<(), SynV>(u),
                Err(e) => Err::<(), SynV>(e@),
            }, final(self).pstate()) == spec_add_line(old(self).pstate()),
    {
        let row = self.row;
        let column = self.column;
        let taken = self.lexer.take();
        match taken {
            None => Err(SyntaxError::Lexer(LexerError::EOFReached, row, column)),
            Some(mut lexer) => {
                let res = lexer.lex_line();
                self.lexer = Some(lexer);
                match res {
                    Err(e) => {
                        if let LexerError::NotAscii(_) = e {
                            self.halted = true;
                        }
                        Err(SyntaxError::Lexer(e, row, column))
                    },
                    Ok(ts) => {
                        let ghost before = tokens_view(self.tokens@);
                        let mut k: usize = 0;
                        while k < ts.len()
                            invariant
                                k <= ts.len(),
                                tokens_view(self.tokens@) == before + tokens_view(ts@).take(
                                    k as int,
                                ),
                                self.lexer == Some(lexer),
                                self.row == row,
                                self.column == column,
                                self.dialect == old(self).dialect,
                                self.halted == old(self).halted,
                            decreases ts.len() - k,
                        {
                            let ghost q0 = self.tokens@;
                            let d = ts[k].duplicate();
                            self.tokens.push_back(d);
                            assert(self.tokens@ =~= q0.push(d));
                            assert(tokens_view(self.tokens@) =~= tokens_view(q0).push(d@));
                            assert(tokens_view(ts@).take(k + 1) =~= tokens_view(ts@).take(
                                k as int,
                            ).push(ts@[k as int]@));
                            k = k + 1;
                            assert(tokens_view(self.tokens@) =~= before + tokens_view(ts@).take(
                                k as int,
                            ));
                        }
                        assert(tokens_view(ts@).take(k as int) =~= tokens_view(ts@));
                        Ok(())
                    },
                }
            },
        }
    }

    /// Takes the next token, reading a new line when none is left.
    fn consume(&mut self) -> (r: Result<Token, SyntaxError>)
        ensures
            final(self).dialect_of() == old(self).dialect_of(),
            (match r {
                Ok(t) => Ok::<TokenV, SynV>(t@),
                Err(e) => Err::<TokenV, SynV>(e@),
            }, final(self).pstate()) == spec_consume(old(self).pstate()),
    {
        self.column = if self.column == u16::MAX {
            0
        } else {
            self.column + 1
        };
        if self.tokens.len() == 0 {
            self.row = if self.row == u16::MAX {
                0
            } else {
                self.row + 1
            };
            self.column = 0;
            self.add_line()?;
            proof {
                lemma_lex_line_ok(old(self).pstate().rest);
            }
        }
        let ghost q = self.tokens@;
        let t = self.tokens.pop_front();
        match t {
            Some(t) => {
                assert(tokens_view(self.tokens@) =~= tokens_view(q).drop_first());
                Ok(t)
            },
            None => Err(SyntaxError::NoMoreTokens(self.row, self.column)),
        }
    }
}

impl Default for Parser {
    /// A parser with no source yet, reading the `xaelia` dialect.
    fn default() -> (p: Parser)
        ensures
            p.dialect_of() == Dialect::Xaelia,
            p.pstate() == (PState {
                queue: seq![],
                rest: seq![],
                has_source: false,
                row: 0,
                column: 0,
                halted: false,
            }),
    {
        Parser::new()
    }
}

pub open spec fn tok_res(r: Result<Token, SyntaxError>) -> Result<TokenV, SynV> {
    match r {
        Ok(t) => Ok(t@),
        Err(e) => Err(e@),
    }
}

pub open spec fn chains_res(r: Result<Vec<DougChain>, SyntaxError>) -> Result<Seq<DougChain>, SynV> {
    match r {
        Ok(c) => Ok(c@),
        Err(e) => Err(e@),
    }
}

pub open spec fn unit_res(r: Result<(), SyntaxError>) -> Result<(), SynV> {
    match r {
        Ok(u) => Ok(u),
        Err(e) => Err(e@),
    }
}

pub open spec fn expr_res(r: Result<Expression, SyntaxError>) -> Result<ExprV, SynV> {
    match r {
        Ok(e) => Ok(e@),
        Err(e) => Err(e@),
    }
}

pub open spec fn node_res(r: Result<ASTNode, SyntaxError>) -> Result<NodeV, SynV> {
    match r {
        Ok(n) => Ok(node_view(n)),
        Err(e) => Err(e@),
    }
}

pub open spec fn set_res(r: Result<(Expression, Option<Operator>), SyntaxError>) -> Result<
    (ExprV, Option<Operator>),
    SynV,
> {
    match r {
        Ok((e, o)) => Ok((e@, o)),
        Err(e) => Err(e@),
    }
}

/// Reading the chain counts of a Doug sequence: `Doug` chains up to a closing
/// `)` or `>>` (which stays unread) or to the end of the tokens read so far.
pub open spec fn spec_doug_expr(s: PState, acc: Seq<DougChain>) -> (Result<Seq<DougChain>, SynV>, PState)
    decreases s.queue.len(),
{
    match spec_peek(s) {
        Err(_) => (Ok(acc), s),
        Ok(t) => match t {
            TokenV::KeyWord(KeyWord::DougChain(c)) => {
                proof {
                    lemma_consume(s);
                }
                spec_doug_expr(spec_consume(s).1, acc.push(DougChain { count: c }))
            },
            TokenV::Paren(ParenThesis::Right) => (Ok(acc), s),
            TokenV::Paren(ParenThesis::AngleRight) => (Ok(acc), s),
            _ => (Err(SynV::Expected("Doug, Closing Brace"@, FoundV::Token(t), s.row, s.column)), s),
        },
    }
}

/// The `Doug` chains that follow a `Bald` or `Doug` statement.
pub open spec fn spec_doug_tail(s: PState, chains: Seq<DougChain>, reset: bool) -> (Result<NodeV, SynV>, PState)
    decreases s.queue.len(),
{
    match spec_peek(s) {
        Ok(TokenV::KeyWord(KeyWord::DougChain(c))) => {
            proof {
                lemma_consume(s);
            }
            spec_doug_tail(spec_consume(s).1, chains.push(DougChain { count: c }), reset)
        },
        _ => (Ok(NodeV::Doug { chains, reset }), s),
    }
}

/// A statement that starts with `Bald` (back to index 0) or a `Doug` chain.
pub open spec fn spec_doug_node(s: PState, tok: TokenV) -> (Result<NodeV, SynV>, PState) {
    match tok {
        TokenV::KeyWord(KeyWord::Bald) => spec_doug_tail(s, seq![], true),
        TokenV::KeyWord(KeyWord::DougChain(c)) => spec_doug_tail(s, seq![DougChain { count: c }], false),
        _ => (Err(SynV::Expected("Bald, Doug"@, FoundV::Token(tok), s.row, s.column)), s),
    }
}

/// Consuming the next token, which must be `want`; `text` names it in the
/// error otherwise.
pub open spec fn spec_expect(s: PState, want: TokenV, text: Seq<char>) -> (Result<(), SynV>, PState) {
    let (r, s1) = spec_consume(s);
    match r {
        Err(e) => (Err(e), s1),
        Ok(t) => if t == want {
            (Ok(()), s1)
        } else {
            (Err(SynV::Expected(text, FoundV::Token(t), s1.row, s1.column)), s1)
        },
    }
}

/// The left operand of an expression.
pub open spec fn spec_left(s: PState, x: bool) -> (Result<ExprV, SynV>, PState)
    decreases s.rest.len(), s.queue.len(), 1nat,
{
    match spec_peek(s) {
        Err(_) => (Err(SynV::BreakFromExprTree), s),
        Ok(t) => match t {
            TokenV::Paren(ParenThesis::Left) => {
                proof {
                    lemma_consume(s);
                }
                let a = spec_consume(s).1;
                let (e, b) = spec_parse_expr(a, x);
                match e {
                    Err(err) => (Err(err), b),
                    Ok(inner) => {
                        let (r, c) = spec_expect(b, TokenV::Paren(ParenThesis::Right), ")"@);
                        match r {
                            Err(err) => (Err(err), c),
                            Ok(_) => (Ok(inner), c),
                        }
                    },
                }
            },
            TokenV::Literal(l) => (Ok(ExprV::Literal(l)), spec_consume(s).1),
            TokenV::KeyWord(KeyWord::DougChain(_)) => {
                let (r, b) = spec_doug_expr(s, seq![]);
                match r {
                    Err(err) => (Err(err), b),
                    Ok(cs) => (Ok(ExprV::DougSequence(cs)), b),
                }
            },
            TokenV::Variable(v) => (Ok(ExprV::Variable(v)), spec_consume(s).1),
            TokenV::Paren(ParenThesis::Right) => (Err(SynV::BreakFromExprTree), s),
            _ => (Err(SynV::Expected("expression"@, FoundV::Token(t), s.row, s.column)), s),
        },
    }
}

/// The operator after a left operand, if any: in the `xaelia` dialect any
/// operator that is not followed by `set`, consumed; in the standard dialect
/// a comparison, left unconsumed, and any other token is an error.
pub open spec fn spec_operator(s: PState, x: bool) -> (Result<Option<Operator>, SynV>, PState) {
    if x {
        match spec_peek(s) {
            Ok(TokenV::Operator(op)) => if spec_peek_two(s) == Some(
                TokenV::KeyWord(KeyWord::SetValue),
            ) {
                (Ok(None), s)
            } else {
                (Ok(Some(op)), spec_consume(s).1)
            },
            _ => (Ok(None), s),
        }
    } else {
        match spec_peek(s) {
            Ok(TokenV::Operator(Operator::Greater)) => (Ok(Some(Operator::Greater)), s),
            Ok(TokenV::Operator(Operator::Less)) => (Ok(Some(Operator::Less)), s),
            Ok(TokenV::Operator(Operator::LessEquals)) => (Ok(Some(Operator::LessEquals)), s),
            Ok(TokenV::Operator(Operator::GreaterEquals)) => (Ok(Some(Operator::GreaterEquals)), s),
            _ => (Err(SynV::WrongDialect("C-like expression parsing"@)), s),
        }
    }
}

pub proof fn lemma_operator(s: PState, x: bool)
    ensures
        pm_le(spec_operator(s, x).1, s),
        spec_operator(s, x).1.has_source == s.has_source,
{
    lemma_consume(s);
}

/// The rest of an expression after its left operand: an optional operator
/// and, after it, an optional right operand.
pub open spec fn spec_after_left(left: ExprV, s: PState, x: bool) -> (Result<ExprV, SynV>, PState)
    decreases s.rest.len(), s.queue.len(), 0nat,
{
    let (op_r, s2) = spec_operator(s, x);
    proof {
        lemma_operator(s, x);
    }
    match op_r {
        Err(e) => (Err(e), s2),
        Ok(None) => (Ok(left), s2),
        Ok(Some(op)) => match spec_peek(s2) {
            Ok(TokenV::Paren(ParenThesis::Left)) => {
                proof {
                    lemma_consume(s2);
                }
                let (e, b) = spec_parse_expr(spec_consume(s2).1, x);
                match e {
                    Err(err) => (Err(err), b),
                    Ok(r) => (Ok(
                        ExprV::RSequence { left: Box::new(left), op: Some(op), right: Some(Box::new(r)) },
                    ), b),
                }
            },
            Ok(TokenV::Literal(l)) => (Ok(
                ExprV::RSequence {
                    left: Box::new(left),
                    op: Some(op),
                    right: Some(Box::new(ExprV::Literal(l))),
                },
            ), spec_consume(s2).1),
            Ok(TokenV::KeyWord(KeyWord::DougChain(_))) => {
                let (r, b) = spec_doug_expr(s2, seq![]);
                match r {
                    Err(err) => (Err(err), b),
                    Ok(cs) => (Ok(
                        ExprV::RSequence {
                            left: Box::new(left),
                            op: Some(op),
                            right: Some(Box::new(ExprV::DougSequence(cs))),
                        },
                    ), b),
                }
            },
            Ok(TokenV::Variable(v)) => (Ok(
                ExprV::RSequence {
                    left: Box::new(left),
                    op: Some(op),
                    right: Some(Box::new(ExprV::Variable(v))),
                },
            ), spec_consume(s2).1),
            _ => (Ok(ExprV::RSequence { left: Box::new(left), op: Some(op), right: None }), s2),
        },
    }
}

/// `e` is the operand `first`, or an operation with `first` on its left.
pub open spec fn keeps_left(e: ExprV, first: ExprV) -> bool {
    e == first || match e {
        ExprV::RSequence { left, op: Some(_), .. } => *left == first,
        _ => false,
    }
}

/// The operand read before an operator stays on the left: what follows a
/// left operand is that operand alone, or an operation whose left operand
/// it is; and a literal, variable or Doug sequence read after the operator
/// is the right operand.
pub proof fn lemma_operands_keep_their_order(left: ExprV, s: PState, x: bool, op: Operator, v: Seq<char>, l: LiteralV)
    ensures
        spec_after_left(left, s, x).0 matches Ok(e) ==> keeps_left(e, left),
        spec_operator(s, x).0 == Ok::<Option<Operator>, SynV>(Some(op)) && spec_peek(
            spec_operator(s, x).1,
        ) == Ok::<TokenV, SynV>(TokenV::Variable(v)) ==> spec_after_left(left, s, x).0 == Ok::<
            ExprV,
            SynV,
        >(
            ExprV::RSequence {
                left: Box::new(left),
                op: Some(op),
                right: Some(Box::new(ExprV::Variable(v))),
            },
        ),
        spec_operator(s, x).0 == Ok::<Option<Operator>, SynV>(Some(op)) && spec_peek(
            spec_operator(s, x).1,
        ) == Ok::<TokenV, SynV>(TokenV::Literal(l)) ==> spec_after_left(left, s, x).0 == Ok::<
            ExprV,
            SynV,
        >(
            ExprV::RSequence {
                left: Box::new(left),
                op: Some(op),
                right: Some(Box::new(ExprV::Literal(l))),
            },
        ),
{
}

/// A whole expression keeps its operands in order: its result is the left
/// operand read first, or an operation with that operand on its left.
pub proof fn lemma_expression_left_first(s: PState, x: bool)
    ensures
        spec_parse_expr(s, x).0 matches Ok(e) ==> (spec_left(s, x).0 matches Ok(first) && keeps_left(
            e,
            first,
        )),
{
    let (r, s1) = spec_left(s, x);
    if let Ok(first) = r {
        if pm_le(s1, s) {
            lemma_operands_keep_their_order(first, s1, x, Operator::Plus, seq![], LiteralV::String(seq![]));
        }
    }
}

/// Parsing one expression (`x` for the `xaelia` dialect).
pub open spec fn spec_parse_expr(s: PState, x: bool) -> (Result<ExprV, SynV>, PState)
    decreases s.rest.len(), s.queue.len(), 2nat,
{
    let (l, s1) = spec_left(s, x);
    match l {
        Err(e) => (Err(e), s1),
        Ok(left) => if pm_le(s1, s) {
            spec_after_left(left, s1, x)
        } else {
            (Err(SynV::BreakFromExprTree), s1)
        },
    }
}

/// A `set` (with an optional operator before it) and the expression after it.
pub open spec fn spec_set_expr(s: PState, x: bool) -> (Result<(ExprV, Option<Operator>), SynV>, PState) {
    let (r, s1) = spec_consume(s);
    match r {
        Err(e) => (Err(e), s1),
        Ok(t) => match t {
            TokenV::KeyWord(KeyWord::SetValue) => {
                let (v, s2) = spec_parse_expr(s1, x);
                match v {
                    Err(e) => (Err(e), s2),
                    Ok(e) => (Ok((e, None)), s2),
                }
            },
            TokenV::Operator(op) => {
                let (r2, s2) = spec_consume(s1);
                match r2 {
                    Err(e) => (Err(e), s2),
                    Ok(t2) => if t2 == TokenV::KeyWord(KeyWord::SetValue) {
                        let (v, s3) = spec_parse_expr(s2, x);
                        match v {
                            Err(e) => (Err(e), s3),
                            Ok(e) => (Ok((e, Some(op))), s3),
                        }
                    } else {
                        (Err(SynV::Expected("set"@, FoundV::Token(t2), s2.row, s2.column)), s2)
                    },
                }
            },
            _ => (Err(SynV::Expected("set, operator"@, FoundV::Token(t), s1.row, s1.column)), s1),
        },
    }
}

impl Parser {
    pub closed spec fn xaelia(&self) -> bool {
        self.dialect == Dialect::Xaelia
    }

    fn is_xaelia(&self) -> (r: bool)
        ensures
            r == self.xaelia(),
    {
        match self.dialect {
            Dialect::Xaelia => true,
            Dialect::Standard => false,
        }
    }

    /// The next token, left unconsumed.
    fn peek(&self) -> (r: Result<Token, SyntaxError>)
        ensures
            tok_res(r) == spec_peek(self.pstate()),
    {
        if self.tokens.len() > 0 {
            Ok(self.tokens[0].duplicate())
        } else {
            Err(SyntaxError::NoMoreTokens(self.row, self.column))
        }
    }

    /// The token after the next one, if it has been read.
    fn peek_two(&self) -> (r: Option<Token>)
        ensures
            match r {
                Some(t) => spec_peek_two(self.pstate()) == Some(t@),
                None => spec_peek_two(self.pstate()) is None,
            },
    {
        if self.tokens.len() > 1 {
            Some(self.tokens[1].duplicate())
        } else {
            None
        }
    }

    fn parse_doug_expr(&mut self) -> (r: Result<Vec<DougChain>, SyntaxError>)
        ensures
            final(self).dialect_of() == old(self).dialect_of(),
            (chains_res(r), final(self).pstate()) == spec_doug_expr(old(self).pstate(), seq![]),
            pm_le(final(self).pstate(), old(self).pstate()),
    {
        let mut dougs: Vec<DougChain> = Vec::new();
        loop
            invariant
                self.dialect_of() == old(self).dialect_of(),
                spec_doug_expr(old(self).pstate(), seq![]) == spec_doug_expr(self.pstate(), dougs@),
                pm_le(self.pstate(), old(self).pstate()),
            decreases self.pstate().queue.len(),
        {
            proof {
                lemma_consume(self.pstate());
            }
            match self.peek() {
                Ok(Token::KeyWord(KeyWord::DougChain(count))) => {
                    let _ = self.consume();
                    dougs.push(DougChain { count });
                },
                Ok(Token::Paren(ParenThesis::Right)) => {
                    return Ok(dougs);
                },
                Ok(Token::Paren(ParenThesis::AngleRight)) => {
                    return Ok(dougs);
                },
                Ok(token) => {
                    return Err(
                        SyntaxError::Expected(
                            crate::strings::text("Doug, Closing Brace"),
                            Found::Token(token),
                            self.row,
                            self.column,
                        ),
                    );
                },
                Err(_) => {
                    return Ok(dougs);
                },
            }
        }
    }

    fn parse_doug_node(&mut self, token: &Token) -> (r: Result<ASTNode, SyntaxError>)
        ensures
            final(self).dialect_of() == old(self).dialect_of(),
            (node_res(r), final(self).pstate()) == spec_doug_node(old(self).pstate(), token@),
            pm_le(final(self).pstate(), old(self).pstate()),
    {
        let mut chains: Vec<DougChain> = Vec::new();
        let reset = match token {
            Token::KeyWord(KeyWord::Bald) => true,
            Token::KeyWord(KeyWord::DougChain(count)) => {
                chains.push(DougChain { count: *count });
                false
            },
            _ => {
                return Err(
                    SyntaxError::Expected(
                        crate::strings::text("Bald, Doug"),
                        Found::Token(token.duplicate()),
                        self.row,
                        self.column,
                    ),
                );
            },
        };
        assert(spec_doug_node(old(self).pstate(), token@) == spec_doug_tail(
            self.pstate(),
            chains@,
            reset,
        )) by {
            if !reset {
                assert(chains@ =~= seq![DougChain { count: chains@[0].count }]);
            } else {
                assert(chains@ =~= Seq::<DougChain>::empty());
            }
        }
        loop
            invariant
                self.dialect_of() == old(self).dialect_of(),
                spec_doug_node(old(self).pstate(), token@) == spec_doug_tail(
                    self.pstate(),
                    chains@,
                    reset,
                ),
                pm_le(self.pstate(), old(self).pstate()),
            decreases self.pstate().queue.len(),
        {
            proof {
                lemma_consume(self.pstate());
            }
            match self.peek() {
                Ok(Token::KeyWord(KeyWord::DougChain(count))) => {
                    let _ = self.consume();
                    chains.push(DougChain { count });
                },
                _ => {
                    return Ok(ASTNode::Doug { chains, reset });
                },
            }
        }
    }

    /// Consumes the next token, which must be the bracket `want`.
    fn expect_paren(&mut self, want: ParenThesis, name: &str) -> (r: Result<(), SyntaxError>)
        ensures
            final(self).dialect_of() == old(self).dialect_of(),
            (unit_res(r), final(self).pstate()) == spec_expect(
                old(self).pstate(),
                TokenV::Paren(want),
                name@,
            ),
            pm_le(final(self).pstate(), old(self).pstate()),
            r is Ok ==> pm_lt(final(self).pstate(), old(self).pstate()),
    {
        proof {
            lemma_consume(self.pstate());
        }
        match self.consume() {
            Err(e) => Err(e),
            Ok(Token::Paren(p)) => {
                if p == want {
                    Ok(())
                } else {
                    Err(
                        SyntaxError::Expected(
                            crate::strings::text(name),
                            Found::Token(Token::Paren(p)),
                            self.row,
                            self.column,
                        ),
                    )
                }
            },
            Ok(other) => Err(
                SyntaxError::Expected(
                    crate::strings::text(name),
                    Found::Token(other),
                    self.row,
                    self.column,
                ),
            ),
        }
    }

    /// Consumes the next token, which must be the keyword `want`.
    fn expect_keyword(&mut self, want: KeyWord, name: &str) -> (r: Result<(), SyntaxError>)
        ensures
            final(self).dialect_of() == old(self).dialect_of(),
            (unit_res(r), final(self).pstate()) == spec_expect(
                old(self).pstate(),
                TokenV::KeyWord(want),
                name@,
            ),
            pm_le(final(self).pstate(), old(self).pstate()),
            r is Ok ==> pm_lt(final(self).pstate(), old(self).pstate()),
    {
        proof {
            lemma_consume(self.pstate());
        }
        match self.consume() {
            Err(e) => Err(e),
            Ok(Token::KeyWord(k)) => {
                if k == want {
                    Ok(())
                } else {
                    Err(
                        SyntaxError::Expected(
                            crate::strings::text(name),
                            Found::Token(Token::KeyWord(k)),
                            self.row,
                            self.column,
                        ),
                    )
                }
            },
            Ok(other) => Err(
                SyntaxError::Expected(
                    crate::strings::text(name),
                    Found::Token(other),
                    self.row,
                    self.column,
                ),
            ),
        }
    }
}

impl Parser {
    fn parse_left(&mut self) -> (r: Result<Expression, SyntaxError>)
        ensures
            final(self).dialect_of() == old(self).dialect_of(),
            (expr_res(r), final(self).pstate()) == spec_left(old(self).pstate(), old(self).xaelia()),
            pm_le(final(self).pstate(), old(self).pstate()),
        decreases old(self).pstate().rest.len(), old(self).pstate().queue.len(), 1nat,
    {
        proof {
            lemma_consume(self.pstate());
        }
        match self.peek() {
            Ok(Token::Paren(ParenThesis::Left)) => {
                let _ = self.consume();
                let expr = match self.parse_expr() {
                    Ok(e) => e,
                    Err(e) => {
                        return Err(e);
                    },
                };
                match self.expect_paren(ParenThesis::Right, ")") {
                    Err(e) => {
                        return Err(e);
                    },
                    Ok(()) => {},
                }
                Ok(expr)
            },
            Ok(Token::Literal(lit)) => {
                let _ = self.consume();
                Ok(Expression::Literal(lit))
            },
            Ok(Token::KeyWord(KeyWord::DougChain(_))) => match self.parse_doug_expr() {
                Ok(c) => Ok(Expression::DougSequence(c)),
                Err(e) => Err(e),
            },
            Ok(Token::Variable(v)) => {
                let _ = self.consume();
                Ok(Expression::Variable(v))
            },
            Ok(Token::Paren(ParenThesis::Right)) => Err(SyntaxError::BreakFromExprTree),
            Ok(other) => Err(
                SyntaxError::Expected(
                    crate::strings::text("expression"),
                    Found::Token(other),
                    self.row,
                    self.column,
                ),
            ),
            Err(_) => Err(SyntaxError::BreakFromExprTree),
        }
    }

    fn after_left(&mut self, left: Expression) -> (r: Result<Expression, SyntaxError>)
        ensures
            final(self).dialect_of() == old(self).dialect_of(),
            (expr_res(r), final(self).pstate()) == spec_after_left(
                left@,
                old(self).pstate(),
                old(self).xaelia(),
            ),
            pm_le(final(self).pstate(), old(self).pstate()),
        decreases old(self).pstate().rest.len(), old(self).pstate().queue.len(), 0nat,
    {
        proof {
            lemma_consume(self.pstate());
            lemma_operator(self.pstate(), self.xaelia());
        }
        let x = self.is_xaelia();
        let op = if x {
            match self.peek() {
                Ok(Token::Operator(op)) => {
                    match self.peek_two() {
                        Some(Token::KeyWord(KeyWord::SetValue)) => None,
                        _ => {
                            let _ = self.consume();
                            Some(op)
                        },
                    }
                },
                _ => None,
            }
        } else {
            match self.peek() {
                Ok(Token::Operator(Operator::Greater)) => Some(Operator::Greater),
                Ok(Token::Operator(Operator::Less)) => Some(Operator::Less),
                Ok(Token::Operator(Operator::LessEquals)) => Some(Operator::LessEquals),
                Ok(Token::Operator(Operator::GreaterEquals)) => Some(Operator::GreaterEquals),
                _ => {
                    return Err(
                        SyntaxError::WrongDialect(crate::strings::text("C-like expression parsing")),
                    );
                },
            }
        };
        assert((Ok::<Option<Operator>, SynV>(op), self.pstate()) == spec_operator(
            old(self).pstate(),
            x,
        ));
        let op = match op {
            None => {
                assert(spec_after_left(left@, old(self).pstate(), x) == (Ok::<ExprV, SynV>(left@), self.pstate()));
                return Ok(left);
            },
            Some(op) => op,
        };
        proof {
            lemma_consume(self.pstate());
        }
        let ghost s2 = self.pstate();
        assert(spec_after_left(left@, old(self).pstate(), x) == (match spec_peek(s2) {
            Ok(TokenV::Paren(ParenThesis::Left)) => {
                let (e, b) = spec_parse_expr(spec_consume(s2).1, x);
                match e {
                    Err(err) => (Err(err), b),
                    Ok(r) => (Ok(
                        ExprV::RSequence { left: Box::new(left@), op: Some(op), right: Some(Box::new(r)) },
                    ), b),
                }
            },
            Ok(TokenV::Literal(l)) => (Ok(
                ExprV::RSequence {
                    left: Box::new(left@),
                    op: Some(op),
                    right: Some(Box::new(ExprV::Literal(l))),
                },
            ), spec_consume(s2).1),
            Ok(TokenV::KeyWord(KeyWord::DougChain(_))) => {
                let (r, b) = spec_doug_expr(s2, seq![]);
                match r {
                    Err(err) => (Err(err), b),
                    Ok(cs) => (Ok(
                        ExprV::RSequence {
                            left: Box::new(left@),
                            op: Some(op),
                            right: Some(Box::new(ExprV::DougSequence(cs))),
                        },
                    ), b),
                }
            },
            Ok(TokenV::Variable(v)) => (Ok(
                ExprV::RSequence {
                    left: Box::new(left@),
                    op: Some(op),
                    right: Some(Box::new(ExprV::Variable(v))),
                },
            ), spec_consume(s2).1),
            _ => (Ok(ExprV::RSequence { left: Box::new(left@), op: Some(op), right: None }), s2),
        }));
        let right = match self.peek() {
            Ok(Token::Paren(ParenThesis::Left)) => {
                let _ = self.consume();
                match self.parse_expr() {
                    Ok(e) => Some(Box::new(e)),
                    Err(e) => {
                        return Err(e);
                    },
                }
            },
            Ok(Token::Literal(lit)) => {
                let _ = self.consume();
                Some(Box::new(Expression::Literal(lit)))
            },
            Ok(Token::KeyWord(KeyWord::DougChain(_))) => match self.parse_doug_expr() {
                Ok(c) => Some(Box::new(Expression::DougSequence(c))),
                Err(e) => {
                    return Err(e);
                },
            },
            Ok(Token::Variable(v)) => {
                let _ = self.consume();
                Some(Box::new(Expression::Variable(v)))
            },
            _ => None,
        };
        let ghost lv = left@;
        let res = Expression::RSequence { left: Box::new(left), op: Some(op), right };
        assert(expr_view(res) == ExprV::RSequence { left: Box::new(lv), op: Some(op), right: match right { Some(r) => Some(Box::new(expr_view(*r))), None => None } });
        Ok(res)
    }

    /// Parses one expression.
    fn parse_expr(&mut self) -> (r: Result<Expression, SyntaxError>)
        ensures
            final(self).dialect_of() == old(self).dialect_of(),
            (expr_res(r), final(self).pstate()) == spec_parse_expr(
                old(self).pstate(),
                old(self).xaelia(),
            ),
            pm_le(final(self).pstate(), old(self).pstate()),
        decreases old(self).pstate().rest.len(), old(self).pstate().queue.len(), 2nat,
    {
        let left = match self.parse_left() {
            Ok(l) => l,
            Err(e) => {
                return Err(e);
            },
        };
        self.after_left(left)
    }

    /// Parses `set <expression>` or `<operator> set <expression>`.
    fn parse_set_expr(&mut self) -> (r: Result<(Expression, Option<Operator>), SyntaxError>)
        ensures
            final(self).dialect_of() == old(self).dialect_of(),
            (set_res(r), final(self).pstate()) == spec_set_expr(
                old(self).pstate(),
                old(self).xaelia(),
            ),
            pm_le(final(self).pstate(), old(self).pstate()),
            r is Ok ==> pm_lt(final(self).pstate(), old(self).pstate()),
    {
        proof {
            lemma_consume(self.pstate());
        }
        match self.consume() {
            Err(e) => Err(e),
            Ok(Token::KeyWord(KeyWord::SetValue)) => match self.parse_expr() {
                Err(e) => Err(e),
                Ok(v) => Ok((v, None)),
            },
            Ok(Token::Operator(op)) => {
                proof {
                    lemma_consume(self.pstate());
                }
                match self.consume() {
                    Err(e) => Err(e),
                    Ok(Token::KeyWord(KeyWord::SetValue)) => match self.parse_expr() {
                        Err(e) => Err(e),
                        Ok(v) => Ok((v, Some(op))),
                    },
                    Ok(other) => Err(
                        SyntaxError::Expected(
                            crate::strings::text("set"),
                            Found::Token(other),
                            self.row,
                            self.column,
                        ),
                    ),
                }
            },
            Ok(other) => Err(
                SyntaxError::Expected(
                    crate::strings::text("set, operator"),
                    Found::Token(other),
                    self.row,
                    self.column,
                ),
            ),
        }
    }
}

/// What handling one token of a block leads to: go on with the nodes so
/// far, or end the block with a result.
pub enum StepV {
    Continue(Seq<NodeV>),
    Finish(Result<Seq<NodeV>, SynV>),
}

/// The `set` statements that follow a `Bald` or `Doug` statement, each
/// appended to `nodes`.
pub open spec fn spec_set_loop(s: PState, nodes: Seq<NodeV>, x: bool) -> (StepV, PState)
    decreases s.rest.len(), s.queue.len(),
{
    match spec_peek(s) {
        Ok(TokenV::KeyWord(KeyWord::SetValue)) | Ok(TokenV::Operator(_)) => {
            let (r, s1) = spec_set_expr(s, x);
            match r {
                Err(e) => (StepV::Finish(Err(e)), s1),
                Ok((value, op)) => if pm_lt(s1, s) {
                    spec_set_loop(s1, nodes.push(NodeV::SetValue { value, op }), x)
                } else {
                    (StepV::Finish(Err(SynV::BreakFromExprTree)), s1)
                },
            }
        },
        _ => (StepV::Continue(nodes), s),
    }
}

/// Parsing a block: statements up to a closing `]`, or, at the top level,
/// up to the end of the tokens (a block that is not the top level and meets
/// the end is an error; a `]` at the top level is an error).
pub open spec fn spec_parse_block(s: PState, top: bool, x: bool) -> (Result<Seq<NodeV>, SynV>, PState)
    decreases s.rest.len(), s.queue.len(), 2nat,
{
    spec_block_loop(PState { row: inc(s.row), column: 0, ..s }, seq![], top, x)
}

pub open spec fn spec_block_loop(s: PState, nodes: Seq<NodeV>, top: bool, x: bool) -> (Result<
    Seq<NodeV>,
    SynV,
>, PState)
    decreases s.rest.len(), s.queue.len(), 1nat,
{
    let (r, s1) = spec_consume(s);
    proof {
        lemma_consume(s);
    }
    match r {
        Err(_) => if top {
            (Ok(nodes), s1)
        } else {
            (Err(SynV::Expected("]"@, FoundV::Text(""@), s1.row, s1.column)), s1)
        },
        Ok(tok) => {
            let (step, s2) = spec_block_step(tok, s1, nodes, top, x);
            match step {
                StepV::Finish(res) => (res, s2),
                StepV::Continue(ns) => if pm_lt(s2, s) {
                    spec_block_loop(s2, ns, top, x)
                } else {
                    (Err(SynV::BreakFromExprTree), s2)
                },
            }
        },
    }
}

/// The second body of a prediction, if its keyword follows the first body:
/// `Ok(Some(..))` with the result of parsing it, `Ok(None)` when no branch
/// keyword follows, and an error when the same keyword comes twice.
pub open spec fn spec_second_body(s8: PState, keyword: KeyWord, x: bool) -> (Result<
    Option<Result<Seq<NodeV>, SynV>>,
    SynV,
>, PState)
    decreases s8.rest.len(), s8.queue.len(), 3nat,
{
    let second = spec_peek(s8);
    if (second == Ok::<TokenV, SynV>(TokenV::KeyWord(KeyWord::Doubters)) && keyword
        == KeyWord::Doubters) || (second == Ok::<TokenV, SynV>(TokenV::KeyWord(KeyWord::Believers))
        && keyword == KeyWord::Believers) {
        (Err(SynV::Expected("Opposite branches"@, FoundV::Text("two of the same"@), s8.row, s8.column)), s8)
    } else if second == Ok::<TokenV, SynV>(TokenV::KeyWord(KeyWord::Doubters)) || second == Ok::<
        TokenV,
        SynV,
    >(TokenV::KeyWord(KeyWord::Believers)) {
        let (b, s_b) = spec_parse_block(s8, false, x);
        (Ok(Some(b)), s_b)
    } else {
        (Ok(None), s8)
    }
}

/// `tts`, with the expression after it as the message if one parses, and
/// the current index otherwise.
pub open spec fn spec_tts(s: PState, nodes: Seq<NodeV>, x: bool) -> (StepV, PState) {
    let (e, s2) = spec_parse_expr(s, x);
    match e {
        Ok(m) => (StepV::Continue(nodes.push(NodeV::Tts { msg: Some(m), use_index: false })), s2),
        Err(_) => (StepV::Continue(nodes.push(NodeV::Tts { msg: None, use_index: true })), s2),
    }
}

/// `<< name Doug.. >>`: a named variable that points at a tape cell.
pub open spec fn spec_declare(s: PState, nodes: Seq<NodeV>) -> (StepV, PState) {
    match spec_peek(s) {
        Err(e) => (StepV::Finish(Err(e)), s),
        Ok(TokenV::Variable(name)) => {
            let s2 = spec_consume(s).1;
            match spec_peek(s2) {
                Err(e) => (StepV::Finish(Err(e)), s2),
                Ok(TokenV::KeyWord(KeyWord::DougChain(_))) => {
                    let (r, s3) = spec_doug_expr(s2, seq![]);
                    match r {
                        Err(e) => (StepV::Finish(Err(e)), s3),
                        Ok(ptr) => {
                            let (r4, s4) = spec_expect(s3, TokenV::Paren(ParenThesis::AngleRight), ">>"@);
                            match r4 {
                                Err(e) => (StepV::Finish(Err(e)), s4),
                                Ok(_) => (StepV::Continue(nodes.push(NodeV::Declare { name, ptr })), s4),
                            }
                        },
                    }
                },
                Ok(other) => (StepV::Finish(
                    Err(SynV::Expected("DougChain"@, FoundV::Token(other), s2.row, s2.column)),
                ), s2),
            }
        },
        Ok(other) => (StepV::Finish(
            Err(SynV::Expected("Variable name"@, FoundV::Token(other), s.row, s.column)),
        ), s),
    }
}

/// `set <expression>`: the expression becomes the value of the current cell.
pub open spec fn spec_set_stmt(s: PState, nodes: Seq<NodeV>, x: bool) -> (StepV, PState) {
    let (e, s2) = spec_parse_expr(s, x);
    match e {
        Err(err) => (StepV::Finish(Err(err)), s2),
        Ok(v) => (StepV::Continue(nodes.push(NodeV::SetValue { value: v, op: None })), s2),
    }
}

/// A statement that starts with the operator `op`: what follows is read as
/// a `set` expression, and `op` is the node's operator.
pub open spec fn spec_op_stmt(s: PState, op: Operator, nodes: Seq<NodeV>, x: bool) -> (StepV, PState) {
    let (r, s2) = spec_set_expr(s, x);
    match r {
        Err(err) => (StepV::Finish(Err(err)), s2),
        Ok((v, _)) => (StepV::Continue(nodes.push(NodeV::SetValue { value: v, op: Some(op) })), s2),
    }
}

/// `name [op] set <expression>`: an assignment to a named variable.
pub open spec fn spec_modify(s: PState, name: Seq<char>, nodes: Seq<NodeV>, x: bool) -> (StepV, PState) {
    let (r, s2) = spec_set_expr(s, x);
    match r {
        Err(err) => (StepV::Finish(Err(err)), s2),
        Ok((value, op)) => (StepV::Continue(nodes.push(NodeV::Modify { name, op, value })), s2),
    }
}

/// `Bald` or `Doug` chains, then the `set` statements that follow them.
pub open spec fn spec_doug_stmt(s: PState, tok: TokenV, nodes: Seq<NodeV>, x: bool) -> (StepV, PState) {
    let (r, s2) = spec_doug_node(s, tok);
    match r {
        Err(err) => (StepV::Finish(Err(err)), s2),
        Ok(node) => spec_set_loop(s2, nodes.push(node), x),
    }
}

/// `( Doug.. )`: a move relative to index 0.
pub open spec fn spec_paren_doug(s: PState, nodes: Seq<NodeV>) -> (StepV, PState) {
    let (r, s2) = spec_doug_expr(s, seq![]);
    match r {
        Err(err) => (StepV::Finish(Err(err)), s2),
        Ok(chains) => {
            let (r3, s3) = spec_expect(s2, TokenV::Paren(ParenThesis::Right), ")"@);
            match r3 {
                Err(err) => (StepV::Finish(Err(err)), s3),
                Ok(_) => (StepV::Continue(nodes.push(NodeV::Doug { chains, reset: true })), s3),
            }
        },
    }
}

/// `loop [ <body> ]`.
pub open spec fn spec_loop_stmt(s: PState, nodes: Seq<NodeV>, x: bool) -> (StepV, PState)
    decreases s.rest.len(), s.queue.len(), 0nat,
{
    let (r, s2) = spec_expect(s, TokenV::Paren(ParenThesis::SquareLeft), "["@);
    proof {
        lemma_consume(s);
    }
    match r {
        Err(err) => (StepV::Finish(Err(err)), s2),
        Ok(_) => {
            let (b, s3) = spec_parse_block(s2, false, x);
            match b {
                Err(err) => (StepV::Finish(Err(err)), s3),
                Ok(body) => (StepV::Continue(nodes.push(NodeV::Loop { body })), s3),
            }
        },
    }
}

/// Handling one token `tok` of a block, the state `s` being after it.
pub open spec fn spec_block_step(tok: TokenV, s: PState, nodes: Seq<NodeV>, top: bool, x: bool) -> (
    StepV,
    PState,
)
    decreases s.rest.len(), s.queue.len(), 1nat,
{
    match tok {
        TokenV::KeyWord(KeyWord::Tts) => spec_tts(s, nodes, x),
        TokenV::Paren(ParenThesis::AngleLeft) if x => spec_declare(s, nodes),
        TokenV::KeyWord(KeyWord::SetValue) => spec_set_stmt(s, nodes, x),
        TokenV::Operator(op) => spec_op_stmt(s, op, nodes, x),
        TokenV::KeyWord(KeyWord::Loop) => spec_loop_stmt(s, nodes, x),
        TokenV::KeyWord(KeyWord::Prediction) => spec_prediction(s, nodes, x),
        TokenV::KeyWord(KeyWord::Bald) | TokenV::KeyWord(KeyWord::DougChain(_)) => spec_doug_stmt(
            s,
            tok,
            nodes,
            x,
        ),
        TokenV::KeyWord(KeyWord::Break) => (StepV::Continue(nodes.push(NodeV::Break)), s),
        TokenV::Variable(name) if x => spec_modify(s, name, nodes, x),
        TokenV::Paren(ParenThesis::Left) => spec_paren_doug(s, nodes),
        TokenV::Paren(ParenThesis::SquareRight) => if top {
            (StepV::Finish(Err(SynV::Unexpected(FoundV::Text("] in top level"@), s.row, s.column))), s)
        } else {
            (StepV::Finish(Ok(nodes)), s)
        },
        _ => (StepV::Finish(Err(SynV::Unexpected(FoundV::Token(tok), s.row, s.column))), s),
    }
}


/// The prediction node made of the two bodies, or the error of the body
/// that the branch keyword names first.
pub open spec fn spec_combine(
    first: Result<Seq<NodeV>, SynV>,
    second: Result<Seq<NodeV>, SynV>,
    keyword: KeyWord,
    condition: ExprV,
    nodes: Seq<NodeV>,
) -> StepV {
    if keyword == KeyWord::Doubters {
        match (first, second) {
            (Err(err), _) => StepV::Finish(Err(err)),
            (Ok(_), Err(err)) => StepV::Finish(Err(err)),
            (Ok(d), Ok(b)) => StepV::Continue(
                nodes.push(NodeV::Prediction { believers_body: b, doubters_body: d, condition }),
            ),
        }
    } else {
        match (second, first) {
            (Err(err), _) => StepV::Finish(Err(err)),
            (Ok(_), Err(err)) => StepV::Finish(Err(err)),
            (Ok(d), Ok(b)) => StepV::Continue(
                nodes.push(NodeV::Prediction { believers_body: b, doubters_body: d, condition }),
            ),
        }
    }
}

/// The body written after `Believers win` is run when the condition holds
/// and the one after `Doubters win` when it does not, whichever comes
/// first; an error in either body is the result.
pub proof fn lemma_branches_go_where_they_are_named(
    f: Seq<NodeV>,
    g: Seq<NodeV>,
    k: KeyWord,
    c: ExprV,
    nodes: Seq<NodeV>,
    e: SynV,
)
    requires
        k == KeyWord::Believers || k == KeyWord::Doubters,
    ensures
        spec_combine(Ok(f), Ok(g), k, c, nodes) == StepV::Continue(
            nodes.push(
                NodeV::Prediction {
                    believers_body: if k == KeyWord::Believers {
                        f
                    } else {
                        g
                    },
                    doubters_body: if k == KeyWord::Believers {
                        g
                    } else {
                        f
                    },
                    condition: c,
                },
            ),
        ),
        spec_combine(Err(e), Ok(g), k, c, nodes) == StepV::Finish(Err::<Seq<NodeV>, SynV>(e)),
        spec_combine(Ok(f), Err(e), k, c, nodes) == StepV::Finish(Err::<Seq<NodeV>, SynV>(e)),
{
}

/// `prediction <condition> [ Believers|Doubters win [ <body> ] ]`, with an
/// optional second body after the first one.
pub open spec fn spec_prediction(s: PState, nodes: Seq<NodeV>, x: bool) -> (StepV, PState)
    decreases s.rest.len(), s.queue.len(), 0nat,
{
    let (c, s2) = spec_parse_expr(s, x);
    match c {
        Err(err) => (StepV::Finish(Err(err)), s2),
        Ok(condition) => {
            let (r3, s3) = spec_expect(s2, TokenV::Paren(ParenThesis::SquareLeft), "["@);
            match r3 {
                Err(err) => (StepV::Finish(Err(err)), s3),
                Ok(_) => {
                    let (t4, s4) = spec_consume(s3);
                    match t4 {
                        Err(err) => (StepV::Finish(Err(err)), s4),
                        Ok(t) => if t != TokenV::KeyWord(KeyWord::Believers) && t != TokenV::KeyWord(
                            KeyWord::Doubters,
                        ) {
                            (StepV::Finish(
                                Err(SynV::Expected("Believers, Doubters"@, FoundV::Token(t), s4.row, s4.column)),
                            ), s4)
                        } else {
                            let keyword = if t == TokenV::KeyWord(KeyWord::Believers) {
                                KeyWord::Believers
                            } else {
                                KeyWord::Doubters
                            };
                            let (r5, s5) = spec_expect(s4, TokenV::KeyWord(KeyWord::Wins), "win"@);
                            match r5 {
                                Err(err) => (StepV::Finish(Err(err)), s5),
                                Ok(_) => {
                                    let (r6, s6) = spec_expect(s5, TokenV::Paren(ParenThesis::SquareLeft), "["@);
                                    match r6 {
                                        Err(err) => (StepV::Finish(Err(err)), s6),
                                        Ok(_) => if pm_lt(s6, s) {
                                            spec_prediction_bodies(s6, keyword, condition, nodes, x)
                                        } else {
                                            (StepV::Finish(Err(SynV::BreakFromExprTree)), s6)
                                        },
                                    }
                                },
                            }
                        },
                    }
                },
            }
        },
    }
}

/// The bodies of a prediction, from the first one on: the first body and its
/// `]`, then a second body if the other branch keyword follows.
pub open spec fn spec_prediction_bodies(
    s6: PState,
    keyword: KeyWord,
    condition: ExprV,
    nodes: Seq<NodeV>,
    x: bool,
) -> (StepV, PState)
    decreases s6.rest.len(), s6.queue.len(), 3nat,
{
    let (first, s7) = spec_parse_block(s6, false, x);
    let (r8, s8) = spec_expect(s7, TokenV::Paren(ParenThesis::SquareRight), "]"@);
    match r8 {
        Err(err) => (StepV::Finish(Err(err)), s8),
        Ok(_) => if pm_lt(s8, s6) {
            let (r9, s9) = spec_second_body(s8, keyword, x);
            match r9 {
                Err(err) => (StepV::Finish(Err(err)), s9),
                Ok(Some(second)) => {
                    let (r10, s10) = spec_expect(s9, TokenV::Paren(ParenThesis::SquareRight), "]"@);
                    match r10 {
                        Err(err) => (StepV::Finish(Err(err)), s10),
                        Ok(_) => (spec_combine(first, second, keyword, condition, nodes), s10),
                    }
                },
                Ok(None) => (spec_combine(first, Ok(seq![]), keyword, condition, nodes), s9),
            }
        } else {
            (StepV::Finish(Err(SynV::BreakFromExprTree)), s8)
        },
    }
}


pub open spec fn nodes_res(r: Result<Vec<ASTNode>, SyntaxError>) -> Result<Seq<NodeV>, SynV> {
    match r {
        Ok(n) => Ok(nodes_view(n@)),
        Err(e) => Err(e@),
    }
}

/// How the handling of one token ended, as the exec functions report it:
/// `None` to go on, `Some(Ok(()))` for the end of the block, or an error.
pub open spec fn step_matches(
    step: StepV,
    r: Option<Result<(), SyntaxError>>,
    nodes: Seq<ASTNode>,
) -> bool {
    match step {
        StepV::Continue(ns) => r is None && nodes_view(nodes) == ns,
        StepV::Finish(Ok(ns)) => r matches Some(Ok(_)) && nodes_view(nodes) == ns,
        StepV::Finish(Err(e)) => r matches Some(Err(e2)) && e2@ == e,
    }
}

pub proof fn lemma_nodes_push(s: Seq<ASTNode>, n: ASTNode)
    ensures
        nodes_view(s.push(n)) == nodes_view(s).push(node_view(n)),
{
    assert(s.push(n).drop_last() =~= s);
}

impl Parser {
    fn push_node(nodes: &mut Vec<ASTNode>, n: ASTNode)
        ensures
            nodes_view(final(nodes)@) == nodes_view(old(nodes)@).push(node_view(n)),
    {
        proof {
            lemma_nodes_push(nodes@, n);
        }
        nodes.push(n);
    }

    /// The `set` statements that follow a `Bald` or `Doug` statement.
    fn set_loop(&mut self, nodes: &mut Vec<ASTNode>) -> (r: Option<Result<(), SyntaxError>>)
        ensures
            final(self).dialect_of() == old(self).dialect_of(),
            step_matches(
                spec_set_loop(old(self).pstate(), nodes_view(old(nodes)@), old(self).xaelia()).0,
                r,
                final(nodes)@,
            ),
            final(self).pstate() == spec_set_loop(
                old(self).pstate(),
                nodes_view(old(nodes)@),
                old(self).xaelia(),
            ).1,
            r is None || r matches Some(Err(_)),
            pm_le(final(self).pstate(), old(self).pstate()),
    {
        loop
            invariant
                self.dialect_of() == old(self).dialect_of(),
                spec_set_loop(old(self).pstate(), nodes_view(old(nodes)@), old(self).xaelia())
                    == spec_set_loop(self.pstate(), nodes_view(nodes@), old(self).xaelia()),
                pm_le(self.pstate(), old(self).pstate()),
            decreases self.pstate().rest.len(), self.pstate().queue.len(),
        {
            let go = match self.peek() {
                Ok(Token::KeyWord(KeyWord::SetValue)) => true,
                Ok(Token::Operator(_)) => true,
                _ => false,
            };
            if !go {
                return None;
            }
            let ghost s0 = self.pstate();
            proof {
                lemma_consume(s0);
            }
            match self.parse_set_expr() {
                Err(e) => {
                    return Some(Err(e));
                },
                Ok((value, op)) => {
                    assert(pm_lt(self.pstate(), s0));
                    Self::push_node(nodes, ASTNode::SetValue { value, op });
                },
            }
        }
    }

    /// `tts` and its optional message.
    fn tts_stmt(&mut self, nodes: &mut Vec<ASTNode>) -> (r: Option<Result<(), SyntaxError>>)
        ensures
            final(self).dialect_of() == old(self).dialect_of(),
            step_matches(spec_tts(old(self).pstate(), nodes_view(old(nodes)@), old(self).xaelia()).0, r, final(nodes)@),
            final(self).pstate() == spec_tts(old(self).pstate(), nodes_view(old(nodes)@), old(self).xaelia()).1,
            pm_le(final(self).pstate(), old(self).pstate()),
    {
        match self.parse_expr() {
            Ok(msg) => Self::push_node(nodes, ASTNode::Tts { msg: Some(msg), use_index: false }),
            Err(_) => Self::push_node(nodes, ASTNode::Tts { msg: None, use_index: true }),
        }
        None
    }

    /// `<< name Doug.. >>`.
    fn declare_stmt(&mut self, nodes: &mut Vec<ASTNode>) -> (r: Option<Result<(), SyntaxError>>)
        ensures
            final(self).dialect_of() == old(self).dialect_of(),
            step_matches(spec_declare(old(self).pstate(), nodes_view(old(nodes)@)).0, r, final(nodes)@),
            final(self).pstate() == spec_declare(old(self).pstate(), nodes_view(old(nodes)@)).1,
            pm_le(final(self).pstate(), old(self).pstate()),
    {
        proof {
            lemma_consume(self.pstate());
        }
        match self.peek() {
            Err(e) => Some(Err(e)),
            Ok(Token::Variable(name)) => {
                let _ = self.consume();
                match self.peek() {
                    Err(e) => Some(Err(e)),
                    Ok(Token::KeyWord(KeyWord::DougChain(_))) => match self.parse_doug_expr() {
                        Err(e) => Some(Err(e)),
                        Ok(ptr) => match self.expect_paren(ParenThesis::AngleRight, ">>") {
                            Err(e) => Some(Err(e)),
                            Ok(()) => {
                                Self::push_node(nodes, ASTNode::Declare { name, ptr });
                                None
                            },
                        },
                    },
                    Ok(other) => Some(
                        Err(
                            SyntaxError::Expected(
                                crate::strings::text("DougChain"),
                                Found::Token(other),
                                self.row,
                                self.column,
                            ),
                        ),
                    ),
                }
            },
            Ok(other) => Some(
                Err(
                    SyntaxError::Expected(
                        crate::strings::text("Variable name"),
                        Found::Token(other),
                        self.row,
                        self.column,
                    ),
                ),
            ),
        }
    }

    /// `set <expression>`.
    fn set_stmt(&mut self, nodes: &mut Vec<ASTNode>) -> (r: Option<Result<(), SyntaxError>>)
        ensures
            final(self).dialect_of() == old(self).dialect_of(),
            step_matches(spec_set_stmt(old(self).pstate(), nodes_view(old(nodes)@), old(self).xaelia()).0, r, final(nodes)@),
            final(self).pstate() == spec_set_stmt(old(self).pstate(), nodes_view(old(nodes)@), old(self).xaelia()).1,
            pm_le(final(self).pstate(), old(self).pstate()),
    {
        match self.parse_expr() {
            Err(e) => Some(Err(e)),
            Ok(v) => {
                Self::push_node(nodes, ASTNode::SetValue { value: v, op: None });
                None
            },
        }
    }

    /// A statement that starts with an operator.
    fn op_stmt(&mut self, op: Operator, nodes: &mut Vec<ASTNode>) -> (r: Option<Result<(), SyntaxError>>)
        ensures
            final(self).dialect_of() == old(self).dialect_of(),
            step_matches(spec_op_stmt(old(self).pstate(), op, nodes_view(old(nodes)@), old(self).xaelia()).0, r, final(nodes)@),
            final(self).pstate() == spec_op_stmt(old(self).pstate(), op, nodes_view(old(nodes)@), old(self).xaelia()).1,
            pm_le(final(self).pstate(), old(self).pstate()),
    {
        match self.parse_set_expr() {
            Err(e) => Some(Err(e)),
            Ok((v, _)) => {
                Self::push_node(nodes, ASTNode::SetValue { value: v, op: Some(op) });
                None
            },
        }
    }

    /// `name [op] set <expression>`.
    fn modify_stmt(&mut self, name: String, nodes: &mut Vec<ASTNode>) -> (r: Option<Result<(), SyntaxError>>)
        ensures
            final(self).dialect_of() == old(self).dialect_of(),
            step_matches(spec_modify(old(self).pstate(), name@, nodes_view(old(nodes)@), old(self).xaelia()).0, r, final(nodes)@),
            final(self).pstate() == spec_modify(old(self).pstate(), name@, nodes_view(old(nodes)@), old(self).xaelia()).1,
            pm_le(final(self).pstate(), old(self).pstate()),
    {
        match self.parse_set_expr() {
            Err(e) => Some(Err(e)),
            Ok((value, op)) => {
                Self::push_node(nodes, ASTNode::Modify { name, op, value });
                None
            },
        }
    }

    /// `Bald` or `Doug` chains and the `set` statements after them.
    fn doug_stmt(&mut self, tok: &Token, nodes: &mut Vec<ASTNode>) -> (r: Option<Result<(), SyntaxError>>)
        ensures
            final(self).dialect_of() == old(self).dialect_of(),
            step_matches(spec_doug_stmt(old(self).pstate(), tok@, nodes_view(old(nodes)@), old(self).xaelia()).0, r, final(nodes)@),
            final(self).pstate() == spec_doug_stmt(old(self).pstate(), tok@, nodes_view(old(nodes)@), old(self).xaelia()).1,
            pm_le(final(self).pstate(), old(self).pstate()),
    {
        match self.parse_doug_node(tok) {
            Err(e) => Some(Err(e)),
            Ok(node) => {
                Self::push_node(nodes, node);
                self.set_loop(nodes)
            },
        }
    }

    /// `( Doug.. )`.
    fn paren_doug_stmt(&mut self, nodes: &mut Vec<ASTNode>) -> (r: Option<Result<(), SyntaxError>>)
        ensures
            final(self).dialect_of() == old(self).dialect_of(),
            step_matches(spec_paren_doug(old(self).pstate(), nodes_view(old(nodes)@)).0, r, final(nodes)@),
            final(self).pstate() == spec_paren_doug(old(self).pstate(), nodes_view(old(nodes)@)).1,
            pm_le(final(self).pstate(), old(self).pstate()),
    {
        match self.parse_doug_expr() {
            Err(e) => Some(Err(e)),
            Ok(chains) => match self.expect_paren(ParenThesis::Right, ")") {
                Err(e) => Some(Err(e)),
                Ok(()) => {
                    Self::push_node(nodes, ASTNode::Doug { chains, reset: true });
                    None
                },
            },
        }
    }

    /// `loop [ <body> ]`.
    fn loop_stmt(&mut self, nodes: &mut Vec<ASTNode>) -> (r: Option<Result<(), SyntaxError>>)
        ensures
            final(self).dialect_of() == old(self).dialect_of(),
            step_matches(spec_loop_stmt(old(self).pstate(), nodes_view(old(nodes)@), old(self).xaelia()).0, r, final(nodes)@),
            final(self).pstate() == spec_loop_stmt(old(self).pstate(), nodes_view(old(nodes)@), old(self).xaelia()).1,
            pm_le(final(self).pstate(), old(self).pstate()),
        decreases old(self).pstate().rest.len(), old(self).pstate().queue.len(), 0nat,
    {
        proof {
            lemma_consume(self.pstate());
        }
        match self.expect_paren(ParenThesis::SquareLeft, "[") {
            Err(e) => Some(Err(e)),
            Ok(()) => match self.parse_block(false) {
                Err(e) => Some(Err(e)),
                Ok(body) => {
                    Self::push_node(nodes, ASTNode::Loop { body });
                    None
                },
            },
        }
    }

    /// Handles one token of a block.
    fn block_step(&mut self, tok: Token, nodes: &mut Vec<ASTNode>, is_top: bool) -> (r: Option<
        Result<(), SyntaxError>,
    >)
        ensures
            final(self).dialect_of() == old(self).dialect_of(),
            step_matches(
                spec_block_step(
                    tok@,
                    old(self).pstate(),
                    nodes_view(old(nodes)@),
                    is_top,
                    old(self).xaelia(),
                ).0,
                r,
                final(nodes)@,
            ),
            final(self).pstate() == spec_block_step(
                tok@,
                old(self).pstate(),
                nodes_view(old(nodes)@),
                is_top,
                old(self).xaelia(),
            ).1,
            pm_le(final(self).pstate(), old(self).pstate()),
        decreases old(self).pstate().rest.len(), old(self).pstate().queue.len(), 1nat,
    {
        let x = self.is_xaelia();
        match tok {
            Token::KeyWord(KeyWord::Tts) => self.tts_stmt(nodes),
            Token::Paren(ParenThesis::AngleLeft) if x => self.declare_stmt(nodes),
            Token::KeyWord(KeyWord::SetValue) => self.set_stmt(nodes),
            Token::Operator(op) => self.op_stmt(op, nodes),
            Token::KeyWord(KeyWord::Loop) => self.loop_stmt(nodes),
            Token::KeyWord(KeyWord::Prediction) => self.prediction(nodes),
            Token::KeyWord(KeyWord::Bald) => self.doug_stmt(&tok, nodes),
            Token::KeyWord(KeyWord::DougChain(_)) => self.doug_stmt(&tok, nodes),
            Token::KeyWord(KeyWord::Break) => {
                Self::push_node(nodes, ASTNode::Break);
                None
            },
            Token::Variable(name) if x => self.modify_stmt(name, nodes),
            Token::Paren(ParenThesis::Left) => self.paren_doug_stmt(nodes),
            Token::Paren(ParenThesis::SquareRight) => {
                if is_top {
                    Some(
                        Err(
                            SyntaxError::Unexpected(
                                Found::Text(crate::strings::text("] in top level")),
                                self.row,
                                self.column,
                            ),
                        ),
                    )
                } else {
                    Some(Ok(()))
                }
            },
            other => Some(Err(SyntaxError::Unexpected(Found::Token(other), self.row, self.column))),
        }
    }

    /// `prediction <condition> [ Believers|Doubters win [ <body> ] ]`.
    fn prediction(&mut self, nodes: &mut Vec<ASTNode>) -> (r: Option<Result<(), SyntaxError>>)
        ensures
            final(self).dialect_of() == old(self).dialect_of(),
            step_matches(
                spec_prediction(old(self).pstate(), nodes_view(old(nodes)@), old(self).xaelia()).0,
                r,
                final(nodes)@,
            ),
            final(self).pstate() == spec_prediction(
                old(self).pstate(),
                nodes_view(old(nodes)@),
                old(self).xaelia(),
            ).1,
            pm_le(final(self).pstate(), old(self).pstate()),
        decreases old(self).pstate().rest.len(), old(self).pstate().queue.len(), 0nat,
    {
        let condition = match self.parse_expr() {
            Ok(c) => c,
            Err(e) => {
                return Some(Err(e));
            },
        };
        match self.expect_paren(ParenThesis::SquareLeft, "[") {
            Err(e) => {
                return Some(Err(e));
            },
            Ok(()) => {},
        }
        proof {
            lemma_consume(self.pstate());
        }
        let t = match self.consume() {
            Ok(t) => t,
            Err(e) => {
                return Some(Err(e));
            },
        };
        let keyword = match t {
            Token::KeyWord(KeyWord::Believers) => KeyWord::Believers,
            Token::KeyWord(KeyWord::Doubters) => KeyWord::Doubters,
            other => {
                return Some(
                    Err(
                        SyntaxError::Expected(
                            crate::strings::text("Believers, Doubters"),
                            Found::Token(other),
                            self.row,
                            self.column,
                        ),
                    ),
                );
            },
        };
        match self.expect_keyword(KeyWord::Wins, "win") {
            Err(e) => {
                return Some(Err(e));
            },
            Ok(()) => {},
        }
        match self.expect_paren(ParenThesis::SquareLeft, "[") {
            Err(e) => {
                return Some(Err(e));
            },
            Ok(()) => {},
        }
        self.prediction_bodies(keyword, condition, nodes)
    }

    /// The bodies of a prediction, from the first one on.
    fn prediction_bodies(&mut self, keyword: KeyWord, condition: Expression, nodes: &mut Vec<ASTNode>) -> (r: Option<
        Result<(), SyntaxError>,
    >)
        ensures
            final(self).dialect_of() == old(self).dialect_of(),
            step_matches(
                spec_prediction_bodies(old(self).pstate(), keyword, condition@, nodes_view(old(nodes)@), old(self).xaelia()).0,
                r,
                final(nodes)@,
            ),
            final(self).pstate() == spec_prediction_bodies(
                old(self).pstate(),
                keyword,
                condition@,
                nodes_view(old(nodes)@),
                old(self).xaelia(),
            ).1,
            pm_le(final(self).pstate(), old(self).pstate()),
        decreases old(self).pstate().rest.len(), old(self).pstate().queue.len(), 3nat,
    {
        let first = self.parse_block(false);
        match self.expect_paren(ParenThesis::SquareRight, "]") {
            Err(e) => {
                return Some(Err(e));
            },
            Ok(()) => {},
        }
        let second = match self.second_body(keyword) {
            Err(e) => {
                return Some(Err(e));
            },
            Ok(None) => Ok(Vec::new()),
            Ok(Some(b)) => {
                match self.expect_paren(ParenThesis::SquareRight, "]") {
                    Err(e) => {
                        return Some(Err(e));
                    },
                    Ok(()) => {},
                }
                b
            },
        };
        proof {
            assert(nodes_view(Seq::<ASTNode>::empty()) =~= Seq::<NodeV>::empty());
        }
        Self::combine(first, second, keyword, condition, nodes)
    }

    /// The second body of a prediction (see [`spec_second_body`]).
    fn second_body(&mut self, keyword: KeyWord) -> (r: Result<Option<Result<Vec<ASTNode>, SyntaxError>>, SyntaxError>)
        ensures
            final(self).dialect_of() == old(self).dialect_of(),
            (match r {
                Err(e) => Err::<Option<Result<Seq<NodeV>, SynV>>, SynV>(e@),
                Ok(None) => Ok(None),
                Ok(Some(b)) => Ok(Some(nodes_res(b))),
            }, final(self).pstate()) == spec_second_body(old(self).pstate(), keyword, old(self).xaelia()),
            pm_le(final(self).pstate(), old(self).pstate()),
        decreases old(self).pstate().rest.len(), old(self).pstate().queue.len(), 3nat,
    {
        let (is_believers, is_doubters) = match keyword {
            KeyWord::Believers => (true, false),
            KeyWord::Doubters => (false, true),
            _ => (false, false),
        };
        let (second_is_believers, second_is_doubters) = match self.peek() {
            Ok(Token::KeyWord(KeyWord::Believers)) => (true, false),
            Ok(Token::KeyWord(KeyWord::Doubters)) => (false, true),
            _ => (false, false),
        };
        if (second_is_doubters && is_doubters) || (second_is_believers && is_believers) {
            Err(
                SyntaxError::Expected(
                    crate::strings::text("Opposite branches"),
                    Found::Text(crate::strings::text("two of the same")),
                    self.row,
                    self.column,
                ),
            )
        } else if second_is_believers || second_is_doubters {
            Ok(Some(self.parse_block(false)))
        } else {
            Ok(None)
        }
    }

    /// The prediction node made of the two bodies (see [`spec_combine`]).
    fn combine(
        first: Result<Vec<ASTNode>, SyntaxError>,
        second: Result<Vec<ASTNode>, SyntaxError>,
        keyword: KeyWord,
        condition: Expression,
        nodes: &mut Vec<ASTNode>,
    ) -> (r: Option<Result<(), SyntaxError>>)
        ensures
            step_matches(
                spec_combine(nodes_res(first), nodes_res(second), keyword, condition@, nodes_view(old(nodes)@)),
                r,
                final(nodes)@,
            ),
    {
        let is_doubters = match keyword {
            KeyWord::Doubters => true,
            _ => false,
        };
        let (d, b) = if is_doubters {
            (first, second)
        } else {
            (second, first)
        };
        let doubters_body = match d {
            Err(e) => {
                return Some(Err(e));
            },
            Ok(d) => d,
        };
        let believers_body = match b {
            Err(e) => {
                return Some(Err(e));
            },
            Ok(b) => b,
        };
        Self::push_node(nodes, ASTNode::Prediction { believers_body, doubters_body, condition });
        None
    }

    /// Parses a block (see [`spec_parse_block`]).
    fn parse_block(&mut self, is_top: bool) -> (r: Result<Vec<ASTNode>, SyntaxError>)
        ensures
            final(self).dialect_of() == old(self).dialect_of(),
            (nodes_res(r), final(self).pstate()) == spec_parse_block(
                old(self).pstate(),
                is_top,
                old(self).xaelia(),
            ),
            pm_le(final(self).pstate(), old(self).pstate()),
        decreases old(self).pstate().rest.len(), old(self).pstate().queue.len(), 2nat,
    {
        let mut nodes: Vec<ASTNode> = Vec::new();
        self.row = if self.row == u16::MAX {
            0
        } else {
            self.row + 1
        };
        self.column = 0;
        assert(nodes_view(nodes@) =~= Seq::<NodeV>::empty());
        loop
            invariant
                self.dialect_of() == old(self).dialect_of(),
                spec_parse_block(old(self).pstate(), is_top, old(self).xaelia()) == spec_block_loop(
                    self.pstate(),
                    nodes_view(nodes@),
                    is_top,
                    old(self).xaelia(),
                ),
                pm_le(self.pstate(), old(self).pstate()),
            decreases self.pstate().rest.len(), self.pstate().queue.len(),
        {
            let ghost s0 = self.pstate();
            proof {
                lemma_consume(s0);
            }
            let token = match self.consume() {
                Ok(t) => t,
                Err(_) => {
                    if !is_top {
                        return Err(
                            SyntaxError::Expected(
                                crate::strings::text("]"),
                                Found::Text(crate::strings::text("")),
                                self.row,
                                self.column,
                            ),
                        );
                    }
                    return Ok(nodes);
                },
            };
            match self.block_step(token, &mut nodes, is_top) {
                None => {},
                Some(Ok(())) => {
                    return Ok(nodes);
                },
                Some(Err(e)) => {
                    return Err(e);
                },
            }
        }
    }

    /// Reads the source text `source` and parses it whole, keeping its text
    /// literals in `data`.
    pub fn run(&mut self, source: Vec<u8>, data: ROData) -> (r: Result<Vec<ASTNode>, SyntaxError>)
        requires
            data.wf(),
        ensures
            final(self).dialect_of() == old(self).dialect_of(),
            final(self).xaelia() == old(self).xaelia(),
            (nodes_res(r), final(self).pstate()) == spec_parse_block(
                PState { rest: source@, has_source: true, ..old(self).pstate() },
                true,
                old(self).xaelia(),
            ),
    {
        self.lexer = Some(Lexer::new(source, data));
        self.parse()
    }

    /// Takes back the read-only data that the text literals of the source
    /// were kept in, with the source itself; `None` when there is none.
    pub fn take_data(&mut self) -> (r: Option<ROData>)
        ensures
            r matches Some(d) ==> d.wf(),
            final(self).dialect_of() == old(self).dialect_of(),
            final(self).pstate().halted == old(self).pstate().halted,
            final(self).xaelia() == old(self).xaelia(),
    {
        match self.lexer.take() {
            Some(l) => Some(l.into_data()),
            None => None,
        }
    }

    /// The lexer has reached a word outside ASCII, where reading the source
    /// cannot go on.
    pub fn halted(&self) -> (r: bool)
        ensures
            r == self.pstate().halted,
    {
        self.halted
    }

    /// Parses the whole source text.
    pub fn parse(&mut self) -> (r: Result<Vec<ASTNode>, SyntaxError>)
        ensures
            final(self).dialect_of() == old(self).dialect_of(),
            (nodes_res(r), final(self).pstate()) == spec_parse_block(
                old(self).pstate(),
                true,
                old(self).xaelia(),
            ),
    {
        self.parse_block(true)
    }
}

} // verus!
