use vstd::prelude::*;
use std::rc::Rc;
use crate::ast::{Expression, FnDef, Infix, List, Prefix, Program, Statement};
use crate::lexer::{
    decimal,
    lemma_lex_chained_equality,
    lemma_lex_negated_product,
    lemma_lex_sum_of_product,
    lexed,
    spaced,
    spaced_equal,
    Token,
};

verus! {

/// Why a token sequence is not a program.
#[derive(PartialEq, Eq, Debug, Clone, Copy)]
pub enum ParseError {
    ExpectedIdentifier,
    ExpectedAssign,
    ExpectedExpression,
    ExpectedLeftParen,
    ExpectedRightParen,
    ExpectedLeftBrace,
}

/// A parse result with the position of the last token consumed.
///
/// Positions only move forward. Where the functions below recurse on a
/// position that an earlier step returned, they test that it moved, so that
/// the definitions are well founded; the parser's own contracts show that
/// the test never fails.
pub type Parsed<T> = Result<(T, int), ParseError>;

pub const LOWEST: u8 = 0;
pub const PREFIX: u8 = 5;

/// The token at `i`; past the end every token is EOF.
pub open spec fn tok<'a>(t: Seq<Token<'a>>, i: int) -> Token<'a> {
    if 0 <= i < t.len() {
        t[i]
    } else {
        Token::EOF
    }
}

/// Binding power of a token in infix position.
pub open spec fn prec_of(t: Token) -> u8 {
    match t {
        Token::EQ | Token::NotEQ => 1,
        Token::LT | Token::GT => 2,
        Token::PlusSign | Token::MinusSign => 3,
        Token::SlashSign | Token::AsteriskSign => 4,
        Token::Lparen => 6,
        _ => 0,
    }
}

pub open spec fn infix_of(t: Token) -> Infix {
    match t {
        Token::EQ => Infix::Equal,
        Token::NotEQ => Infix::NotEqual,
        Token::LT => Infix::LessThan,
        Token::GT => Infix::GreaterThan,
        Token::PlusSign => Infix::Plus,
        Token::MinusSign => Infix::Minus,
        Token::SlashSign => Infix::Divide,
        _ => Infix::Multiply,
    }
}

/// Position after an optional semicolon that follows position `c`.
pub open spec fn skip_semicolon(t: Seq<Token>, c: int) -> int {
    if tok(t, c + 1) is Semicolon {
        c + 1
    } else {
        c
    }
}

pub open spec fn spec_parse_statement<'a>(t: Seq<Token<'a>>, c: int) -> Parsed<Statement<'a>>
    decreases t.len() - c, 9int,
{
    match tok(t, c) {
        Token::Let => spec_parse_let(t, c),
        Token::Return => spec_parse_return(t, c),
        _ => spec_parse_expression_statement(t, c),
    }
}

pub open spec fn spec_parse_let<'a>(t: Seq<Token<'a>>, c: int) -> Parsed<Statement<'a>>
    decreases t.len() - c, 8int,
{
    match tok(t, c + 1) {
        Token::Identifier(name) => {
            if tok(t, c + 2) is EqualSign {
                match spec_parse_expression(t, c + 3, LOWEST) {
                    Ok((e, ce)) => Ok((Statement::LetStatement(name, Box::new(e)), skip_semicolon(t, ce))),
                    Err(err) => Err(err),
                }
            } else {
                Err(ParseError::ExpectedAssign)
            }
        },
        _ => Err(ParseError::ExpectedIdentifier),
    }
}

pub open spec fn spec_parse_return<'a>(t: Seq<Token<'a>>, c: int) -> Parsed<Statement<'a>>
    decreases t.len() - c, 8int,
{
    if c >= t.len() {
        Err(ParseError::ExpectedExpression)
    } else {
        match spec_parse_expression(t, c + 1, LOWEST) {
            Ok((e, ce)) => Ok((Statement::ReturnStatement(Box::new(e)), skip_semicolon(t, ce))),
            Err(err) => Err(err),
        }
    }
}

pub open spec fn spec_parse_expression_statement<'a>(t: Seq<Token<'a>>, c: int) -> Parsed<
    Statement<'a>,
>
    decreases t.len() - c, 8int,
{
    match spec_parse_expression(t, c, LOWEST) {
        Ok((e, ce)) => Ok((Statement::ExpressionStatement(Box::new(e)), skip_semicolon(t, ce))),
        Err(err) => Err(err),
    }
}

/// Pratt parsing: a prefix form, then infix forms binding tighter than `prec`.
pub open spec fn spec_parse_expression<'a>(t: Seq<Token<'a>>, c: int, prec: u8) -> Parsed<
    Expression<'a>,
>
    decreases t.len() - c, 7int,
{
    match spec_parse_prefix_form(t, c) {
        Ok((left, cl)) => if c <= cl < t.len() {
            spec_parse_infix_loop(t, left, cl, prec)
        } else {
            Err(ParseError::ExpectedExpression)
        },
        Err(err) => Err(err),
    }
}

pub open spec fn spec_parse_prefix_form<'a>(t: Seq<Token<'a>>, c: int) -> Parsed<Expression<'a>>
    decreases t.len() - c, 6int,
{
    match tok(t, c) {
        Token::Identifier(name) => Ok((Expression::Ident(name), c)),
        Token::Number(v) => Ok((Expression::Int(v), c)),
        Token::True => Ok((Expression::Bool(true), c)),
        Token::False => Ok((Expression::Bool(false), c)),
        Token::BangSign | Token::MinusSign => {
            let op = if tok(t, c) is BangSign { Prefix::Not } else { Prefix::PrefixMinus };
            match spec_parse_expression(t, c + 1, PREFIX) {
                Ok((r, cr)) => Ok((Expression::PrefixExpression(op, Box::new(r)), cr)),
                Err(err) => Err(err),
            }
        },
        Token::Lparen => match spec_parse_expression(t, c + 1, LOWEST) {
            Ok((e, ce)) => if tok(t, ce + 1) is Rparen {
                Ok((e, ce + 1))
            } else {
                Err(ParseError::ExpectedRightParen)
            },
            Err(err) => Err(err),
        },
        Token::If => spec_parse_if(t, c),
        Token::Function => spec_parse_function(t, c),
        _ => Err(ParseError::ExpectedExpression),
    }
}

pub open spec fn spec_parse_infix_loop<'a>(
    t: Seq<Token<'a>>,
    left: Expression<'a>,
    c: int,
    prec: u8,
) -> Parsed<Expression<'a>>
    decreases t.len() - c, 6int,
{
    let next = tok(t, c + 1);
    if !(next is Semicolon) && prec < prec_of(next) && c + 1 < t.len() {
        if next is Lparen {
            match spec_parse_call_arguments(t, c + 1) {
                Ok((args, ca)) => if c < ca < t.len() {
                    spec_parse_infix_loop(t, Expression::CallExpression(Box::new(left), args), ca, prec)
                } else {
                    Err(ParseError::ExpectedRightParen)
                },
                Err(err) => Err(err),
            }
        } else {
            match spec_parse_expression(t, c + 2, prec_of(next)) {
                Ok((r, cr)) => if c < cr < t.len() {
                    spec_parse_infix_loop(
                        t,
                        Expression::InfixExpression(Box::new(left), infix_of(next), Box::new(r)),
                        cr,
                        prec,
                    )
                } else {
                    Err(ParseError::ExpectedExpression)
                },
                Err(err) => Err(err),
            }
        }
    } else {
        Ok((left, c))
    }
}

pub open spec fn spec_parse_if<'a>(t: Seq<Token<'a>>, c: int) -> Parsed<Expression<'a>>
    decreases t.len() - c, 5int,
{
    if !(tok(t, c + 1) is Lparen) {
        Err(ParseError::ExpectedLeftParen)
    } else {
        match spec_parse_expression(t, c + 2, LOWEST) {
            Err(err) => Err(err),
            Ok((cond, cc)) => if !(tok(t, cc + 1) is Rparen) {
                Err(ParseError::ExpectedRightParen)
            } else if !(tok(t, cc + 2) is Lbrace) {
                Err(ParseError::ExpectedLeftBrace)
            } else if cc + 2 <= c {
                Err(ParseError::ExpectedExpression)
            } else {
                match spec_parse_block(t, cc + 2) {
                    Err(err) => Err(err),
                    Ok((cons, cb)) => if !(tok(t, cb + 1) is Else) {
                        Ok((Expression::IfExpression(Box::new(cond), cons, None), cb))
                    } else if !(tok(t, cb + 2) is Lbrace) {
                        Err(ParseError::ExpectedLeftBrace)
                    } else if cb + 2 <= c {
                        Err(ParseError::ExpectedExpression)
                    } else {
                        match spec_parse_block(t, cb + 2) {
                            Err(err) => Err(err),
                            Ok((alt, ca)) => Ok(
                                (Expression::IfExpression(Box::new(cond), cons, Some(alt)), ca),
                            ),
                        }
                    },
                }
            },
        }
    }
}

/// A block whose `{` stands at `c`: statements up to `}` or the end of input.
pub open spec fn spec_parse_block<'a>(t: Seq<Token<'a>>, c: int) -> Parsed<List<Statement<'a>>>
    decreases t.len() - c, 5int,
{
    if c >= t.len() {
        Ok((List::Nil, c))
    } else {
        spec_parse_block_from(t, c + 1)
    }
}

pub open spec fn spec_parse_block_from<'a>(t: Seq<Token<'a>>, c: int) -> Parsed<
    List<Statement<'a>>,
>
    decreases t.len() - c, 10int,
{
    if tok(t, c) is Rbrace || tok(t, c) is EOF {
        Ok((List::Nil, c))
    } else {
        match spec_parse_statement(t, c) {
            Err(err) => Err(err),
            Ok((s, cs)) => if c <= cs < t.len() - 1 {
                match spec_parse_block_from(t, cs + 1) {
                    Err(err) => Err(err),
                    Ok((rest, cr)) => Ok((List::Cons(Box::new(s), Box::new(rest)), cr)),
                }
            } else if c <= cs < t.len() {
                Ok((List::Cons(Box::new(s), Box::new(List::Nil)), cs))
            } else {
                Err(ParseError::ExpectedExpression)
            },
        }
    }
}

pub open spec fn spec_parse_function<'a>(t: Seq<Token<'a>>, c: int) -> Parsed<Expression<'a>>
    decreases t.len() - c, 5int,
{
    if !(tok(t, c + 1) is Lparen) {
        Err(ParseError::ExpectedLeftParen)
    } else {
        match spec_parse_parameters(t, c + 1) {
            Err(err) => Err(err),
            Ok((params, cp)) => if !(tok(t, cp + 1) is Lbrace) {
                Err(ParseError::ExpectedLeftBrace)
            } else if cp + 1 <= c {
                Err(ParseError::ExpectedExpression)
            } else {
                match spec_parse_block(t, cp + 1) {
                    Err(err) => Err(err),
                    Ok((body, cb)) => Ok(
                        (
                            Expression::FunctionLiteral(
                                Rc::new(FnDef { params, body }),
                            ),
                            cb,
                        ),
                    ),
                }
            },
        }
    }
}

/// Parameters after the `(` at `c`: absent when the list is empty.
pub open spec fn spec_parse_parameters<'a>(t: Seq<Token<'a>>, c: int) -> Parsed<
    Option<List<&'a [u8]>>,
> {
    if tok(t, c + 1) is Rparen {
        Ok((None, c + 1))
    } else {
        match spec_parse_parameters_from(t, c + 1) {
            Ok((ps, cp)) => Ok((Some(ps), cp)),
            Err(err) => Err(err),
        }
    }
}

pub open spec fn spec_parse_parameters_from<'a>(t: Seq<Token<'a>>, c: int) -> Parsed<
    List<&'a [u8]>,
>
    decreases t.len() - c,
{
    match tok(t, c) {
        Token::Identifier(name) => if tok(t, c + 1) is Comma {
            match spec_parse_parameters_from(t, c + 2) {
                Ok((rest, cr)) => Ok((List::Cons(Box::new(name), Box::new(rest)), cr)),
                Err(err) => Err(err),
            }
        } else if tok(t, c + 1) is Rparen {
            Ok((List::Cons(Box::new(name), Box::new(List::Nil)), c + 1))
        } else {
            Err(ParseError::ExpectedRightParen)
        },
        _ => Err(ParseError::ExpectedIdentifier),
    }
}

/// Arguments after the `(` at `c`: absent when the list is empty.
pub open spec fn spec_parse_call_arguments<'a>(t: Seq<Token<'a>>, c: int) -> Parsed<
    Option<List<Expression<'a>>>,
>
    decreases t.len() - c, 5int,
{
    if tok(t, c + 1) is Rparen {
        Ok((None, c + 1))
    } else if c >= t.len() {
        Err(ParseError::ExpectedExpression)
    } else {
        match spec_parse_arguments_from(t, c + 1) {
            Ok((args, ca)) => Ok((Some(args), ca)),
            Err(err) => Err(err),
        }
    }
}

pub open spec fn spec_parse_arguments_from<'a>(t: Seq<Token<'a>>, c: int) -> Parsed<
    List<Expression<'a>>,
>
    decreases t.len() - c, 8int,
{
    match spec_parse_expression(t, c, LOWEST) {
        Err(err) => Err(err),
        Ok((e, ce)) => if tok(t, ce + 1) is Comma && c <= ce < t.len() {
            match spec_parse_arguments_from(t, ce + 2) {
                Ok((rest, cr)) => Ok((List::Cons(Box::new(e), Box::new(rest)), cr)),
                Err(err) => Err(err),
            }
        } else if tok(t, ce + 1) is Rparen {
            Ok((List::Cons(Box::new(e), Box::new(List::Nil)), ce + 1))
        } else {
            Err(ParseError::ExpectedRightParen)
        },
    }
}

pub open spec fn spec_parse_statements<'a>(t: Seq<Token<'a>>, c: int) -> Result<
    List<Statement<'a>>,
    ParseError,
>
    decreases t.len() - c,
{
    if tok(t, c) is EOF {
        Ok(List::Nil)
    } else {
        match spec_parse_statement(t, c) {
            Err(err) => Err(err),
            Ok((s, cs)) => if c <= cs < t.len() - 1 {
                match spec_parse_statements(t, cs + 1) {
                    Ok(rest) => Ok(List::Cons(Box::new(s), Box::new(rest))),
                    Err(err) => Err(err),
                }
            } else if c <= cs < t.len() {
                Ok(List::Cons(Box::new(s), Box::new(List::Nil)))
            } else {
                Err(ParseError::ExpectedExpression)
            },
        }
    }
}

/// The program that the token sequence `t` spells, or the first error.
pub open spec fn spec_parse_program<'a>(t: Seq<Token<'a>>) -> Result<Program<'a>, ParseError> {
    match spec_parse_statements(t, 0) {
        Ok(statements) => Ok(Program { statements }),
        Err(err) => Err(err),
    }
}

/// `r` is the executable form of the parse result `s`.
pub open spec fn agrees<T>(r: Result<(T, usize), ParseError>, s: Parsed<T>) -> bool {
    match r {
        Ok((v, e)) => s == Ok::<(T, int), ParseError>((v, e as int)),
        Err(x) => s == Err::<(T, int), ParseError>(x),
    }
}

/// The last position `r` consumed lies in `[c, n)`.
pub open spec fn ends_within<T>(r: Result<(T, usize), ParseError>, c: int, n: int) -> bool {
    match r {
        Ok((_, e)) => c <= e < n,
        Err(_) => true,
    }
}

/// A Pratt parser over a token sequence that ends in EOF.
pub struct Parser<'b, 'a> {
    tokens: &'b Vec<Token<'a>>,
}

/// A parser over `tokens`, positioned at the first one.
pub fn new<'b, 'a>(tokens: &'b Vec<Token<'a>>) -> (p: Parser<'b, 'a>)
    requires
        valid_tokens(tokens@),
    ensures
        p.wf(),
        p.tokens() == tokens@,
{
    let n = tokens.len();
    assert(tokens@.len() == n);
    Parser { tokens }
}

/// A token sequence the parser accepts as input: it ends in EOF.
pub open spec fn valid_tokens(t: Seq<Token>) -> bool {
    0 < t.len() && t.last() is EOF
}

impl<'b, 'a> Parser<'b, 'a> {
    pub closed spec fn tokens(&self) -> Seq<Token<'a>> {
        self.tokens@
    }

    pub closed spec fn wf(&self) -> bool {
        valid_tokens(self.tokens@) && self.tokens@.len() <= usize::MAX
    }

    /// Parses the whole token sequence into a program, or fails on the first
    /// unexpected token.
    pub fn parse_program(&self) -> (r: Result<Program<'a>, ParseError>)
        requires
            self.wf(),
        ensures
            r == spec_parse_program(self.tokens()),
    {
        match self.parse_statements(0) {
            Ok(statements) => Ok(Program { statements }),
            Err(err) => Err(err),
        }
    }

    fn tok(&self, i: usize) -> (t: Token<'a>)
        ensures
            t == tok(self.tokens@, i as int),
    {
        if i < self.tokens.len() {
            self.tokens[i]
        } else {
            Token::EOF
        }
    }

    fn peek_token_is_semicolon(&self, c: usize) -> (r: bool)
        requires
            self.wf(),
            c < self.tokens@.len(),
        ensures
            r == (tok(self.tokens@, c + 1) is Semicolon),
    {
        if let Token::Semicolon = self.tok(c + 1) {
            true
        } else {
            false
        }
    }

    fn skip_semicolon(&self, c: usize) -> (r: usize)
        requires
            self.wf(),
            c < self.tokens@.len(),
        ensures
            r == skip_semicolon(self.tokens@, c as int),
            c <= r < self.tokens@.len(),
    {
        if self.peek_token_is_semicolon(c) {
            c + 1
        } else {
            c
        }
    }

    fn parse_statements(&self, c: usize) -> (r: Result<List<Statement<'a>>, ParseError>)
        requires
            self.wf(),
            c < self.tokens@.len(),
        ensures
            r == spec_parse_statements(self.tokens@, c as int),
        decreases self.tokens@.len() - c,
    {
        if let Token::EOF = self.tok(c) {
            return Ok(List::Nil);
        }
        let (s, cs) = match self.parse_statement(c) {
            Ok(v) => v,
            Err(err) => {
                return Err(err);
            },
        };
        if cs + 1 >= self.tokens.len() {
            return Ok(List::Cons(Box::new(s), Box::new(List::Nil)));
        }
        match self.parse_statements(cs + 1) {
            Ok(rest) => Ok(List::Cons(Box::new(s), Box::new(rest))),
            Err(err) => Err(err),
        }
    }

    fn parse_statement(&self, c: usize) -> (r: Result<(Statement<'a>, usize), ParseError>)
        requires
            self.wf(),
            c < self.tokens@.len(),
        ensures
            agrees(r, spec_parse_statement(self.tokens@, c as int)),
            ends_within(r, c as int, self.tokens@.len() as int),
        decreases self.tokens@.len() - c, 9int,
    {
        match self.tok(c) {
            Token::Let => self.parse_let_statement(c),
            Token::Return => self.parse_return_statement(c),
            _ => self.parse_expression_statement(c),
        }
    }

    fn parse_let_statement(&self, c: usize) -> (r: Result<(Statement<'a>, usize), ParseError>)
        requires
            self.wf(),
            c < self.tokens@.len(),
        ensures
            agrees(r, spec_parse_let(self.tokens@, c as int)),
            ends_within(r, c as int, self.tokens@.len() as int),
        decreases self.tokens@.len() - c, 8int,
    {
        let name = match self.tok(c + 1) {
            Token::Identifier(name) => name,
            _ => {
                return Err(ParseError::ExpectedIdentifier);
            },
        };
        if let Token::EqualSign = self.tok(c + 2) {
        } else {
            return Err(ParseError::ExpectedAssign);
        }
        match self.parse_expression(c + 3, LOWEST) {
            Ok((e, ce)) => Ok((Statement::LetStatement(name, Box::new(e)), self.skip_semicolon(ce))),
            Err(err) => Err(err),
        }
    }

    fn parse_return_statement(&self, c: usize) -> (r: Result<(Statement<'a>, usize), ParseError>)
        requires
            self.wf(),
            c < self.tokens@.len(),
        ensures
            agrees(r, spec_parse_return(self.tokens@, c as int)),
            ends_within(r, c as int, self.tokens@.len() as int),
        decreases self.tokens@.len() - c, 8int,
    {
        if c + 1 >= self.tokens.len() {
            return Err(ParseError::ExpectedExpression);
        }
        match self.parse_expression(c + 1, LOWEST) {
            Ok((e, ce)) => Ok((Statement::ReturnStatement(Box::new(e)), self.skip_semicolon(ce))),
            Err(err) => Err(err),
        }
    }

    fn parse_expression_statement(&self, c: usize) -> (r: Result<(Statement<'a>, usize), ParseError>)
        requires
            self.wf(),
            c < self.tokens@.len(),
        ensures
            agrees(r, spec_parse_expression_statement(self.tokens@, c as int)),
            ends_within(r, c as int, self.tokens@.len() as int),
        decreases self.tokens@.len() - c, 8int,
    {
        match self.parse_expression(c, LOWEST) {
            Ok((e, ce)) => Ok(
                (Statement::ExpressionStatement(Box::new(e)), self.skip_semicolon(ce)),
            ),
            Err(err) => Err(err),
        }
    }

    fn parse_expression(&self, c: usize, prec: u8) -> (r: Result<(Expression<'a>, usize), ParseError>)
        requires
            self.wf(),
            c < self.tokens@.len(),
        ensures
            agrees(r, spec_parse_expression(self.tokens@, c as int, prec)),
            ends_within(r, c as int, self.tokens@.len() as int),
        decreases self.tokens@.len() - c, 7int,
    {
        match self.parse_prefix_form(c) {
            Ok((left, cl)) => self.parse_infix_loop(left, cl, prec),
            Err(err) => Err(err),
        }
    }

    fn parse_prefix_form(&self, c: usize) -> (r: Result<(Expression<'a>, usize), ParseError>)
        requires
            self.wf(),
            c < self.tokens@.len(),
        ensures
            agrees(r, spec_parse_prefix_form(self.tokens@, c as int)),
            ends_within(r, c as int, self.tokens@.len() as int),
        decreases self.tokens@.len() - c, 6int,
    {
        match self.tok(c) {
            Token::Identifier(name) => Ok((Expression::Ident(name), c)),
            Token::Number(v) => Ok((Expression::Int(v), c)),
            Token::True => Ok((Expression::Bool(true), c)),
            Token::False => Ok((Expression::Bool(false), c)),
            Token::BangSign => self.parse_prefix_expression(c, Prefix::Not),
            Token::MinusSign => self.parse_prefix_expression(c, Prefix::PrefixMinus),
            Token::Lparen => self.parse_grouped_expression(c),
            Token::If => self.parse_if_expression(c),
            Token::Function => self.parse_function_literal(c),
            _ => Err(ParseError::ExpectedExpression),
        }
    }

    fn parse_prefix_expression(&self, c: usize, op: Prefix) -> (r: Result<
        (Expression<'a>, usize),
        ParseError,
    >)
        requires
            self.wf(),
            c < self.tokens@.len() - 1,
        ensures
            agrees(
                r,
                match spec_parse_expression(self.tokens@, c + 1, PREFIX) {
                    Ok((e, ce)) => Ok((Expression::PrefixExpression(op, Box::new(e)), ce)),
                    Err(err) => Err(err),
                },
            ),
            ends_within(r, c as int, self.tokens@.len() as int),
        decreases self.tokens@.len() - c, 5int,
    {
        match self.parse_expression(c + 1, PREFIX) {
            Ok((e, ce)) => Ok((Expression::PrefixExpression(op, Box::new(e)), ce)),
            Err(err) => Err(err),
        }
    }

    fn parse_grouped_expression(&self, c: usize) -> (r: Result<(Expression<'a>, usize), ParseError>)
        requires
            self.wf(),
            c < self.tokens@.len() - 1,
        ensures
            agrees(
                r,
                match spec_parse_expression(self.tokens@, c + 1, LOWEST) {
                    Ok((e, ce)) => if tok(self.tokens@, ce + 1) is Rparen {
                        Ok((e, ce + 1))
                    } else {
                        Err(ParseError::ExpectedRightParen)
                    },
                    Err(err) => Err(err),
                },
            ),
            ends_within(r, c as int, self.tokens@.len() as int),
        decreases self.tokens@.len() - c, 5int,
    {
        match self.parse_expression(c + 1, LOWEST) {
            Ok((e, ce)) => if let Token::Rparen = self.tok(ce + 1) {
                Ok((e, ce + 1))
            } else {
                Err(ParseError::ExpectedRightParen)
            },
            Err(err) => Err(err),
        }
    }

    fn parse_infix_loop(&self, left: Expression<'a>, c: usize, prec: u8) -> (r: Result<
        (Expression<'a>, usize),
        ParseError,
    >)
        requires
            self.wf(),
            c < self.tokens@.len(),
        ensures
            agrees(r, spec_parse_infix_loop(self.tokens@, left, c as int, prec)),
            ends_within(r, c as int, self.tokens@.len() as int),
        decreases self.tokens@.len() - c, 6int,
    {
        let next = self.tok(c + 1);
        if self.peek_token_is_semicolon(c) || prec >= precedence(next) {
            return Ok((left, c));
        }
        if let Token::Lparen = next {
            match self.parse_call_arguments(c + 1) {
                Ok((args, ca)) => self.parse_infix_loop(
                    Expression::CallExpression(Box::new(left), args),
                    ca,
                    prec,
                ),
                Err(err) => Err(err),
            }
        } else {
            match self.parse_expression(c + 2, precedence(next)) {
                Ok((right, cr)) => self.parse_infix_loop(
                    Expression::InfixExpression(Box::new(left), infix_op(next), Box::new(right)),
                    cr,
                    prec,
                ),
                Err(err) => Err(err),
            }
        }
    }

    fn parse_if_expression(&self, c: usize) -> (r: Result<(Expression<'a>, usize), ParseError>)
        requires
            self.wf(),
            c < self.tokens@.len() - 1,
        ensures
            agrees(r, spec_parse_if(self.tokens@, c as int)),
            ends_within(r, c as int, self.tokens@.len() as int),
        decreases self.tokens@.len() - c, 5int,
    {
        if let Token::Lparen = self.tok(c + 1) {
        } else {
            return Err(ParseError::ExpectedLeftParen);
        }
        let (cond, cc) = match self.parse_expression(c + 2, LOWEST) {
            Ok(v) => v,
            Err(err) => {
                return Err(err);
            },
        };
        if let Token::Rparen = self.tok(cc + 1) {
        } else {
            return Err(ParseError::ExpectedRightParen);
        }
        if let Token::Lbrace = self.tok(cc + 2) {
        } else {
            return Err(ParseError::ExpectedLeftBrace);
        }
        let (cons, cb) = match self.parse_block_statement(cc + 2) {
            Ok(v) => v,
            Err(err) => {
                return Err(err);
            },
        };
        if let Token::Else = self.tok(cb + 1) {
        } else {
            return Ok((Expression::IfExpression(Box::new(cond), cons, None), cb));
        }
        if let Token::Lbrace = self.tok(cb + 2) {
        } else {
            return Err(ParseError::ExpectedLeftBrace);
        }
        match self.parse_block_statement(cb + 2) {
            Ok((alt, ca)) => Ok((Expression::IfExpression(Box::new(cond), cons, Some(alt)), ca)),
            Err(err) => Err(err),
        }
    }

    fn parse_block_statement(&self, c: usize) -> (r: Result<(List<Statement<'a>>, usize), ParseError>)
        requires
            self.wf(),
            c < self.tokens@.len() - 1,
        ensures
            agrees(r, spec_parse_block(self.tokens@, c as int)),
            ends_within(r, c as int, self.tokens@.len() as int),
        decreases self.tokens@.len() - c, 5int,
    {
        self.parse_block_from(c + 1)
    }

    fn parse_block_from(&self, c: usize) -> (r: Result<(List<Statement<'a>>, usize), ParseError>)
        requires
            self.wf(),
            c < self.tokens@.len(),
        ensures
            agrees(r, spec_parse_block_from(self.tokens@, c as int)),
            ends_within(r, c as int, self.tokens@.len() as int),
        decreases self.tokens@.len() - c, 10int,
    {
        match self.tok(c) {
            Token::Rbrace | Token::EOF => {
                return Ok((List::Nil, c));
            },
            _ => {},
        }
        let (s, cs) = match self.parse_statement(c) {
            Ok(v) => v,
            Err(err) => {
                return Err(err);
            },
        };
        if cs + 1 >= self.tokens.len() {
            return Ok((List::Cons(Box::new(s), Box::new(List::Nil)), cs));
        }
        match self.parse_block_from(cs + 1) {
            Ok((rest, cr)) => Ok((List::Cons(Box::new(s), Box::new(rest)), cr)),
            Err(err) => Err(err),
        }
    }

    fn parse_function_literal(&self, c: usize) -> (r: Result<(Expression<'a>, usize), ParseError>)
        requires
            self.wf(),
            c < self.tokens@.len() - 1,
        ensures
            agrees(r, spec_parse_function(self.tokens@, c as int)),
            ends_within(r, c as int, self.tokens@.len() as int),
        decreases self.tokens@.len() - c, 5int,
    {
        if let Token::Lparen = self.tok(c + 1) {
        } else {
            return Err(ParseError::ExpectedLeftParen);
        }
        let (params, cp) = match self.parse_function_parameters(c + 1) {
            Ok(v) => v,
            Err(err) => {
                return Err(err);
            },
        };
        if let Token::Lbrace = self.tok(cp + 1) {
        } else {
            return Err(ParseError::ExpectedLeftBrace);
        }
        match self.parse_block_statement(cp + 1) {
            Ok((body, cb)) => Ok(
                (Expression::FunctionLiteral(Rc::new(FnDef { params, body })), cb),
            ),
            Err(err) => Err(err),
        }
    }

    fn parse_function_parameters(&self, c: usize) -> (r: Result<
        (Option<List<&'a [u8]>>, usize),
        ParseError,
    >)
        requires
            self.wf(),
            c < self.tokens@.len() - 1,
        ensures
            agrees(r, spec_parse_parameters(self.tokens@, c as int)),
            ends_within(r, c as int, self.tokens@.len() as int),
    {
        if let Token::Rparen = self.tok(c + 1) {
            return Ok((None, c + 1));
        }
        match self.parse_parameters_from(c + 1) {
            Ok((ps, cp)) => Ok((Some(ps), cp)),
            Err(err) => Err(err),
        }
    }

    fn parse_parameters_from(&self, c: usize) -> (r: Result<(List<&'a [u8]>, usize), ParseError>)
        requires
            self.wf(),
            c < self.tokens@.len(),
        ensures
            agrees(r, spec_parse_parameters_from(self.tokens@, c as int)),
            ends_within(r, c as int, self.tokens@.len() as int),
        decreases self.tokens@.len() - c,
    {
        let name = match self.tok(c) {
            Token::Identifier(name) => name,
            _ => {
                return Err(ParseError::ExpectedIdentifier);
            },
        };
        match self.tok(c + 1) {
            Token::Comma => match self.parse_parameters_from(c + 2) {
                Ok((rest, cr)) => Ok((List::Cons(Box::new(name), Box::new(rest)), cr)),
                Err(err) => Err(err),
            },
            Token::Rparen => Ok((List::Cons(Box::new(name), Box::new(List::Nil)), c + 1)),
            _ => Err(ParseError::ExpectedRightParen),
        }
    }

    fn parse_call_arguments(&self, c: usize) -> (r: Result<
        (Option<List<Expression<'a>>>, usize),
        ParseError,
    >)
        requires
            self.wf(),
            c < self.tokens@.len() - 1,
        ensures
            agrees(r, spec_parse_call_arguments(self.tokens@, c as int)),
            ends_within(r, c as int, self.tokens@.len() as int),
        decreases self.tokens@.len() - c, 5int,
    {
        if let Token::Rparen = self.tok(c + 1) {
            return Ok((None, c + 1));
        }
        match self.parse_arguments_from(c + 1) {
            Ok((args, ca)) => Ok((Some(args), ca)),
            Err(err) => Err(err),
        }
    }

    fn parse_arguments_from(&self, c: usize) -> (r: Result<(List<Expression<'a>>, usize), ParseError>)
        requires
            self.wf(),
            c < self.tokens@.len(),
        ensures
            agrees(r, spec_parse_arguments_from(self.tokens@, c as int)),
            ends_within(r, c as int, self.tokens@.len() as int),
        decreases self.tokens@.len() - c, 8int,
    {
        let (e, ce) = match self.parse_expression(c, LOWEST) {
            Ok(v) => v,
            Err(err) => {
                return Err(err);
            },
        };
        match self.tok(ce + 1) {
            Token::Comma => match self.parse_arguments_from(ce + 2) {
                Ok((rest, cr)) => Ok((List::Cons(Box::new(e), Box::new(rest)), cr)),
                Err(err) => Err(err),
            },
            Token::Rparen => Ok((List::Cons(Box::new(e), Box::new(List::Nil)), ce + 1)),
            _ => Err(ParseError::ExpectedRightParen),
        }
    }
}

/// Binding power of a token in infix position.
fn precedence(t: Token) -> (p: u8)
    ensures
        p == prec_of(t),
{
    match t {
        Token::EQ | Token::NotEQ => 1,
        Token::LT | Token::GT => 2,
        Token::PlusSign | Token::MinusSign => 3,
        Token::SlashSign | Token::AsteriskSign => 4,
        Token::Lparen => 6,
        _ => 0,
    }
}

fn infix_op(t: Token) -> (op: Infix)
    ensures
        op == infix_of(t),
{
    match t {
        Token::EQ => Infix::Equal,
        Token::NotEQ => Infix::NotEqual,
        Token::LT => Infix::LessThan,
        Token::GT => Infix::GreaterThan,
        Token::PlusSign => Infix::Plus,
        Token::MinusSign => Infix::Minus,
        Token::SlashSign => Infix::Divide,
        _ => Infix::Multiply,
    }
}

/// A program of one expression statement.
pub open spec fn expression_program<'a>(e: Expression<'a>) -> Program<'a> {
    Program {
        statements: List::Cons(
            Box::new(Statement::ExpressionStatement(Box::new(e))),
            Box::new(List::Nil),
        ),
    }
}

pub open spec fn infix<'a>(l: Expression<'a>, op: Infix, r: Expression<'a>) -> Expression<'a> {
    Expression::InfixExpression(Box::new(l), op, Box::new(r))
}

/// Parsing depends on the tokens alone: equal token sequences give equal
/// programs, or the same error.
pub proof fn lemma_parse_deterministic<'a>(t1: Seq<Token<'a>>, t2: Seq<Token<'a>>)
    requires
        t1 == t2,
    ensures
        spec_parse_program(t1) == spec_parse_program(t2),
{
}

/// `a + b * c` parses as `a + (b * c)`: product binds tighter than sum.
pub proof fn lemma_product_binds_tighter_than_sum(a: u64, b: u64, c: u64)
    ensures
        spec_parse_program(
            seq![Token::Number(a), Token::PlusSign, Token::Number(b), Token::AsteriskSign, Token::Number(c), Token::EOF],
        ) == spec_parse_program(
            seq![
                Token::Number(a),
                Token::PlusSign,
                Token::Lparen,
                Token::Number(b),
                Token::AsteriskSign,
                Token::Number(c),
                Token::Rparen,
                Token::EOF,
            ],
        ),
        spec_parse_program(
            seq![Token::Number(a), Token::PlusSign, Token::Number(b), Token::AsteriskSign, Token::Number(c), Token::EOF],
        ) == Ok::<Program, ParseError>(
            expression_program(
                infix(
                    Expression::Int(a),
                    Infix::Plus,
                    infix(Expression::Int(b), Infix::Multiply, Expression::Int(c)),
                ),
            ),
        ),
{
    let ea = Expression::Int(a);
    let eb = Expression::Int(b);
    let ec = Expression::Int(c);
    let bc = infix(eb, Infix::Multiply, ec);
    let all = infix(ea, Infix::Plus, bc);
    let st = Statement::ExpressionStatement(Box::new(all));
    let t1: Seq<Token> = seq![Token::Number(a), Token::PlusSign, Token::Number(b), Token::AsteriskSign, Token::Number(c), Token::EOF];
    assert(spec_parse_prefix_form(t1, 4) == Ok::<(Expression, int), ParseError>((ec, 4)));
    assert(spec_parse_infix_loop(t1, ec, 4, 4) == Ok::<(Expression, int), ParseError>((ec, 4)));
    assert(spec_parse_expression(t1, 4, 4) == Ok::<(Expression, int), ParseError>((ec, 4)));
    assert(spec_parse_infix_loop(t1, bc, 4, 3) == Ok::<(Expression, int), ParseError>((bc, 4)));
    assert(spec_parse_infix_loop(t1, eb, 2, 3) == Ok::<(Expression, int), ParseError>((bc, 4)));
    assert(spec_parse_expression(t1, 2, 3) == Ok::<(Expression, int), ParseError>((bc, 4)));
    assert(spec_parse_infix_loop(t1, all, 4, 0) == Ok::<(Expression, int), ParseError>((all, 4)));
    assert(spec_parse_infix_loop(t1, ea, 0, 0) == Ok::<(Expression, int), ParseError>((all, 4)));
    assert(spec_parse_expression(t1, 0, 0) == Ok::<(Expression, int), ParseError>((all, 4)));
    assert(spec_parse_statement(t1, 0) == Ok::<(Statement, int), ParseError>((st, 4)));
    assert(spec_parse_statements(t1, 5) == Ok::<List<Statement>, ParseError>(List::Nil));
    assert(spec_parse_statements(t1, 0) == Ok::<List<Statement>, ParseError>(expression_program(all).statements));

    let t2: Seq<Token> = seq![
        Token::Number(a),
        Token::PlusSign,
        Token::Lparen,
        Token::Number(b),
        Token::AsteriskSign,
        Token::Number(c),
        Token::Rparen,
        Token::EOF,
    ];
    assert(spec_parse_prefix_form(t2, 5) == Ok::<(Expression, int), ParseError>((ec, 5)));
    assert(spec_parse_infix_loop(t2, ec, 5, 4) == Ok::<(Expression, int), ParseError>((ec, 5)));
    assert(spec_parse_expression(t2, 5, 4) == Ok::<(Expression, int), ParseError>((ec, 5)));
    assert(spec_parse_infix_loop(t2, bc, 5, 0) == Ok::<(Expression, int), ParseError>((bc, 5)));
    assert(spec_parse_infix_loop(t2, eb, 3, 0) == Ok::<(Expression, int), ParseError>((bc, 5)));
    assert(spec_parse_expression(t2, 3, 0) == Ok::<(Expression, int), ParseError>((bc, 5)));
    assert(spec_parse_prefix_form(t2, 2) == Ok::<(Expression, int), ParseError>((bc, 6)));
    assert(spec_parse_infix_loop(t2, bc, 6, 3) == Ok::<(Expression, int), ParseError>((bc, 6)));
    assert(spec_parse_expression(t2, 2, 3) == Ok::<(Expression, int), ParseError>((bc, 6)));
    assert(spec_parse_infix_loop(t2, all, 6, 0) == Ok::<(Expression, int), ParseError>((all, 6)));
    assert(spec_parse_infix_loop(t2, ea, 0, 0) == Ok::<(Expression, int), ParseError>((all, 6)));
    assert(spec_parse_expression(t2, 0, 0) == Ok::<(Expression, int), ParseError>((all, 6)));
    assert(spec_parse_statement(t2, 0) == Ok::<(Statement, int), ParseError>((st, 6)));
    assert(spec_parse_statements(t2, 7) == Ok::<List<Statement>, ParseError>(List::Nil));
    assert(spec_parse_statements(t2, 0) == Ok::<List<Statement>, ParseError>(expression_program(all).statements));
}

/// `-a * b` parses as `(-a) * b`: a prefix operator binds tighter than product.
pub proof fn lemma_prefix_binds_tighter_than_product(a: u64, b: u64)
    ensures
        spec_parse_program(
            seq![Token::MinusSign, Token::Number(a), Token::AsteriskSign, Token::Number(b), Token::EOF],
        ) == spec_parse_program(
            seq![
                Token::Lparen,
                Token::MinusSign,
                Token::Number(a),
                Token::Rparen,
                Token::AsteriskSign,
                Token::Number(b),
                Token::EOF,
            ],
        ),
        spec_parse_program(
            seq![Token::MinusSign, Token::Number(a), Token::AsteriskSign, Token::Number(b), Token::EOF],
        ) == Ok::<Program, ParseError>(
            expression_program(
                infix(
                    Expression::PrefixExpression(Prefix::PrefixMinus, Box::new(Expression::Int(a))),
                    Infix::Multiply,
                    Expression::Int(b),
                ),
            ),
        ),
{
    let ea = Expression::Int(a);
    let eb = Expression::Int(b);
    let na = Expression::PrefixExpression(Prefix::PrefixMinus, Box::new(ea));
    let all = infix(na, Infix::Multiply, eb);
    let st = Statement::ExpressionStatement(Box::new(all));
    let t1: Seq<Token> = seq![Token::MinusSign, Token::Number(a), Token::AsteriskSign, Token::Number(b), Token::EOF];
    assert(spec_parse_infix_loop(t1, ea, 1, PREFIX) == Ok::<(Expression, int), ParseError>((ea, 1)));
    assert(spec_parse_expression(t1, 1, PREFIX) == Ok::<(Expression, int), ParseError>((ea, 1)));
    assert(spec_parse_prefix_form(t1, 0) == Ok::<(Expression, int), ParseError>((na, 1)));
    assert(spec_parse_infix_loop(t1, eb, 3, 4) == Ok::<(Expression, int), ParseError>((eb, 3)));
    assert(spec_parse_expression(t1, 3, 4) == Ok::<(Expression, int), ParseError>((eb, 3)));
    assert(spec_parse_infix_loop(t1, all, 3, 0) == Ok::<(Expression, int), ParseError>((all, 3)));
    assert(spec_parse_infix_loop(t1, na, 1, 0) == Ok::<(Expression, int), ParseError>((all, 3)));
    assert(spec_parse_expression(t1, 0, 0) == Ok::<(Expression, int), ParseError>((all, 3)));
    assert(spec_parse_statement(t1, 0) == Ok::<(Statement, int), ParseError>((st, 3)));
    assert(spec_parse_statements(t1, 4) == Ok::<List<Statement>, ParseError>(List::Nil));
    assert(spec_parse_statements(t1, 0) == Ok::<List<Statement>, ParseError>(expression_program(all).statements));

    let t2: Seq<Token> = seq![
        Token::Lparen,
        Token::MinusSign,
        Token::Number(a),
        Token::Rparen,
        Token::AsteriskSign,
        Token::Number(b),
        Token::EOF,
    ];
    assert(spec_parse_infix_loop(t2, ea, 2, PREFIX) == Ok::<(Expression, int), ParseError>((ea, 2)));
    assert(spec_parse_expression(t2, 2, PREFIX) == Ok::<(Expression, int), ParseError>((ea, 2)));
    assert(spec_parse_prefix_form(t2, 1) == Ok::<(Expression, int), ParseError>((na, 2)));
    assert(spec_parse_infix_loop(t2, na, 2, 0) == Ok::<(Expression, int), ParseError>((na, 2)));
    assert(spec_parse_expression(t2, 1, 0) == Ok::<(Expression, int), ParseError>((na, 2)));
    assert(spec_parse_prefix_form(t2, 0) == Ok::<(Expression, int), ParseError>((na, 3)));
    assert(spec_parse_infix_loop(t2, eb, 5, 4) == Ok::<(Expression, int), ParseError>((eb, 5)));
    assert(spec_parse_expression(t2, 5, 4) == Ok::<(Expression, int), ParseError>((eb, 5)));
    assert(spec_parse_infix_loop(t2, all, 5, 0) == Ok::<(Expression, int), ParseError>((all, 5)));
    assert(spec_parse_infix_loop(t2, na, 3, 0) == Ok::<(Expression, int), ParseError>((all, 5)));
    assert(spec_parse_expression(t2, 0, 0) == Ok::<(Expression, int), ParseError>((all, 5)));
    assert(spec_parse_statement(t2, 0) == Ok::<(Statement, int), ParseError>((st, 5)));
    assert(spec_parse_statements(t2, 6) == Ok::<List<Statement>, ParseError>(List::Nil));
    assert(spec_parse_statements(t2, 0) == Ok::<List<Statement>, ParseError>(expression_program(all).statements));
}

/// `a == b == c` parses as `(a == b) == c`: operators of one level associate
/// to the left.
pub proof fn lemma_equality_is_left_associative(a: u64, b: u64, c: u64)
    ensures
        spec_parse_program(
            seq![Token::Number(a), Token::EQ, Token::Number(b), Token::EQ, Token::Number(c), Token::EOF],
        ) == spec_parse_program(
            seq![
                Token::Lparen,
                Token::Number(a),
                Token::EQ,
                Token::Number(b),
                Token::Rparen,
                Token::EQ,
                Token::Number(c),
                Token::EOF,
            ],
        ),
        spec_parse_program(
            seq![Token::Number(a), Token::EQ, Token::Number(b), Token::EQ, Token::Number(c), Token::EOF],
        ) == Ok::<Program, ParseError>(
            expression_program(
                infix(
                    infix(Expression::Int(a), Infix::Equal, Expression::Int(b)),
                    Infix::Equal,
                    Expression::Int(c),
                ),
            ),
        ),
{
    let ea = Expression::Int(a);
    let eb = Expression::Int(b);
    let ec = Expression::Int(c);
    let ab = infix(ea, Infix::Equal, eb);
    let all = infix(ab, Infix::Equal, ec);
    let st = Statement::ExpressionStatement(Box::new(all));
    let t1: Seq<Token> = seq![Token::Number(a), Token::EQ, Token::Number(b), Token::EQ, Token::Number(c), Token::EOF];
    assert(spec_parse_infix_loop(t1, eb, 2, 1) == Ok::<(Expression, int), ParseError>((eb, 2)));
    assert(spec_parse_expression(t1, 2, 1) == Ok::<(Expression, int), ParseError>((eb, 2)));
    assert(spec_parse_infix_loop(t1, ec, 4, 1) == Ok::<(Expression, int), ParseError>((ec, 4)));
    assert(spec_parse_expression(t1, 4, 1) == Ok::<(Expression, int), ParseError>((ec, 4)));
    assert(spec_parse_infix_loop(t1, all, 4, 0) == Ok::<(Expression, int), ParseError>((all, 4)));
    assert(spec_parse_infix_loop(t1, ab, 2, 0) == Ok::<(Expression, int), ParseError>((all, 4)));
    assert(spec_parse_infix_loop(t1, ea, 0, 0) == Ok::<(Expression, int), ParseError>((all, 4)));
    assert(spec_parse_expression(t1, 0, 0) == Ok::<(Expression, int), ParseError>((all, 4)));
    assert(spec_parse_statement(t1, 0) == Ok::<(Statement, int), ParseError>((st, 4)));
    assert(spec_parse_statements(t1, 5) == Ok::<List<Statement>, ParseError>(List::Nil));
    assert(spec_parse_statements(t1, 0) == Ok::<List<Statement>, ParseError>(expression_program(all).statements));

    let t2: Seq<Token> = seq![
        Token::Lparen,
        Token::Number(a),
        Token::EQ,
        Token::Number(b),
        Token::Rparen,
        Token::EQ,
        Token::Number(c),
        Token::EOF,
    ];
    assert(spec_parse_infix_loop(t2, eb, 3, 1) == Ok::<(Expression, int), ParseError>((eb, 3)));
    assert(spec_parse_expression(t2, 3, 1) == Ok::<(Expression, int), ParseError>((eb, 3)));
    assert(spec_parse_infix_loop(t2, ab, 3, 0) == Ok::<(Expression, int), ParseError>((ab, 3)));
    assert(spec_parse_infix_loop(t2, ea, 1, 0) == Ok::<(Expression, int), ParseError>((ab, 3)));
    assert(spec_parse_expression(t2, 1, 0) == Ok::<(Expression, int), ParseError>((ab, 3)));
    assert(spec_parse_prefix_form(t2, 0) == Ok::<(Expression, int), ParseError>((ab, 4)));
    assert(spec_parse_infix_loop(t2, ec, 6, 1) == Ok::<(Expression, int), ParseError>((ec, 6)));
    assert(spec_parse_expression(t2, 6, 1) == Ok::<(Expression, int), ParseError>((ec, 6)));
    assert(spec_parse_infix_loop(t2, all, 6, 0) == Ok::<(Expression, int), ParseError>((all, 6)));
    assert(spec_parse_infix_loop(t2, ab, 4, 0) == Ok::<(Expression, int), ParseError>((all, 6)));
    assert(spec_parse_expression(t2, 0, 0) == Ok::<(Expression, int), ParseError>((all, 6)));
    assert(spec_parse_statement(t2, 0) == Ok::<(Statement, int), ParseError>((st, 6)));
    assert(spec_parse_statements(t2, 7) == Ok::<List<Statement>, ParseError>(List::Nil));
    assert(spec_parse_statements(t2, 0) == Ok::<List<Statement>, ParseError>(expression_program(all).statements));
}

/// From source text: `a + b * c` lexes and parses to `a + (b * c)`.
pub proof fn lemma_source_product_binds_tighter_than_sum<'a>(
    a: u64,
    b: u64,
    c: u64,
    toks: Seq<Token<'a>>,
)
    requires
        lexed(
            spaced(spaced(decimal(a as nat), '+' as u8, decimal(b as nat)), '*' as u8, decimal(c as nat)),
            toks,
        ),
    ensures
        spec_parse_program(toks) == Ok::<Program, ParseError>(
            expression_program(
                infix(
                    Expression::Int(a),
                    Infix::Plus,
                    infix(Expression::Int(b), Infix::Multiply, Expression::Int(c)),
                ),
            ),
        ),
{
    lemma_lex_sum_of_product(a, b, c, toks);
    lemma_product_binds_tighter_than_sum(a, b, c);
}

/// From source text: `-a * b` lexes and parses to `(-a) * b`.
pub proof fn lemma_source_prefix_binds_tighter_than_product<'a>(
    a: u64,
    b: u64,
    toks: Seq<Token<'a>>,
)
    requires
        lexed(spaced(seq!['-' as u8] + decimal(a as nat), '*' as u8, decimal(b as nat)), toks),
    ensures
        spec_parse_program(toks) == Ok::<Program, ParseError>(
            expression_program(
                infix(
                    Expression::PrefixExpression(Prefix::PrefixMinus, Box::new(Expression::Int(a))),
                    Infix::Multiply,
                    Expression::Int(b),
                ),
            ),
        ),
{
    lemma_lex_negated_product(a, b, toks);
    lemma_prefix_binds_tighter_than_product(a, b);
}

/// From source text: `a == b == c` lexes and parses to `(a == b) == c`.
pub proof fn lemma_source_equality_is_left_associative<'a>(
    a: u64,
    b: u64,
    c: u64,
    toks: Seq<Token<'a>>,
)
    requires
        lexed(
            spaced_equal(spaced_equal(decimal(a as nat), decimal(b as nat)), decimal(c as nat)),
            toks,
        ),
    ensures
        spec_parse_program(toks) == Ok::<Program, ParseError>(
            expression_program(
                infix(
                    infix(Expression::Int(a), Infix::Equal, Expression::Int(b)),
                    Infix::Equal,
                    Expression::Int(c),
                ),
            ),
        ),
{
    lemma_lex_chained_equality(a, b, c, toks);
    lemma_equality_is_left_associative(a, b, c);
}

} // verus!
