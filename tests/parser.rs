use interpreter::ast::{Expression, Infix, List, Prefix, Program, Statement};
use interpreter::lexer::{self, Token};
use interpreter::parser::{self, ParseError};

fn tokens(src: &str) -> Vec<Token<'_>> {
    lexer::new(src).get_tokens()
}

fn parse(src: &str) -> Result<Program<'_>, ParseError> {
    let toks = tokens(src);
    parser::new(&toks).parse_program()
}

fn single_expression(src: &str) -> Expression<'_> {
    let program = parse(src).expect("program parses");
    match program.statements {
        List::Cons(s, rest) => {
            assert_eq!(*rest, List::Nil);
            match *s {
                Statement::ExpressionStatement(e) => *e,
                _ => panic!("expected an expression statement"),
            }
        }
        List::Nil => panic!("empty program"),
    }
}

fn lit(v: u64) -> Box<Expression<'static>> {
    Box::new(Expression::Int(v))
}

#[test]
fn parse_sum_of_product() {
    assert_eq!(parse("1 + 2 * 3"), parse("1 + (2 * 3)"));
    assert_eq!(
        single_expression("1 + 2 * 3"),
        Expression::InfixExpression(
            lit(1),
            Infix::Plus,
            Box::new(Expression::InfixExpression(lit(2), Infix::Multiply, lit(3)))
        )
    );
}

#[test]
fn parse_prefix_binds_tighter_than_product() {
    assert_eq!(parse("-4 * 5"), parse("(-4) * 5"));
    assert_eq!(
        single_expression("-4 * 5"),
        Expression::InfixExpression(
            Box::new(Expression::PrefixExpression(Prefix::PrefixMinus, lit(4))),
            Infix::Multiply,
            lit(5)
        )
    );
}

#[test]
fn parse_equality_is_left_associative() {
    assert_eq!(parse("1 == 2 == 3"), parse("(1 == 2) == 3"));
    assert_ne!(parse("1 == 2 == 3"), parse("1 == (2 == 3)"));
}

#[test]
fn parse_comparison_binds_tighter_than_equality() {
    assert_eq!(parse("1 < 2 == true"), parse("(1 < 2) == true"));
}

#[test]
fn parse_minus_is_left_associative() {
    assert_eq!(parse("5 - 2 - 1"), parse("(5 - 2) - 1"));
}

#[test]
fn parse_grouping_yields_inner_expression() {
    assert_eq!(
        single_expression("!(true == true)"),
        Expression::PrefixExpression(
            Prefix::Not,
            Box::new(Expression::InfixExpression(
                Box::new(Expression::Bool(true)),
                Infix::Equal,
                Box::new(Expression::Bool(true))
            ))
        )
    );
}

#[test]
fn parse_is_deterministic() {
    let toks = tokens("let f = fn(a, b) { if (a < b) { return a; } else { b } }; f(1, 2);");
    let first = parser::new(&toks).parse_program();
    let second = parser::new(&toks).parse_program();
    assert!(first.is_ok());
    assert_eq!(first, second);
}

#[test]
fn parse_let_without_semicolon() {
    let program = parse("let x = 5").expect("program parses");
    assert_eq!(
        program.statements,
        List::Cons(
            Box::new(Statement::LetStatement(b"x", lit(5))),
            Box::new(List::Nil)
        )
    );
}

#[test]
fn parse_statement_count() {
    let program = parse("let a = 1; a; return a;").expect("program parses");
    assert_eq!(program.statements.length(), 3);
}

#[test]
fn parse_function_without_parameters() {
    match single_expression("fn() { 1 }") {
        Expression::FunctionLiteral(d) => {
            assert_eq!(d.params, None);
            assert_eq!(d.body.length(), 1);
        }
        _ => panic!("expected a function literal"),
    }
}

#[test]
fn parse_function_parameters() {
    match single_expression("fn(x, y) { x + y }") {
        Expression::FunctionLiteral(d) => {
            assert_eq!(
                d.params,
                Some(List::Cons(
                    Box::new(&b"x"[..]),
                    Box::new(List::Cons(Box::new(&b"y"[..]), Box::new(List::Nil)))
                ))
            );
        }
        _ => panic!("expected a function literal"),
    }
}

#[test]
fn parse_call_arguments() {
    match single_expression("add(1, 2 * 3)") {
        Expression::CallExpression(callee, Some(args)) => {
            assert_eq!(*callee, Expression::Ident(b"add"));
            assert_eq!(args.length(), 2);
        }
        _ => panic!("expected a call with arguments"),
    }
    match single_expression("f()") {
        Expression::CallExpression(_, None) => {}
        _ => panic!("expected a call without arguments"),
    }
}

#[test]
fn parse_if_else() {
    match single_expression("if (x) { 1 } else { 2 }") {
        Expression::IfExpression(_, cons, Some(alt)) => {
            assert_eq!(cons.length(), 1);
            assert_eq!(alt.length(), 1);
        }
        _ => panic!("expected an if with an else block"),
    }
    match single_expression("if (x) { 1 }") {
        Expression::IfExpression(_, _, None) => {}
        _ => panic!("expected an if without else"),
    }
}

#[test]
fn parse_empty_program() {
    assert_eq!(parse("").expect("program parses").statements, List::Nil);
}

#[test]
fn parse_errors() {
    assert_eq!(parse("let = 5;"), Err(ParseError::ExpectedIdentifier));
    assert_eq!(parse("let x 5;"), Err(ParseError::ExpectedAssign));
    assert_eq!(parse("(1 + 2"), Err(ParseError::ExpectedRightParen));
    assert_eq!(parse("if 1 { 2 }"), Err(ParseError::ExpectedLeftParen));
    assert_eq!(parse("if (1) 2"), Err(ParseError::ExpectedLeftBrace));
    assert_eq!(parse("fn x { 1 }"), Err(ParseError::ExpectedLeftParen));
    assert_eq!(parse("fn(1) { 1 }"), Err(ParseError::ExpectedIdentifier));
    assert_eq!(parse("fn(x) 1"), Err(ParseError::ExpectedLeftBrace));
    assert_eq!(parse("f(1, 2"), Err(ParseError::ExpectedRightParen));
}

#[test]
fn parse_illegal_token_in_expression() {
    assert_eq!(parse("1 + @"), Err(ParseError::ExpectedExpression));
    assert_eq!(parse("}"), Err(ParseError::ExpectedExpression));
}

#[test]
fn operator_symbols() {
    assert_eq!(Prefix::Not.symbol(), "!");
    assert_eq!(Prefix::PrefixMinus.symbol(), "-");
    assert_eq!(Infix::Plus.symbol(), "+");
    assert_eq!(Infix::Minus.symbol(), "-");
    assert_eq!(Infix::Multiply.symbol(), "*");
    assert_eq!(Infix::Divide.symbol(), "/");
    assert_eq!(Infix::LessThan.symbol(), "<");
    assert_eq!(Infix::GreaterThan.symbol(), ">");
    assert_eq!(Infix::Equal.symbol(), "==");
    assert_eq!(Infix::NotEqual.symbol(), "!=");
}
