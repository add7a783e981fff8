//! Printing syntax trees in prefix form, and the token dump.

use rlox::{scan, Expr, Literal, Number, Stmt, Token, TokenType, Value};

#[derive(Debug, Clone, Copy, PartialEq)]
struct F(f64);

impl Number for F {
    fn spec_plus(self, other: Self) -> Self {
        self.plus(other)
    }
    fn spec_minus(self, other: Self) -> Self {
        self.minus(other)
    }
    fn spec_times(self, other: Self) -> Self {
        self.times(other)
    }
    fn spec_divided_by(self, other: Self) -> Self {
        self.divided_by(other)
    }
    fn spec_negated(self) -> Self {
        self.negated()
    }
    fn spec_less_than(self, other: Self) -> bool {
        self.less_than(other)
    }
    fn spec_greater_than(self, other: Self) -> bool {
        self.greater_than(other)
    }
    fn spec_at_most(self, other: Self) -> bool {
        self.at_most(other)
    }
    fn spec_at_least(self, other: Self) -> bool {
        self.at_least(other)
    }
    fn spec_equals(self, other: Self) -> bool {
        self.equals(other)
    }
    fn spec_from_literal(_text: rlox::number::Chars) -> Self {
        unreachable!("specification only")
    }
    fn spec_render(self) -> rlox::number::Chars {
        unreachable!("specification only")
    }
    fn spec_show(self) -> rlox::number::Chars {
        unreachable!("specification only")
    }
    fn plus(self, other: Self) -> Self {
        F(self.0 + other.0)
    }
    fn minus(self, other: Self) -> Self {
        F(self.0 - other.0)
    }
    fn times(self, other: Self) -> Self {
        F(self.0 * other.0)
    }
    fn divided_by(self, other: Self) -> Self {
        F(self.0 / other.0)
    }
    fn negated(self) -> Self {
        F(-self.0)
    }
    fn less_than(self, other: Self) -> bool {
        self.0 < other.0
    }
    fn greater_than(self, other: Self) -> bool {
        self.0 > other.0
    }
    fn at_most(self, other: Self) -> bool {
        self.0 <= other.0
    }
    fn at_least(self, other: Self) -> bool {
        self.0 >= other.0
    }
    fn equals(self, other: Self) -> bool {
        self.0 == other.0
    }
    fn from_literal(text: &str) -> Self {
        F(text.parse().unwrap())
    }
    fn render(self) -> String {
        format!("{}", self.0)
    }
    fn show(self) -> String {
        if self.0.fract() == 0.0 && self.0.is_finite() {
            format!("{:.1}", self.0)
        } else {
            format!("{}", self.0)
        }
    }
}

fn op(ttype: TokenType, lexeme: &'static str) -> Token {
    Token::new(ttype, lexeme, None, 1)
}

fn n(text: &str) -> Expr {
    Expr::Literal(Value::Number(text.into()))
}

fn name(s: &'static str) -> Token {
    Token::new(TokenType::Identifier, s, None, 1)
}

#[test]
fn value_display_renders_atoms() {
    assert_eq!(Value::Nil.render::<F>(), "nil");
    assert_eq!(Value::Bool(true).render::<F>(), "true");
    assert_eq!(Value::Bool(false).render::<F>(), "false");
    assert_eq!(Value::Number("5".into()).render::<F>(), "5.0");
    assert_eq!(Value::Number("5.5".into()).render::<F>(), "5.5");
    assert_eq!(Value::String("hi".into()).render::<F>(), "hi");
}

#[test]
fn literal_expr_uses_value_display() {
    assert_eq!(n("1").render::<F>(), "1.0");
    assert_eq!(Expr::Literal(Value::Nil).render::<F>(), "nil");
    assert_eq!(Expr::Literal(Value::Bool(true)).render::<F>(), "true");
}

#[test]
fn unary_expr_uses_operator_lexeme() {
    let e = Expr::Unary { op: op(TokenType::Minus, "-"), right: Box::new(n("1")) };
    assert_eq!(e.render::<F>(), "(- 1.0)");
    let bang = Expr::Unary {
        op: op(TokenType::Bang, "!"),
        right: Box::new(Expr::Literal(Value::Bool(true))),
    };
    assert_eq!(bang.render::<F>(), "(! true)");
}

#[test]
fn binary_expr_uses_operator_lexeme() {
    let e = Expr::Binary {
        left: Box::new(n("1")),
        op: op(TokenType::Plus, "+"),
        right: Box::new(n("2")),
    };
    assert_eq!(e.render::<F>(), "(+ 1.0 2.0)");
}

#[test]
fn grouping_expr_renders_with_group_keyword() {
    let inner = Expr::Binary {
        left: Box::new(n("1")),
        op: op(TokenType::Plus, "+"),
        right: Box::new(n("2")),
    };
    let g = Expr::Grouping(Box::new(inner));
    assert_eq!(g.render::<F>(), "(group (+ 1.0 2.0))");
}

#[test]
fn parse_dot_lox_reference_case() {
    let three_minus_one = Expr::Binary {
        left: Box::new(n("3")),
        op: op(TokenType::Minus, "-"),
        right: Box::new(n("1")),
    };
    let inner_group = Expr::Grouping(Box::new(three_minus_one));
    let five_minus_inner = Expr::Binary {
        left: Box::new(n("5")),
        op: op(TokenType::Minus, "-"),
        right: Box::new(inner_group),
    };
    let outer_group = Expr::Grouping(Box::new(five_minus_inner));
    let neg_one = Expr::Unary { op: op(TokenType::Minus, "-"), right: Box::new(n("1")) };
    let whole = Expr::Binary {
        left: Box::new(outer_group),
        op: op(TokenType::Plus, "+"),
        right: Box::new(neg_one),
    };
    assert_eq!(whole.render::<F>(), "(+ (group (- 5.0 (group (- 3.0 1.0)))) (- 1.0))");
}

#[test]
fn parsed_source_prints_in_prefix_form() {
    let (tokens, errors) = scan("(5 - (3 - 1)) + -1.5");
    assert!(errors.is_empty());
    let e = rlox::parse(&tokens).unwrap();
    assert_eq!(e.render::<F>(), "(+ (group (- 5.0 (group (- 3.0 1.0)))) (- 1.5))");
}

#[test]
fn variable_expr_displays_as_bare_identifier() {
    assert_eq!(Expr::Variable(name("a")).render::<F>(), "a");
}

#[test]
fn assign_expr_displays_in_prefix_form() {
    let e = Expr::Assign { name: name("a"), value: Box::new(n("1")) };
    assert_eq!(e.render::<F>(), "(= a 1.0)");
}

#[test]
fn print_stmt_display() {
    assert_eq!(Stmt::Print(n("1")).render::<F>(), "(print 1.0)");
}

#[test]
fn expression_stmt_display_uses_semicolon_marker() {
    assert_eq!(Stmt::Expression(n("1")).render::<F>(), "(; 1.0)");
}

#[test]
fn var_stmt_display_with_and_without_initializer() {
    let with = Stmt::Var { name: name("a"), initializer: Some(n("1")) };
    let without = Stmt::Var { name: name("b"), initializer: None };
    assert_eq!(with.render::<F>(), "(var a 1.0)");
    assert_eq!(without.render::<F>(), "(var b)");
}

#[test]
fn block_stmt_display_lists_inner_statements() {
    let block = Stmt::Block(vec![
        Stmt::Var { name: name("a"), initializer: Some(n("1")) },
        Stmt::Print(Expr::Variable(name("a"))),
    ]);
    assert_eq!(block.render::<F>(), "(block (var a 1.0) (print a))");
    assert_eq!(Stmt::Block(vec![]).render::<F>(), "(block)");
}

#[test]
fn logical_expr_displays_with_operator_lexeme() {
    let or_expr = Expr::Logical {
        left: Box::new(Expr::Literal(Value::Nil)),
        op: Token::new(TokenType::Or, "or", None, 1),
        right: Box::new(Expr::Literal(Value::Bool(true))),
    };
    assert_eq!(or_expr.render::<F>(), "(or nil true)");
}

#[test]
fn if_stmt_display_with_and_without_else() {
    let no_else = Stmt::If {
        condition: Expr::Literal(Value::Bool(true)),
        then_branch: Box::new(Stmt::Print(n("1"))),
        else_branch: None,
    };
    assert_eq!(no_else.render::<F>(), "(if true (print 1.0))");
    let with_else = Stmt::If {
        condition: Expr::Literal(Value::Bool(false)),
        then_branch: Box::new(Stmt::Print(n("1"))),
        else_branch: Some(Box::new(Stmt::Print(n("2")))),
    };
    assert_eq!(with_else.render::<F>(), "(if false (print 1.0) (print 2.0))");
}

#[test]
fn while_stmt_display() {
    let s = Stmt::While {
        condition: Expr::Literal(Value::Bool(true)),
        body: Box::new(Stmt::Print(n("1"))),
    };
    assert_eq!(s.render::<F>(), "(while true (print 1.0))");
}

// ---- the token dump ----

#[test]
fn literal_display_matches_book_format() {
    assert_eq!(Literal::Number("123".into()).render::<F>(), "123.0");
    assert_eq!(Literal::Number("0".into()).render::<F>(), "0.0");
    assert_eq!(Literal::Number("123.456".into()).render::<F>(), "123.456");
    assert_eq!(Literal::Number("0.5".into()).render::<F>(), "0.5");
    assert_eq!(Literal::String("hi".into()).render::<F>(), "hi");
    assert_eq!(Literal::String(String::new()).render::<F>(), "");
}

#[test]
fn token_dump_format_matches_upstream() {
    let number_tok =
        Token::new(TokenType::Number, "123", Some(Literal::Number("123".into())), 1);
    assert_eq!(number_tok.render::<F>(), "NUMBER 123 123.0");
    let dot_tok = Token::new(TokenType::Dot, ".", None, 1);
    assert_eq!(dot_tok.render::<F>(), "DOT . null");
    let eof_tok = Token::new(TokenType::Eof, "", None, 1);
    assert_eq!(eof_tok.render::<F>(), "EOF  null");
    let string_tok =
        Token::new(TokenType::String, "\"hi\"", Some(Literal::String("hi".into())), 1);
    assert_eq!(string_tok.render::<F>(), "STRING \"hi\" hi");
}

fn dump(tokens: &[Token]) -> String {
    tokens.iter().map(|t| t.render::<F>()).collect::<Vec<_>>().join("\n")
}

#[test]
fn scanner_dump_format_matches_upstream_numbers_lox() {
    let (tokens, errors) = scan("123\n123.456\n.456\n123.\n");
    assert!(errors.is_empty());
    let expected = "\
NUMBER 123 123.0
NUMBER 123.456 123.456
DOT . null
NUMBER 456 456.0
NUMBER 123 123.0
DOT . null
EOF  null";
    assert_eq!(dump(&tokens), expected);
}
