//! The expression builder: attaching operands, the precedence rewrite, and
//! the token-by-token construction of programs.

use exprc::ast::{make_ast, Ast};
use exprc::error::ParseError;
use exprc::exps::{make_assign, Additive, Assignment, BinOp, BinaryExp, Exp, Multitive};
use exprc::token::{Bracket, KeywordType, Token, TokenType};

const PLUS: BinOp = BinOp::PlusMinus(Additive::Plus);
const MINUS: BinOp = BinOp::PlusMinus(Additive::Minus);
const MUL: BinOp = BinOp::MulDiv(Multitive::Mul);
const DIV: BinOp = BinOp::MulDiv(Multitive::Div);

fn num(s: &str) -> Exp {
    Exp::Num(s.to_string())
}

fn ident(s: &str) -> Exp {
    Exp::Ident(s.to_string())
}

fn bin(lhs: Exp, op: BinOp, rhs: Exp) -> Exp {
    Exp::Bin(BinaryExp { lhs: Box::new(lhs), op, rhs: Box::new(rhs) })
}

fn assign(name: &str, rhs: Exp) -> Exp {
    Exp::Assign(Assignment { ident: name.to_string(), rhs: Box::new(rhs) })
}

fn ret(operand: Exp) -> Exp {
    Exp::Return(Box::new(operand))
}

fn group(inner: Exp) -> Exp {
    Exp::Child(Box::new(inner))
}

fn token(t: TokenType, s: &str) -> Token {
    Token { t, s: s.to_string() }
}

fn number(s: &str) -> Token {
    token(TokenType::Number, s)
}

fn name(s: &str) -> Token {
    token(TokenType::Ident, s)
}

fn sign(s: &str) -> Token {
    token(TokenType::Operator, s)
}

fn open() -> Token {
    token(TokenType::Paren(Bracket::Begin), "(")
}

fn close() -> Token {
    token(TokenType::Paren(Bracket::End), ")")
}

fn keyword_return() -> Token {
    token(TokenType::Keyword(KeywordType::Return), "return")
}

fn program(statements: Vec<Exp>) -> Result<Ast, ParseError> {
    Ok(Ast::Stmt(statements))
}

#[test]
fn rank_is_by_class_only() {
    assert_eq!(PLUS.rank(), MINUS.rank());
    assert_eq!(MUL.rank(), DIV.rank());
    assert!(MUL.rank() > PLUS.rank());
    assert_eq!(PLUS.rank(), 0);
    assert_eq!(DIV.rank(), 1);
    assert_ne!(PLUS, MINUS);
    assert_ne!(MUL, DIV);
}

#[test]
fn make_assign_awaits_its_right_hand_side() {
    assert_eq!(make_assign("a"), assign("a", Exp::Undef));
}

#[test]
fn new_binary_awaits_its_right_operand() {
    assert_eq!(
        BinaryExp::new(num("1"), PLUS),
        BinaryExp { lhs: Box::new(num("1")), op: PLUS, rhs: Box::new(Exp::Undef) }
    );
}

#[test]
fn set_rhs_fills_the_open_operand() {
    assert_eq!(
        BinaryExp::new(num("1"), PLUS).set_rhs(num("2")),
        Ok(BinaryExp { lhs: Box::new(num("1")), op: PLUS, rhs: Box::new(num("2")) })
    );
}

#[test]
fn set_rhs_descends_into_a_nested_binary() {
    let outer = BinaryExp {
        lhs: Box::new(num("1")),
        op: PLUS,
        rhs: Box::new(bin(num("2"), MUL, Exp::Undef)),
    };
    assert_eq!(
        outer.set_rhs(num("3")),
        Ok(BinaryExp {
            lhs: Box::new(num("1")),
            op: PLUS,
            rhs: Box::new(bin(num("2"), MUL, num("3"))),
        })
    );
}

#[test]
fn set_rhs_refuses_a_second_operand() {
    let full = BinaryExp { lhs: Box::new(num("1")), op: PLUS, rhs: Box::new(num("2")) };
    assert_eq!(full.set_rhs(num("3")), Err(ParseError::UnexpectedOperand));
}

#[test]
fn extend_replaces_a_hole() {
    assert_eq!(Exp::Undef.extend(num("7")), Ok(num("7")));
    assert_eq!(Exp::Undef.extend(ident("x")), Ok(ident("x")));
}

#[test]
fn extend_fills_the_rightmost_hole() {
    assert_eq!(bin(num("1"), PLUS, Exp::Undef).extend(num("2")), Ok(bin(num("1"), PLUS, num("2"))));
    assert_eq!(assign("a", Exp::Undef).extend(num("2")), Ok(assign("a", num("2"))));
    assert_eq!(ret(Exp::Undef).extend(ident("a")), Ok(ret(ident("a"))));
    assert_eq!(
        ret(bin(ident("a"), MUL, Exp::Undef)).extend(group(num("1"))),
        Ok(ret(bin(ident("a"), MUL, group(num("1")))))
    );
    assert_eq!(
        assign("a", bin(num("1"), PLUS, bin(num("2"), MUL, Exp::Undef))).extend(num("3")),
        Ok(assign("a", bin(num("1"), PLUS, bin(num("2"), MUL, num("3")))))
    );
}

#[test]
fn extend_goes_down_through_every_kind_of_open_node() {
    let open = bin(num("1"), PLUS, assign("a", ret(Exp::Undef)));
    assert_eq!(open.extend(num("2")), Ok(bin(num("1"), PLUS, assign("a", ret(num("2"))))));
}

#[test]
fn extend_leaves_the_left_operand_alone() {
    let open = bin(bin(num("1"), PLUS, Exp::Undef), MINUS, Exp::Undef);
    assert_eq!(
        open.extend(num("2")),
        Ok(bin(bin(num("1"), PLUS, Exp::Undef), MINUS, num("2")))
    );
}

#[test]
fn extend_refuses_an_operand_where_none_is_awaited() {
    assert_eq!(num("1").extend(num("1")), Err(ParseError::UnexpectedOperand));
    assert_eq!(ident("a").extend(num("1")), Err(ParseError::UnexpectedOperand));
    assert_eq!(group(Exp::Undef).extend(num("1")), Err(ParseError::UnexpectedOperand));
    assert_eq!(
        bin(num("1"), PLUS, num("2")).extend(num("3")),
        Err(ParseError::UnexpectedOperand)
    );
    assert_eq!(assign("a", ident("b")).extend(num("3")), Err(ParseError::UnexpectedOperand));
    assert_eq!(ret(group(num("1"))).extend(num("3")), Err(ParseError::UnexpectedOperand));
}

#[test]
fn binary_wraps_a_leaf_or_a_group() {
    assert_eq!(num("1").binary(PLUS), Ok(bin(num("1"), PLUS, Exp::Undef)));
    assert_eq!(ident("a").binary(DIV), Ok(bin(ident("a"), DIV, Exp::Undef)));
    assert_eq!(
        group(bin(num("1"), PLUS, num("2"))).binary(MUL),
        Ok(bin(group(bin(num("1"), PLUS, num("2"))), MUL, Exp::Undef))
    );
}

#[test]
fn binary_wraps_a_node_that_binds_at_least_as_tightly() {
    let sum = bin(num("1"), PLUS, num("2"));
    assert_eq!(sum.clone().binary(MINUS), Ok(bin(sum.clone(), MINUS, Exp::Undef)));
    assert_eq!(sum.clone().binary(PLUS), Ok(bin(sum, PLUS, Exp::Undef)));
    let product = bin(num("1"), MUL, num("2"));
    assert_eq!(product.clone().binary(DIV), Ok(bin(product.clone(), DIV, Exp::Undef)));
    assert_eq!(product.clone().binary(PLUS), Ok(bin(product, PLUS, Exp::Undef)));
}

#[test]
fn binary_steals_the_last_operand_of_a_looser_node() {
    assert_eq!(
        bin(num("1"), PLUS, num("2")).binary(MUL),
        Ok(bin(num("1"), PLUS, bin(num("2"), MUL, Exp::Undef)))
    );
    assert_eq!(
        bin(num("1"), MINUS, bin(num("2"), MUL, num("3"))).binary(DIV),
        Ok(bin(num("1"), MINUS, bin(bin(num("2"), MUL, num("3")), DIV, Exp::Undef)))
    );
}

#[test]
fn binary_passes_through_assignment_and_return() {
    assert_eq!(assign("a", num("1")).binary(PLUS), Ok(assign("a", bin(num("1"), PLUS, Exp::Undef))));
    assert_eq!(ret(ident("a")).binary(MUL), Ok(ret(bin(ident("a"), MUL, Exp::Undef))));
    assert_eq!(
        ret(bin(num("1"), PLUS, num("2"))).binary(MUL),
        Ok(ret(bin(num("1"), PLUS, bin(num("2"), MUL, Exp::Undef))))
    );
}

#[test]
fn binary_needs_a_left_operand() {
    assert_eq!(Exp::Undef.binary(PLUS), Err(ParseError::EmptyLeadingOperator));
    assert_eq!(ret(Exp::Undef).binary(PLUS), Err(ParseError::EmptyLeadingOperator));
    assert_eq!(assign("a", Exp::Undef).binary(MUL), Err(ParseError::EmptyLeadingOperator));
    assert_eq!(
        bin(num("1"), PLUS, Exp::Undef).binary(MUL),
        Err(ParseError::EmptyLeadingOperator)
    );
}

#[test]
fn binary_wraps_an_open_node_of_no_lower_rank() {
    assert_eq!(
        bin(num("1"), PLUS, Exp::Undef).binary(MINUS),
        Ok(bin(bin(num("1"), PLUS, Exp::Undef), MINUS, Exp::Undef))
    );
}

#[test]
fn is_complete_finds_a_hole_anywhere() {
    assert!(num("1").is_complete());
    assert!(ident("a").is_complete());
    assert!(!Exp::Undef.is_complete());
    assert!(bin(num("1"), PLUS, num("2")).is_complete());
    assert!(!bin(num("1"), PLUS, Exp::Undef).is_complete());
    assert!(!bin(Exp::Undef, PLUS, num("1")).is_complete());
    assert!(!assign("a", Exp::Undef).is_complete());
    assert!(assign("a", num("1")).is_complete());
    assert!(!ret(Exp::Undef).is_complete());
    assert!(ret(num("1")).is_complete());
    assert!(!group(Exp::Undef).is_complete());
    assert!(!ret(group(bin(num("1"), MUL, group(Exp::Undef)))).is_complete());
    assert!(ret(group(bin(num("1"), MUL, group(num("2"))))).is_complete());
}

#[test]
fn clone_copies_the_whole_tree() {
    let e = assign("a", bin(group(ret(num("1"))), DIV, ident("b")));
    assert_eq!(e.clone(), e);
    let b = BinaryExp::new(num("1"), PLUS);
    assert_eq!(b.clone(), b);
    let a = Assignment { ident: "x".to_string(), rhs: Box::new(num("1")) };
    assert_eq!(a.clone(), a);
    let t = number("12");
    assert_eq!(t.clone(), t);
}

#[test]
fn make_ast_builds_one_statement() {
    let tokens = vec![keyword_return(), number("1"), sign("+"), number("2"), sign("*"), number("3")];
    assert_eq!(
        make_ast(tokens),
        program(vec![ret(bin(num("1"), PLUS, bin(num("2"), MUL, num("3"))))])
    );
}

#[test]
fn make_ast_splits_statements_at_semicolons() {
    let tokens = vec![
        name("a"),
        sign("="),
        number("1"),
        sign(";"),
        name("b"),
        sign("="),
        name("a"),
        sign("/"),
        number("2"),
        sign(";"),
        keyword_return(),
        name("b"),
    ];
    assert_eq!(
        make_ast(tokens),
        program(vec![
            assign("a", num("1")),
            assign("b", bin(ident("a"), DIV, num("2"))),
            ret(ident("b")),
        ])
    );
}

#[test]
fn make_ast_keeps_groups() {
    let tokens = vec![
        open(),
        open(),
        number("1"),
        sign("+"),
        number("2"),
        close(),
        sign("*"),
        number("3"),
        sign("+"),
        number("4"),
        close(),
        sign("*"),
        number("5"),
    ];
    assert_eq!(
        make_ast(tokens),
        program(vec![bin(
            group(bin(bin(group(bin(num("1"), PLUS, num("2"))), MUL, num("3")), PLUS, num("4"))),
            MUL,
            num("5")
        )])
    );
}

#[test]
fn make_ast_associates_equal_ranks_to_the_left() {
    let tokens = vec![name("a"), sign("-"), name("b"), sign("-"), name("c")];
    assert_eq!(
        make_ast(tokens),
        program(vec![bin(bin(ident("a"), MINUS, ident("b")), MINUS, ident("c"))])
    );
    let tokens = vec![name("a"), sign("/"), name("b"), sign("*"), name("c")];
    assert_eq!(
        make_ast(tokens),
        program(vec![bin(bin(ident("a"), DIV, ident("b")), MUL, ident("c"))])
    );
}

#[test]
fn make_ast_gives_back_the_tree_that_was_written_down() {
    // a = 1 * (2 - 3) / 4 + 5 * 6 - 7; return (a)
    let tokens = vec![
        name("a"),
        sign("="),
        number("1"),
        sign("*"),
        open(),
        number("2"),
        sign("-"),
        number("3"),
        close(),
        sign("/"),
        number("4"),
        sign("+"),
        number("5"),
        sign("*"),
        number("6"),
        sign("-"),
        number("7"),
        sign(";"),
        keyword_return(),
        open(),
        name("a"),
        close(),
    ];
    let first = assign(
        "a",
        bin(
            bin(
                bin(bin(num("1"), MUL, group(bin(num("2"), MINUS, num("3")))), DIV, num("4")),
                PLUS,
                bin(num("5"), MUL, num("6")),
            ),
            MINUS,
            num("7"),
        ),
    );
    assert_eq!(make_ast(tokens), program(vec![first, ret(group(ident("a")))]));
}

#[test]
fn make_ast_return_starts_afresh() {
    let tokens = vec![number("1"), sign("+"), keyword_return(), number("2")];
    assert_eq!(make_ast(tokens), program(vec![ret(num("2"))]));
}

#[test]
fn make_ast_turns_a_lone_variable_into_an_assignment() {
    let tokens = vec![open(), name("a"), sign("="), number("1"), close()];
    assert_eq!(make_ast(tokens), program(vec![group(assign("a", num("1")))]));
}

#[test]
fn make_ast_ignores_an_assignment_sign_elsewhere() {
    let tokens = vec![number("1"), sign("="), sign("+"), number("2")];
    assert_eq!(make_ast(tokens), program(vec![bin(num("1"), PLUS, num("2"))]));
    let tokens = vec![keyword_return(), name("a"), sign("=")];
    assert_eq!(make_ast(tokens), program(vec![ret(ident("a"))]));
    let tokens = vec![sign("="), number("1")];
    assert_eq!(make_ast(tokens), program(vec![num("1")]));
}

#[test]
fn make_ast_reads_keywords_and_brackets_by_kind() {
    let tokens = vec![
        token(TokenType::Keyword(KeywordType::Return), "anything"),
        token(TokenType::Paren(Bracket::Begin), "["),
        token(TokenType::Number, "x"),
        token(TokenType::Paren(Bracket::End), "]"),
    ];
    assert_eq!(make_ast(tokens), program(vec![ret(group(num("x")))]));
}

#[test]
fn make_ast_refuses_unknown_operators() {
    assert_eq!(make_ast(vec![number("1"), sign("%"), number("2")]), Err(ParseError::UnknownOperator));
    assert_eq!(make_ast(vec![number("1"), sign("++"), number("2")]), Err(ParseError::UnknownOperator));
    assert_eq!(make_ast(vec![sign("")]), Err(ParseError::UnknownOperator));
}

#[test]
fn make_ast_refuses_operands_in_a_row() {
    assert_eq!(make_ast(vec![number("1"), number("1")]), Err(ParseError::UnexpectedOperand));
    assert_eq!(make_ast(vec![name("a"), number("1")]), Err(ParseError::UnexpectedOperand));
    assert_eq!(
        make_ast(vec![number("1"), open(), number("2"), close()]),
        Err(ParseError::UnexpectedOperand)
    );
}

#[test]
fn make_ast_refuses_an_operator_without_left_operand() {
    assert_eq!(make_ast(vec![sign("+"), number("1")]), Err(ParseError::EmptyLeadingOperator));
    assert_eq!(
        make_ast(vec![open(), sign("/"), number("1"), close()]),
        Err(ParseError::EmptyLeadingOperator)
    );
    assert_eq!(
        make_ast(vec![keyword_return(), sign("-"), number("1")]),
        Err(ParseError::EmptyLeadingOperator)
    );
}

#[test]
fn make_ast_refuses_if() {
    assert_eq!(
        make_ast(vec![token(TokenType::Keyword(KeywordType::If), "if")]),
        Err(ParseError::UnsupportedConstruct)
    );
}

#[test]
fn make_ast_refuses_unbalanced_groups() {
    assert_eq!(make_ast(vec![close()]), Err(ParseError::StructuralInvariantViolation));
    assert_eq!(
        make_ast(vec![number("1"), close()]),
        Err(ParseError::StructuralInvariantViolation)
    );
    assert_eq!(make_ast(vec![open(), number("1")]), Err(ParseError::StructuralInvariantViolation));
    assert_eq!(
        make_ast(vec![open(), number("1"), sign(";"), number("2"), close()]),
        Err(ParseError::StructuralInvariantViolation)
    );
}

#[test]
fn make_ast_refuses_unfinished_statements() {
    assert_eq!(make_ast(vec![]), Err(ParseError::StructuralInvariantViolation));
    assert_eq!(make_ast(vec![sign(";")]), Err(ParseError::StructuralInvariantViolation));
    assert_eq!(
        make_ast(vec![number("1"), sign(";")]),
        Err(ParseError::StructuralInvariantViolation)
    );
    assert_eq!(
        make_ast(vec![number("1"), sign("+")]),
        Err(ParseError::StructuralInvariantViolation)
    );
    assert_eq!(make_ast(vec![keyword_return()]), Err(ParseError::StructuralInvariantViolation));
    assert_eq!(
        make_ast(vec![name("a"), sign("="), sign(";"), number("1")]),
        Err(ParseError::StructuralInvariantViolation)
    );
    assert_eq!(make_ast(vec![open(), close()]), Err(ParseError::StructuralInvariantViolation));
    assert_eq!(
        make_ast(vec![number("1"), sign("+"), sign("-"), number("2")]),
        Err(ParseError::StructuralInvariantViolation)
    );
}
