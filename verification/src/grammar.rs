//! Why the builder is right: it gives back the tree that was written down.
//!
//! [`nested`] says which trees precedence and left-to-right association
//! allow, and [`unparse`] writes a tree down as tokens, with parentheses
//! exactly at its groups. [`lemma_parse_unparse`] shows that the builder,
//! fed those tokens, builds that tree again, and [`lemma_parse_canonical`]
//! that it builds no other trees, whatever it is fed.

use vstd::prelude::*;
use crate::ast::{parse, Builder};
use crate::error::ParseError;
use crate::exps::{Additive, BinOp, Multitive, Tree};
use crate::token::{Bracket, KeywordType, Lexeme, TokenType};

verus! {

/// The text of an operator.
pub open spec fn symbol(op: BinOp) -> Seq<char> {
    match op {
        BinOp::PlusMinus(Additive::Plus) => "+"@,
        BinOp::PlusMinus(Additive::Minus) => "-"@,
        BinOp::MulDiv(Multitive::Mul) => "*"@,
        BinOp::MulDiv(Multitive::Div) => "/"@,
    }
}

/// The tokens that write a tree down, left to right, with parentheses
/// exactly where the tree has a group.
pub open spec fn unparse(t: Tree) -> Seq<Lexeme>
    decreases t,
{
    match t {
        Tree::Hole => Seq::empty(),
        Tree::Literal(s) => seq![Lexeme { kind: TokenType::Number, text: s }],
        Tree::Variable(s) => seq![Lexeme { kind: TokenType::Ident, text: s }],
        Tree::Binary(l, op, r) => unparse(*l) + seq![
            Lexeme { kind: TokenType::Operator, text: symbol(op) },
        ] + unparse(*r),
        Tree::Assign(name, rhs) => seq![
            Lexeme { kind: TokenType::Ident, text: name },
            Lexeme { kind: TokenType::Operator, text: "="@ },
        ] + unparse(*rhs),
        Tree::Return(operand) => seq![
            Lexeme { kind: TokenType::Keyword(KeywordType::Return), text: "return"@ },
        ] + unparse(*operand),
        Tree::Group(inner) => seq![Lexeme { kind: TokenType::Paren(Bracket::Begin), text: "("@ }]
            + unparse(*inner) + seq![
            Lexeme { kind: TokenType::Paren(Bracket::End), text: ")"@ },
        ],
    }
}

/// The tree is an arithmetic expression nested as precedence and
/// left-to-right association demand, and no operator outside its groups
/// ranks below `floor`.
///
/// The left operand of an operator holds, outside groups, only operators of
/// at least that operator's rank; its right operand only operators of a
/// higher rank. A group holds a statement.
pub open spec fn nested(t: Tree, floor: int) -> bool
    decreases t, 0nat,
{
    match t {
        Tree::Literal(_) | Tree::Variable(_) => true,
        Tree::Group(inner) => statement(*inner),
        Tree::Binary(l, op, r) => floor <= op.rank() && nested(*l, op.rank() as int) && nested(
            *r,
            op.rank() + 1,
        ),
        Tree::Hole | Tree::Assign(_, _) | Tree::Return(_) => false,
    }
}

/// The tree is a statement: an arithmetic expression, or the assignment or
/// the return of one.
pub open spec fn statement(t: Tree) -> bool
    decreases t, 1nat,
{
    match t {
        Tree::Assign(_, rhs) => nested(*rhs, 0),
        Tree::Return(operand) => nested(*operand, 0),
        _ => nested(t, 0),
    }
}

impl Tree {
    /// The tree awaits an operand whose operators rank at least `floor`:
    /// the way down through right operands, right-hand sides and return
    /// operands ends in a hole, and passes only operators ranking below
    /// `floor`.
    pub open spec fn awaits(self, floor: int) -> bool
        decreases self,
    {
        match self {
            Tree::Hole => true,
            Tree::Binary(_, op, r) => op.rank() < floor && r.awaits(floor),
            Tree::Assign(_, rhs) => rhs.awaits(floor),
            Tree::Return(operand) => operand.awaits(floor),
            Tree::Literal(_) | Tree::Variable(_) | Tree::Group(_) => false,
        }
    }
}

/// Running two stretches of tokens one after the other is running their
/// concatenation.
proof fn lemma_run_concat(b: Builder, first: Seq<Lexeme>, second: Seq<Lexeme>)
    ensures
        b.run(first + second) == match b.run(first) {
            Ok(mid) => mid.run(second),
            Err(e) => Err(e),
        },
    decreases second.len(),
{
    if second.len() == 0 {
        assert(first + second =~= first);
    } else {
        assert((first + second).drop_last() =~= first + second.drop_last());
        lemma_run_concat(b, first, second.drop_last());
    }
}

/// Running one token is one step.
proof fn lemma_run_one(b: Builder, token: Lexeme)
    ensures
        b.run(seq![token]) == b.step(token),
{
    reveal_with_fuel(Builder::run, 2);
    assert(seq![token].drop_last() =~= Seq::<Lexeme>::empty());
}

/// A nested expression and a statement are finished.
pub proof fn lemma_nested_complete(t: Tree, floor: int)
    requires
        nested(t, floor) || statement(t),
    ensures
        t.complete(),
    decreases t,
{
    match t {
        Tree::Binary(l, op, r) => {
            lemma_nested_complete(*l, op.rank() as int);
            lemma_nested_complete(*r, op.rank() + 1);
        },
        Tree::Group(inner) => lemma_nested_complete(*inner, 0),
        Tree::Assign(_, rhs) => lemma_nested_complete(*rhs, 0),
        Tree::Return(operand) => lemma_nested_complete(*operand, 0),
        _ => {},
    }
}

/// A tree that awaits an operand takes any operand, and a higher floor
/// is awaited too.
proof fn lemma_awaits(c: Tree, floor: int, node: Tree, higher: int)
    requires
        c.awaits(floor),
        floor <= higher,
    ensures
        c.attach(node) is Ok,
        c.awaits(higher),
    decreases c,
{
    match c {
        Tree::Binary(_, _, r) => lemma_awaits(*r, floor, node, higher),
        Tree::Assign(_, rhs) => lemma_awaits(*rhs, floor, node, higher),
        Tree::Return(operand) => lemma_awaits(*operand, floor, node, higher),
        _ => {},
    }
}

/// An operator that follows a finished left operand takes that operand, and
/// only it, as its left-hand side, whatever lower-ranking expression is
/// open around it.
proof fn lemma_rewrite_in_place(c: Tree, l: Tree, op: BinOp)
    requires
        c.awaits(op.rank() as int),
        nested(l, op.rank() as int),
    ensures
        c.attach(l) is Ok,
        c.attach(Tree::Binary(Box::new(l), op, Box::new(Tree::Hole))) is Ok,
        c.attach(l)->Ok_0.rewrite(op) == c.attach(
            Tree::Binary(Box::new(l), op, Box::new(Tree::Hole)),
        ),
        c.attach(Tree::Binary(Box::new(l), op, Box::new(Tree::Hole)))->Ok_0.awaits(op.rank() + 1),
    decreases c,
{
    match c {
        Tree::Binary(_, _, r) => lemma_rewrite_in_place(*r, l, op),
        Tree::Assign(_, rhs) => lemma_rewrite_in_place(*rhs, l, op),
        Tree::Return(operand) => lemma_rewrite_in_place(*operand, l, op),
        _ => {
            reveal_with_fuel(Tree::awaits, 2);
        },
    }
}

/// Filling the hole of an operand first and handing it over then is the
/// same as handing it over and filling the hole then.
proof fn lemma_attach_twice(c: Tree, inner: Tree, node: Tree)
    requires
        c.attach(inner) is Ok,
        inner.attach(node) is Ok,
    ensures
        c.attach(inner)->Ok_0.attach(node) == c.attach(inner.attach(node)->Ok_0),
    decreases c,
{
    match c {
        Tree::Binary(_, _, r) => lemma_attach_twice(*r, inner, node),
        Tree::Assign(_, rhs) => lemma_attach_twice(*rhs, inner, node),
        Tree::Return(operand) => lemma_attach_twice(*operand, inner, node),
        _ => {},
    }
}

/// The token of an arithmetic operator is read as that operator.
proof fn lemma_operator_step(b: Builder, op: BinOp)
    ensures
        b.step(Lexeme { kind: TokenType::Operator, text: symbol(op) }) == b.operator(op),
{
    reveal_strlit("+");
    reveal_strlit("-");
    reveal_strlit("*");
    reveal_strlit("/");
    assert("+"@[0] == '+');
    assert("-"@[0] == '-');
    assert("*"@[0] == '*');
    assert("/"@[0] == '/');
}

/// The tokens of a nested expression, handed to a builder whose expression
/// awaits it, put exactly that expression into the open hole and leave the
/// rest of the builder as it was.
proof fn lemma_feed(b: Builder, t: Tree, floor: int)
    requires
        nested(t, floor),
        b.current.awaits(floor),
    ensures
        b.current.attach(t) is Ok,
        b.run(unparse(t)) == Ok::<Builder, ParseError>(
            b.with_current(b.current.attach(t)->Ok_0),
        ),
    decreases t, 0nat,
{
    reveal_with_fuel(Tree::attach, 2);
    let c = b.current;
    lemma_awaits(c, floor, t, floor);
    match t {
        Tree::Literal(s) => {
            lemma_run_one(b, Lexeme { kind: TokenType::Number, text: s });
        },
        Tree::Variable(s) => {
            lemma_run_one(b, Lexeme { kind: TokenType::Ident, text: s });
        },
        Tree::Group(inner) => {
            let open = Lexeme { kind: TokenType::Paren(Bracket::Begin), text: "("@ };
            let close = Lexeme { kind: TokenType::Paren(Bracket::End), text: ")"@ };
            let inside = b.open_group();
            lemma_run_one(b, open);
            lemma_feed_statement(inside, *inner);
            let filled = inside.with_current(*inner);
            lemma_run_one(filled, close);
            assert(filled.groups.drop_last() =~= b.groups);
            lemma_run_concat(b, seq![open], unparse(*inner));
            lemma_run_concat(b, seq![open] + unparse(*inner), seq![close]);
        },
        Tree::Binary(l, op, r) => {
            let sign = Lexeme { kind: TokenType::Operator, text: symbol(op) };
            let open = Tree::Binary(l, op, Box::new(Tree::Hole));
            lemma_awaits(c, floor, *l, op.rank() as int);
            lemma_feed(b, *l, op.rank() as int);
            let left_done = b.with_current(c.attach(*l)->Ok_0);
            lemma_rewrite_in_place(c, *l, op);
            lemma_operator_step(left_done, op);
            lemma_run_one(left_done, sign);
            let right_open = b.with_current(c.attach(open)->Ok_0);
            lemma_feed(right_open, *r, op.rank() + 1);
            lemma_attach_twice(c, open, *r);
            lemma_run_concat(b, unparse(*l), seq![sign]);
            lemma_run_concat(b, unparse(*l) + seq![sign], unparse(*r));
        },
        _ => {},
    }
}

/// The tokens of a statement, handed to a builder whose expression is
/// still empty, make that statement its expression.
proof fn lemma_feed_statement(b: Builder, t: Tree)
    requires
        statement(t),
        b.current is Hole,
    ensures
        b.run(unparse(t)) == Ok::<Builder, ParseError>(b.with_current(t)),
    decreases t, 1nat,
{
    reveal_with_fuel(Tree::attach, 2);
    reveal_with_fuel(Tree::awaits, 2);
    match t {
        Tree::Assign(name, rhs) => {
            let target = Lexeme { kind: TokenType::Ident, text: name };
            let sign = Lexeme { kind: TokenType::Operator, text: "="@ };
            lemma_run_one(b, target);
            let named = b.with_current(Tree::Variable(name));
            assert(named.step(sign) == Ok::<Builder, ParseError>(named.assign())) by {
                reveal_strlit("+");
                reveal_strlit("-");
                reveal_strlit("*");
                reveal_strlit("/");
                reveal_strlit("=");
                assert("="@[0] == '=');
            }
            lemma_run_one(named, sign);
            let open = b.with_current(Tree::Assign(name, Box::new(Tree::Hole)));
            lemma_feed(open, *rhs, 0);
            lemma_run_concat(b, seq![target], seq![sign]);
            assert(seq![target] + seq![sign] =~= seq![target, sign]);
            lemma_run_concat(b, seq![target, sign], unparse(*rhs));
        },
        Tree::Return(operand) => {
            let keyword = Lexeme {
                kind: TokenType::Keyword(KeywordType::Return),
                text: "return"@,
            };
            lemma_run_one(b, keyword);
            let open = b.with_current(Tree::Return(Box::new(Tree::Hole)));
            lemma_feed(open, *operand, 0);
            lemma_run_concat(b, seq![keyword], unparse(*operand));
        },
        _ => {
            lemma_feed(b, t, 0);
        },
    }
}

/// Every statement of the program is a statement, and there is at least
/// one.
pub open spec fn canonical(program: Seq<Tree>) -> bool {
    &&& program.len() > 0
    &&& forall|i: int| 0 <= i < program.len() ==> statement(#[trigger] program[i])
}

/// The tokens that write a program down: its statements, with a `;`
/// between one and the next.
pub open spec fn unparse_program(program: Seq<Tree>) -> Seq<Lexeme>
    decreases program.len(),
{
    if program.len() == 0 {
        Seq::empty()
    } else if program.len() == 1 {
        unparse(program[0])
    } else {
        unparse_program(program.drop_last()) + seq![
            Lexeme { kind: TokenType::Operator, text: ";"@ },
        ] + unparse(program.last())
    }
}

proof fn lemma_feed_program(program: Seq<Tree>)
    requires
        canonical(program),
    ensures
        Builder::start().run(unparse_program(program)) == Ok::<Builder, ParseError>(
            Builder {
                program: program.drop_last(),
                groups: Seq::empty(),
                current: program.last(),
            },
        ),
    decreases program.len(),
{
    let start = Builder::start();
    if program.len() == 1 {
        lemma_feed_statement(start, program[0]);
        assert(program.drop_last() =~= Seq::empty());
    } else {
        let earlier = program.drop_last();
        let separator = Lexeme { kind: TokenType::Operator, text: ";"@ };
        assert(canonical(earlier));
        lemma_feed_program(earlier);
        let held = Builder {
            program: earlier.drop_last(),
            groups: Seq::empty(),
            current: earlier.last(),
        };
        lemma_nested_complete(earlier.last(), 0);
        assert(earlier.drop_last().push(earlier.last()) =~= earlier);
        assert(held.step(separator) == held.end_statement()) by {
            reveal_strlit("+");
            reveal_strlit("-");
            reveal_strlit("*");
            reveal_strlit("/");
            reveal_strlit("=");
            reveal_strlit(";");
            assert(";"@[0] == ';');
        }
        lemma_run_one(held, separator);
        let fresh = Builder { program: earlier, groups: Seq::empty(), current: Tree::Hole };
        lemma_feed_statement(fresh, program.last());
        lemma_run_concat(start, unparse_program(earlier), seq![separator]);
        lemma_run_concat(
            start,
            unparse_program(earlier) + seq![separator],
            unparse(program.last()),
        );
    }
}

/// Building inverts writing down: the tokens of a canonical program build
/// exactly that program. So the builder nests every operator as precedence
/// and left-to-right association demand, keeps every group, and splits the
/// statements at each `;`.
pub proof fn lemma_parse_unparse(program: Seq<Tree>)
    requires
        canonical(program),
    ensures
        parse(unparse_program(program)) == Ok::<Seq<Tree>, ParseError>(program),
{
    lemma_feed_program(program);
    lemma_nested_complete(program.last(), 0);
    assert(program.drop_last().push(program.last()) =~= program);
}

/// Operators of one rank associate to the left: `a p b q c` builds
/// `(a p b) q c` whenever `p` and `q` rank the same, for operands that
/// themselves need no parentheses there.
pub proof fn lemma_left_associative(a: Tree, p: BinOp, b: Tree, q: BinOp, c: Tree)
    requires
        p.rank() == q.rank(),
        nested(a, p.rank() as int),
        nested(b, p.rank() + 1),
        nested(c, q.rank() + 1),
    ensures
        parse(
            unparse(a) + seq![Lexeme { kind: TokenType::Operator, text: symbol(p) }] + unparse(b)
                + seq![Lexeme { kind: TokenType::Operator, text: symbol(q) }] + unparse(c),
        ) == Ok::<Seq<Tree>, ParseError>(
            seq![
                Tree::Binary(
                    Box::new(Tree::Binary(Box::new(a), p, Box::new(b))),
                    q,
                    Box::new(c),
                ),
            ],
        ),
{
    let inner = Tree::Binary(Box::new(a), p, Box::new(b));
    let whole = Tree::Binary(Box::new(inner), q, Box::new(c));
    assert(nested(inner, q.rank() as int));
    assert(nested(whole, 0));
    assert(statement(whole));
    lemma_parse_unparse(seq![whole]);
    assert(unparse(inner) == unparse(a) + seq![
        Lexeme { kind: TokenType::Operator, text: symbol(p) },
    ] + unparse(b));
}

/// The tree is an arithmetic expression as far as it has been built: once
/// its holes are filled with operands it is nested at `floor`, unless a hole
/// is left where no operand can reach it.
pub open spec fn growing(t: Tree, floor: int) -> bool
    decreases t, 0nat,
{
    match t {
        Tree::Hole | Tree::Literal(_) | Tree::Variable(_) => true,
        Tree::Group(inner) => inner.complete() ==> statement(*inner),
        Tree::Binary(l, op, r) => l.complete() ==> floor <= op.rank() && nested(
            *l,
            op.rank() as int,
        ) && growing(*r, op.rank() + 1),
        Tree::Assign(_, _) | Tree::Return(_) => false,
    }
}

/// The tree is a statement as far as it has been built.
pub open spec fn growing_statement(t: Tree) -> bool {
    match t {
        Tree::Assign(_, rhs) => growing(*rhs, 0),
        Tree::Return(operand) => growing(*operand, 0),
        _ => growing(t, 0),
    }
}

proof fn lemma_growing_complete(t: Tree, floor: int)
    requires
        growing(t, floor),
        t.complete(),
    ensures
        nested(t, floor),
    decreases t,
{
    match t {
        Tree::Binary(l, op, r) => lemma_growing_complete(*r, op.rank() + 1),
        _ => {},
    }
}

/// The tree is what a token or a closed group hands to the builder as one
/// operand.
pub open spec fn atomic(t: Tree) -> bool {
    match t {
        Tree::Literal(_) | Tree::Variable(_) => true,
        Tree::Group(inner) => inner.complete() ==> statement(*inner),
        _ => false,
    }
}

proof fn lemma_attach_growing(t: Tree, floor: int, node: Tree)
    requires
        growing(t, floor),
        atomic(node),
        t.attach(node) is Ok,
    ensures
        growing(t.attach(node)->Ok_0, floor),
    decreases t,
{
    match t {
        Tree::Binary(l, op, r) => {
            if l.complete() {
                lemma_attach_growing(*r, op.rank() + 1, node);
            }
        },
        _ => {},
    }
}

proof fn lemma_rewrite_growing(t: Tree, floor: int, op: BinOp)
    requires
        growing(t, floor),
        floor <= op.rank(),
        t.rewrite(op) is Ok,
    ensures
        growing(t.rewrite(op)->Ok_0, floor),
    decreases t,
{
    reveal_with_fuel(growing, 2);
    match t {
        Tree::Binary(l, existing, r) => {
            if existing.rank() >= op.rank() {
                if t.complete() {
                    lemma_growing_complete(t, floor);
                }
            } else if l.complete() {
                lemma_rewrite_growing(*r, existing.rank() + 1, op);
            }
        },
        _ => {},
    }
}

/// Everything the builder holds is canonical as far as it has been built.
pub open spec fn orderly(b: Builder) -> bool {
    &&& forall|i: int| 0 <= i < b.program.len() ==> statement(#[trigger] b.program[i])
    &&& forall|i: int| 0 <= i < b.groups.len() ==> growing_statement(#[trigger] b.groups[i])
    &&& growing_statement(b.current)
}

proof fn lemma_statement_attach(t: Tree, node: Tree)
    requires
        growing_statement(t),
        atomic(node),
        t.attach(node) is Ok,
    ensures
        growing_statement(t.attach(node)->Ok_0),
{
    match t {
        Tree::Assign(_, rhs) => lemma_attach_growing(*rhs, 0, node),
        Tree::Return(operand) => lemma_attach_growing(*operand, 0, node),
        _ => lemma_attach_growing(t, 0, node),
    }
}

proof fn lemma_statement_rewrite(t: Tree, op: BinOp)
    requires
        growing_statement(t),
        t.rewrite(op) is Ok,
    ensures
        growing_statement(t.rewrite(op)->Ok_0),
{
    match t {
        Tree::Assign(_, rhs) => lemma_rewrite_growing(*rhs, 0, op),
        Tree::Return(operand) => lemma_rewrite_growing(*operand, 0, op),
        _ => lemma_rewrite_growing(t, 0, op),
    }
}

proof fn lemma_statement_complete(t: Tree)
    requires
        growing_statement(t),
        t.complete(),
    ensures
        statement(t),
{
    match t {
        Tree::Assign(_, rhs) => lemma_growing_complete(*rhs, 0),
        Tree::Return(operand) => lemma_growing_complete(*operand, 0),
        _ => lemma_growing_complete(t, 0),
    }
}

proof fn lemma_step_orderly(b: Builder, token: Lexeme)
    requires
        orderly(b),
        b.step(token) is Ok,
    ensures
        orderly(b.step(token)->Ok_0),
{
    let after = b.step(token)->Ok_0;
    match token.kind {
        TokenType::Number => lemma_statement_attach(b.current, Tree::Literal(token.text)),
        TokenType::Ident => lemma_statement_attach(b.current, Tree::Variable(token.text)),
        TokenType::Operator => {
            if token.text == "+"@ {
                lemma_statement_rewrite(b.current, BinOp::PlusMinus(Additive::Plus));
            } else if token.text == "-"@ {
                lemma_statement_rewrite(b.current, BinOp::PlusMinus(Additive::Minus));
            } else if token.text == "*"@ {
                lemma_statement_rewrite(b.current, BinOp::MulDiv(Multitive::Mul));
            } else if token.text == "/"@ {
                lemma_statement_rewrite(b.current, BinOp::MulDiv(Multitive::Div));
            } else if token.text == "="@ {
            } else if token.text == ";"@ {
                lemma_statement_complete(b.current);
                assert forall|i: int| 0 <= i < after.program.len() implies statement(
                    #[trigger] after.program[i],
                ) by {
                    if i < b.program.len() {
                        assert(after.program[i] == b.program[i]);
                    }
                }
            }
        },
        TokenType::Paren(Bracket::Begin) => {
            assert forall|i: int| 0 <= i < after.groups.len() implies growing_statement(
                #[trigger] after.groups[i],
            ) by {
                if i < b.groups.len() {
                    assert(after.groups[i] == b.groups[i]);
                }
            }
        },
        TokenType::Paren(Bracket::End) => {
            let group = Tree::Group(Box::new(b.current));
            if b.current.complete() {
                lemma_statement_complete(b.current);
            }
            assert(growing_statement(b.groups.last()));
            lemma_statement_attach(b.groups.last(), group);
            assert forall|i: int| 0 <= i < after.groups.len() implies growing_statement(
                #[trigger] after.groups[i],
            ) by {
                assert(after.groups[i] == b.groups[i]);
            }
        },
        TokenType::Keyword(_) => {},
    }
}

proof fn lemma_run_orderly(b: Builder, tokens: Seq<Lexeme>)
    requires
        orderly(b),
        b.run(tokens) is Ok,
    ensures
        orderly(b.run(tokens)->Ok_0),
    decreases tokens.len(),
{
    if tokens.len() > 0 {
        lemma_run_orderly(b, tokens.drop_last());
        lemma_step_orderly(b.run(tokens.drop_last())->Ok_0, tokens.last());
    }
}

/// Whatever the tokens, a program that the builder hands out is canonical:
/// every operator in it is nested as precedence and left-to-right
/// association demand. With [`lemma_parse_unparse`], the programs that can
/// be built are exactly the canonical ones.
pub proof fn lemma_parse_canonical(tokens: Seq<Lexeme>)
    requires
        parse(tokens) is Ok,
    ensures
        canonical(parse(tokens)->Ok_0),
{
    let start = Builder::start();
    lemma_run_orderly(start, tokens);
    let last = start.run(tokens)->Ok_0;
    lemma_statement_complete(last.current);
    let program = last.program.push(last.current);
    assert forall|i: int| 0 <= i < program.len() implies statement(#[trigger] program[i]) by {
        if i < last.program.len() {
            assert(program[i] == last.program[i]);
        }
    }
}

} // verus!
