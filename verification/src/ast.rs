//! The program tree and its builder.
//!
//! The builder takes one token at a time, never looks ahead and never goes
//! back. Between two tokens it holds the statements finished so far, the
//! expression under construction, and the expressions set aside for the
//! groups that are open. [`Builder::step`] says what each token does to it,
//! [`parse`] what a whole token sequence builds, and [`make_ast`] builds it.

use vstd::prelude::*;
use crate::error::ParseError;
use crate::exps::{make_assign, Additive, BinOp, Exp, Multitive, Tree};
use crate::gen::{lemma_attach_registers, lemma_rewrite_registers, program_registers, registers};
use crate::token::{lexemes, Bracket, KeywordType, Lexeme, Token, TokenType};

verus! {

/// A parsed program: its statements in source order.
#[derive(Debug, PartialEq, Eq)]
pub enum Ast {
    Stmt(Vec<Exp>),
}

/// The trees of a sequence of expressions, in order.
pub open spec fn trees(exps: Seq<Exp>) -> Seq<Tree> {
    exps.map_values(|e: Exp| e@)
}

impl View for Ast {
    type V = Seq<Tree>;

    open spec fn view(&self) -> Seq<Tree> {
        match self {
            Ast::Stmt(exps) => trees(exps@),
        }
    }
}

/// Every statement of the program is finished.
pub open spec fn finished(program: Seq<Tree>) -> bool {
    forall|i: int| 0 <= i < program.len() ==> (#[trigger] program[i]).complete()
}

/// What the builder holds between two tokens.
pub struct Builder {
    /// The statements finished so far.
    pub program: Seq<Tree>,
    /// The expressions that enclose the groups now open, outermost first.
    pub groups: Seq<Tree>,
    /// The expression under construction.
    pub current: Tree,
}

impl Builder {
    /// The builder before the first token.
    pub open spec fn start() -> Builder {
        Builder { program: Seq::empty(), groups: Seq::empty(), current: Tree::Hole }
    }

    /// The builder with another expression under construction.
    pub open spec fn with_current(self, current: Tree) -> Builder {
        Builder { current, ..self }
    }

    /// Hands an operand to the expression under construction.
    pub open spec fn operand(self, node: Tree) -> Result<Builder, ParseError> {
        match self.current.attach(node) {
            Ok(t) => Ok(self.with_current(t)),
            Err(e) => Err(e),
        }
    }

    /// Hands an arithmetic operator to the expression under construction.
    pub open spec fn operator(self, op: BinOp) -> Result<Builder, ParseError> {
        match self.current.rewrite(op) {
            Ok(t) => Ok(self.with_current(t)),
            Err(e) => Err(e),
        }
    }

    /// `=` turns a lone variable into an assignment that awaits its
    /// right-hand side; before any other expression it is ignored.
    pub open spec fn assign(self) -> Builder {
        match self.current {
            Tree::Variable(name) => self.with_current(
                Tree::Assign(name, Box::new(Tree::Hole)),
            ),
            _ => self,
        }
    }

    /// `;` ends a statement: the expression under construction joins the
    /// program, and the next one starts afresh. The statement must be
    /// finished and no group may be open.
    pub open spec fn end_statement(self) -> Result<Builder, ParseError> {
        if self.groups.len() == 0 && self.current.complete() {
            Ok(
                Builder {
                    program: self.program.push(self.current),
                    groups: self.groups,
                    current: Tree::Hole,
                },
            )
        } else {
            Err(ParseError::StructuralInvariantViolation)
        }
    }

    /// `(` sets the expression under construction aside and starts the
    /// group's content afresh.
    pub open spec fn open_group(self) -> Builder {
        Builder {
            program: self.program,
            groups: self.groups.push(self.current),
            current: Tree::Hole,
        }
    }

    /// `)` wraps what was built since the matching `(` into a group and
    /// hands it, as an operand, to the expression that was set aside.
    pub open spec fn close_group(self) -> Result<Builder, ParseError> {
        if self.groups.len() == 0 {
            Err(ParseError::StructuralInvariantViolation)
        } else {
            match self.groups.last().attach(Tree::Group(Box::new(self.current))) {
                Ok(t) => Ok(
                    Builder {
                        program: self.program,
                        groups: self.groups.drop_last(),
                        current: t,
                    },
                ),
                Err(e) => Err(e),
            }
        }
    }

    /// The builder after one more token.
    pub open spec fn step(self, token: Lexeme) -> Result<Builder, ParseError> {
        match token.kind {
            TokenType::Number => self.operand(Tree::Literal(token.text)),
            TokenType::Ident => self.operand(Tree::Variable(token.text)),
            TokenType::Operator => if token.text == "+"@ {
                self.operator(BinOp::PlusMinus(Additive::Plus))
            } else if token.text == "-"@ {
                self.operator(BinOp::PlusMinus(Additive::Minus))
            } else if token.text == "*"@ {
                self.operator(BinOp::MulDiv(Multitive::Mul))
            } else if token.text == "/"@ {
                self.operator(BinOp::MulDiv(Multitive::Div))
            } else if token.text == "="@ {
                Ok(self.assign())
            } else if token.text == ";"@ {
                self.end_statement()
            } else {
                Err(ParseError::UnknownOperator)
            },
            TokenType::Paren(Bracket::Begin) => Ok(self.open_group()),
            TokenType::Paren(Bracket::End) => self.close_group(),
            TokenType::Keyword(KeywordType::Return) => Ok(
                self.with_current(Tree::Return(Box::new(Tree::Hole))),
            ),
            TokenType::Keyword(KeywordType::If) => Err(ParseError::UnsupportedConstruct),
        }
    }

    /// The builder after a run of tokens, or the error of the first token
    /// that was refused.
    pub open spec fn run(self, tokens: Seq<Lexeme>) -> Result<Builder, ParseError>
        decreases tokens.len(),
    {
        if tokens.len() == 0 {
            Ok(self)
        } else {
            match self.run(tokens.drop_last()) {
                Ok(b) => b.step(tokens.last()),
                Err(e) => Err(e),
            }
        }
    }

    /// At the end of input the last statement ends as at a `;`, and the
    /// program is what has been collected.
    pub open spec fn finish(self) -> Result<Seq<Tree>, ParseError> {
        match self.end_statement() {
            Ok(b) => Ok(b.program),
            Err(e) => Err(e),
        }
    }
}

/// The program that a token sequence builds, or the error that ends the
/// build.
pub open spec fn parse(tokens: Seq<Lexeme>) -> Result<Seq<Tree>, ParseError> {
    match Builder::start().run(tokens) {
        Ok(b) => b.finish(),
        Err(e) => Err(e),
    }
}

/// The program, or the error, that a build handed back.
pub open spec fn built(r: Result<Ast, ParseError>) -> Result<Seq<Tree>, ParseError> {
    match r {
        Ok(ast) => Ok(ast@),
        Err(e) => Err(e),
    }
}

/// Once a token has been refused, no later token changes the outcome.
pub proof fn lemma_run_keeps_error(b: Builder, tokens: Seq<Lexeme>, k: int)
    requires
        0 <= k <= tokens.len(),
        b.run(tokens.take(k)) is Err,
    ensures
        b.run(tokens) == b.run(tokens.take(k)),
    decreases tokens.len() - k,
{
    if k < tokens.len() {
        assert(tokens.take(k + 1).drop_last() =~= tokens.take(k));
        lemma_run_keeps_error(b, tokens, k + 1);
    } else {
        assert(tokens.take(k) =~= tokens);
    }
}

/// Builds the program of a token sequence, one token at a time and without
/// looking ahead.
pub fn make_ast(tokens: Vec<Token>) -> (r: Result<Ast, ParseError>)
    ensures
        built(r) == parse(lexemes(tokens@)),
        r matches Ok(ast) ==> finished(ast@) && program_registers(ast@) <= tokens.len(),
{
    proof {
        if parse(lexemes(tokens@)) is Ok {
            lemma_parse_bounds(lexemes(tokens@));
        }
    }
    let plus = "+".to_owned();
    let minus = "-".to_owned();
    let star = "*".to_owned();
    let slash = "/".to_owned();
    let equals = "=".to_owned();
    let semicolon = ";".to_owned();
    let ghost input = lexemes(tokens@);
    let mut program: Vec<Exp> = Vec::new();
    let mut groups: Vec<Exp> = Vec::new();
    let mut current = Exp::Undef;
    let mut i: usize = 0;
    assert(input.take(0) =~= Seq::empty());
    assert(trees(program@) =~= Seq::empty());
    assert(trees(groups@) =~= Seq::empty());
    while i < tokens.len()
        invariant
            i <= tokens.len(),
            input == lexemes(tokens@),
            plus@ == "+"@,
            minus@ == "-"@,
            star@ == "*"@,
            slash@ == "/"@,
            equals@ == "="@,
            semicolon@ == ";"@,
            Builder::start().run(input.take(i as int)) == Ok::<Builder, ParseError>(
                Builder {
                    program: trees(program@),
                    groups: trees(groups@),
                    current: current@,
                },
            ),
        decreases tokens.len() - i,
    {
        let token = &tokens[i];
        let ghost before = Builder {
            program: trees(program@),
            groups: trees(groups@),
            current: current@,
        };
        proof {
            assert(input.take(i + 1).drop_last() =~= input.take(i as int));
            assert(input.take(i + 1).last() == token@);
            assert(Builder::start().run(input.take(i + 1)) == before.step(token@));
            if before.step(token@) is Err {
                lemma_run_keeps_error(Builder::start(), input, i + 1);
            }
        }
        let ghost old_program = program@;
        let ghost old_groups = groups@;
        let stepped: Result<Exp, ParseError> = match token.t {
            TokenType::Number => current.extend(Exp::Num(token.s.clone())),
            TokenType::Ident => current.extend(Exp::Ident(token.s.clone())),
            TokenType::Operator => {
                if token.s == plus {
                    current.binary(BinOp::PlusMinus(Additive::Plus))
                } else if token.s == minus {
                    current.binary(BinOp::PlusMinus(Additive::Minus))
                } else if token.s == star {
                    current.binary(BinOp::MulDiv(Multitive::Mul))
                } else if token.s == slash {
                    current.binary(BinOp::MulDiv(Multitive::Div))
                } else if token.s == equals {
                    match current {
                        Exp::Ident(name) => Ok(make_assign(name.as_str())),
                        other => Ok(other),
                    }
                } else if token.s == semicolon {
                    if groups.len() == 0 && current.is_complete() {
                        program.push(current);
                        assert(trees(program@) =~= trees(old_program).push(before.current));
                        Ok(Exp::Undef)
                    } else {
                        Err(ParseError::StructuralInvariantViolation)
                    }
                } else {
                    Err(ParseError::UnknownOperator)
                }
            },
            TokenType::Paren(Bracket::Begin) => {
                groups.push(current);
                assert(trees(groups@) =~= trees(old_groups).push(before.current));
                Ok(Exp::Undef)
            },
            TokenType::Paren(Bracket::End) => match groups.pop() {
                Some(parent) => {
                    assert(trees(groups@) =~= trees(old_groups).drop_last());
                    assert(parent@ == trees(old_groups).last());
                    parent.extend(Exp::Child(Box::new(current)))
                },
                None => Err(ParseError::StructuralInvariantViolation),
            },
            TokenType::Keyword(KeywordType::Return) => {
                let fresh = Exp::Return(Box::new(Exp::Undef));
                assert(fresh@ == Tree::Return(Box::new(Tree::Hole))) by {
                    reveal_with_fuel(Exp::tree, 2);
                }
                Ok(fresh)
            },
            TokenType::Keyword(KeywordType::If) => Err(ParseError::UnsupportedConstruct),
        };
        assert(match before.step(token@) {
            Ok(after) => stepped is Ok && after == Builder {
                program: trees(program@),
                groups: trees(groups@),
                current: stepped->Ok_0@,
            },
            Err(e) => stepped == Err::<Exp, ParseError>(e),
        });
        match stepped {
            Ok(next) => {
                current = next;
            },
            Err(e) => {
                return Err(e);
            },
        }
        i += 1;
    }
    assert(input.take(i as int) =~= input);
    if groups.len() == 0 && current.is_complete() {
        let ghost old_program = program@;
        program.push(current);
        assert(trees(program@) =~= trees(old_program).push(current@));
        Ok(Ast::Stmt(program))
    } else {
        Err(ParseError::StructuralInvariantViolation)
    }
}

impl Builder {
    /// The registers that lowering everything the builder holds would
    /// take.
    pub open spec fn registers(self) -> nat {
        program_registers(self.program) + program_registers(self.groups) + registers(self.current)
    }
}

proof fn lemma_push_registers(program: Seq<Tree>, t: Tree)
    ensures
        program_registers(program.push(t)) == program_registers(program) + registers(t),
{
    assert(program.push(t).drop_last() =~= program);
}

/// One token adds at most one register to what the builder holds, and
/// leaves the collected statements finished.
proof fn lemma_step_bounds(b: Builder, token: Lexeme)
    requires
        b.step(token) is Ok,
        finished(b.program),
    ensures
        b.step(token)->Ok_0.registers() <= b.registers() + 1,
        finished(b.step(token)->Ok_0.program),
{
    reveal_with_fuel(registers, 2);
    match token.kind {
        TokenType::Number => lemma_attach_registers(b.current, Tree::Literal(token.text)),
        TokenType::Ident => lemma_attach_registers(b.current, Tree::Variable(token.text)),
        TokenType::Operator => {
            if token.text == "+"@ {
                lemma_rewrite_registers(b.current, BinOp::PlusMinus(Additive::Plus));
            } else if token.text == "-"@ {
                lemma_rewrite_registers(b.current, BinOp::PlusMinus(Additive::Minus));
            } else if token.text == "*"@ {
                lemma_rewrite_registers(b.current, BinOp::MulDiv(Multitive::Mul));
            } else if token.text == "/"@ {
                lemma_rewrite_registers(b.current, BinOp::MulDiv(Multitive::Div));
            } else if token.text == "="@ {
            } else if token.text == ";"@ {
                lemma_push_registers(b.program, b.current);
            }
        },
        TokenType::Paren(Bracket::Begin) => lemma_push_registers(b.groups, b.current),
        TokenType::Paren(Bracket::End) => {
            lemma_attach_registers(b.groups.last(), Tree::Group(Box::new(b.current)));
        },
        TokenType::Keyword(_) => {},
    }
}

/// A run of tokens adds at most one register per token, and leaves the
/// collected statements finished.
proof fn lemma_run_bounds(b: Builder, tokens: Seq<Lexeme>)
    requires
        b.run(tokens) is Ok,
        finished(b.program),
    ensures
        b.run(tokens)->Ok_0.registers() <= b.registers() + tokens.len(),
        finished(b.run(tokens)->Ok_0.program),
    decreases tokens.len(),
{
    if tokens.len() > 0 {
        lemma_run_bounds(b, tokens.drop_last());
        lemma_step_bounds(b.run(tokens.drop_last())->Ok_0, tokens.last());
    }
}

/// A program that was built is finished, and lowering it takes no more
/// registers than it had tokens.
pub proof fn lemma_parse_bounds(tokens: Seq<Lexeme>)
    requires
        parse(tokens) is Ok,
    ensures
        finished(parse(tokens)->Ok_0),
        program_registers(parse(tokens)->Ok_0) <= tokens.len(),
{
    let b = Builder::start();
    assert(program_registers(b.program) == 0);
    lemma_run_bounds(b, tokens);
    let last = b.run(tokens)->Ok_0;
    lemma_push_registers(last.program, last.current);
}

} // verus!
