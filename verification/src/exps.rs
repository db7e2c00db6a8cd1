//! Expressions and the two steps that grow them: attaching an operand to the
//! rightmost open hole, and rewriting the tree for an incoming operator.
//!
//! [`Exp`] is the tree that is built and handed on; [`Tree`] is what it
//! stands for, with texts as sequences of characters. The steps are stated
//! on [`Tree`] and carried out on [`Exp`].

use vstd::prelude::*;
use crate::error::ParseError;

verus! {

/// The two operators that bind loosely.
#[derive(Debug, Clone, Copy, PartialEq, Eq, Structural)]
pub enum Additive {
    Plus,
    Minus,
}

/// The two operators that bind tightly.
#[derive(Debug, Clone, Copy, PartialEq, Eq, Structural)]
pub enum Multitive {
    Mul,
    Div,
}

/// A binary operator, grouped by precedence class.
#[derive(Debug, Clone, Copy, PartialEq, Eq, Structural)]
pub enum BinOp {
    PlusMinus(Additive),
    MulDiv(Multitive),
}

impl BinOp {
    /// Precedence rank: operators of one class share a rank, and the
    /// multiplicative class outranks the additive one.
    pub open spec fn spec_rank(self) -> u8 {
        match self {
            BinOp::PlusMinus(_) => 0,
            BinOp::MulDiv(_) => 1,
        }
    }

    /// The precedence rank of the operator.
    #[verifier::when_used_as_spec(spec_rank)]
    pub fn rank(self) -> (r: u8)
        ensures
            r == self.spec_rank(),
    {
        match self {
            BinOp::PlusMinus(_) => 0,
            BinOp::MulDiv(_) => 1,
        }
    }
}

/// The mathematical expression tree that an [`Exp`] stands for.
pub enum Tree {
    /// A position that still awaits its operand.
    Hole,
    /// A number, as the digits it was written with.
    Literal(Seq<char>),
    /// A variable, by its name.
    Variable(Seq<char>),
    /// An operator with its left and right operands.
    Binary(Box<Tree>, BinOp, Box<Tree>),
    /// The assignment of the right-hand side to the named variable.
    Assign(Seq<char>, Box<Tree>),
    /// The return of the operand.
    Return(Box<Tree>),
    /// An expression in parentheses. To what surrounds it, it is one
    /// operand.
    Group(Box<Tree>),
}

impl Tree {
    /// No hole is left anywhere in the tree.
    pub open spec fn complete(self) -> bool
        decreases self,
    {
        match self {
            Tree::Hole => false,
            Tree::Literal(_) | Tree::Variable(_) => true,
            Tree::Binary(l, _, r) => l.complete() && r.complete(),
            Tree::Assign(_, rhs) => rhs.complete(),
            Tree::Return(operand) => operand.complete(),
            Tree::Group(inner) => inner.complete(),
        }
    }

    /// Puts `node` into the rightmost open hole: the one reached by going
    /// down through right operands, assignment right-hand sides and return
    /// operands. Arriving at anything but a hole refuses the operand.
    pub open spec fn attach(self, node: Tree) -> Result<Tree, ParseError>
        decreases self,
    {
        match self {
            Tree::Hole => Ok(node),
            Tree::Binary(l, op, r) => match r.attach(node) {
                Ok(filled) => Ok(Tree::Binary(l, op, Box::new(filled))),
                Err(e) => Err(e),
            },
            Tree::Assign(name, rhs) => match rhs.attach(node) {
                Ok(filled) => Ok(Tree::Assign(name, Box::new(filled))),
                Err(e) => Err(e),
            },
            Tree::Return(operand) => match operand.attach(node) {
                Ok(filled) => Ok(Tree::Return(Box::new(filled))),
                Err(e) => Err(e),
            },
            Tree::Literal(_) | Tree::Variable(_) | Tree::Group(_) => Err(
                ParseError::UnexpectedOperand,
            ),
        }
    }

    /// Inserts a new binary node for `op`, with a fresh hole as its right
    /// operand, at the place its precedence assigns it.
    ///
    /// A leaf or a group becomes the left operand. A binary node whose own
    /// operator ranks at least as high as `op` becomes the left operand as a
    /// whole; one that ranks lower hands the rewrite down to its right
    /// operand. Assignments and returns hand it down to their operand. A
    /// hole has nothing to offer as a left operand.
    pub open spec fn rewrite(self, op: BinOp) -> Result<Tree, ParseError>
        decreases self,
    {
        match self {
            Tree::Hole => Err(ParseError::EmptyLeadingOperator),
            Tree::Literal(_) | Tree::Variable(_) | Tree::Group(_) => Ok(
                Tree::Binary(Box::new(self), op, Box::new(Tree::Hole)),
            ),
            Tree::Binary(l, existing, r) => if existing.rank() >= op.rank() {
                Ok(Tree::Binary(Box::new(self), op, Box::new(Tree::Hole)))
            } else {
                match r.rewrite(op) {
                    Ok(rewritten) => Ok(Tree::Binary(l, existing, Box::new(rewritten))),
                    Err(e) => Err(e),
                }
            },
            Tree::Assign(name, rhs) => match rhs.rewrite(op) {
                Ok(rewritten) => Ok(Tree::Assign(name, Box::new(rewritten))),
                Err(e) => Err(e),
            },
            Tree::Return(operand) => match operand.rewrite(op) {
                Ok(rewritten) => Ok(Tree::Return(Box::new(rewritten))),
                Err(e) => Err(e),
            },
        }
    }
}

/// An expression, under construction or finished.
#[derive(Debug, PartialEq, Eq)]
pub enum Exp {
    /// An operator with its operands.
    Bin(BinaryExp),
    /// A number, as the digits it was written with.
    Num(String),
    /// A variable, by its name.
    Ident(String),
    /// An expression in parentheses.
    Child(Box<Exp>),
    /// An assignment to a variable.
    Assign(Assignment),
    /// The return of the operand.
    Return(Box<Exp>),
    /// A position that still awaits its operand.
    Undef,
}

/// The assignment of `rhs` to the variable `ident`.
#[derive(Debug, PartialEq, Eq)]
pub struct Assignment {
    pub ident: String,
    pub rhs: Box<Exp>,
}

/// The operator `op` applied to `lhs` and `rhs`.
#[derive(Debug, PartialEq, Eq)]
pub struct BinaryExp {
    pub lhs: Box<Exp>,
    pub op: BinOp,
    pub rhs: Box<Exp>,
}

impl Exp {
    /// The tree that this expression stands for.
    pub open spec fn tree(&self) -> Tree
        decreases self,
    {
        match self {
            Exp::Bin(b) => Tree::Binary(Box::new(b.lhs.tree()), b.op, Box::new(b.rhs.tree())),
            Exp::Num(s) => Tree::Literal(s@),
            Exp::Ident(s) => Tree::Variable(s@),
            Exp::Child(inner) => Tree::Group(Box::new(inner.tree())),
            Exp::Assign(a) => Tree::Assign(a.ident@, Box::new(a.rhs.tree())),
            Exp::Return(operand) => Tree::Return(Box::new(operand.tree())),
            Exp::Undef => Tree::Hole,
        }
    }
}

impl View for Exp {
    type V = Tree;

    open spec fn view(&self) -> Tree {
        self.tree()
    }
}

impl View for BinaryExp {
    type V = Tree;

    open spec fn view(&self) -> Tree {
        Tree::Binary(Box::new(self.lhs.tree()), self.op, Box::new(self.rhs.tree()))
    }
}

impl View for Assignment {
    type V = Tree;

    open spec fn view(&self) -> Tree {
        Tree::Assign(self.ident@, Box::new(self.rhs.tree()))
    }
}

/// The tree, or the error, that a building step handed back.
pub open spec fn grown(r: Result<Exp, ParseError>) -> Result<Tree, ParseError> {
    match r {
        Ok(e) => Ok(e@),
        Err(e) => Err(e),
    }
}

/// An assignment to `ident` that awaits its right-hand side.
pub fn make_assign(ident: &str) -> (e: Exp)
    ensures
        e@ == Tree::Assign(ident@, Box::new(Tree::Hole)),
{
    let e = Exp::Assign(Assignment { ident: ident.to_owned(), rhs: Box::new(Exp::Undef) });
    assert(e@ == Tree::Assign(ident@, Box::new(Tree::Hole))) by {
        reveal_with_fuel(Exp::tree, 2);
    }
    e
}

impl BinaryExp {
    /// A binary node that awaits its right operand.
    pub fn new(lhs: Exp, op: BinOp) -> (b: Self)
        ensures
            b@ == Tree::Binary(Box::new(lhs@), op, Box::new(Tree::Hole)),
    {
        BinaryExp { lhs: Box::new(lhs), op, rhs: Box::new(Exp::Undef) }
    }

    /// Puts `rhs` into the rightmost open hole below the right operand.
    pub fn set_rhs(self, rhs: Exp) -> (r: Result<Self, ParseError>)
        ensures
            match self@.attach(rhs@) {
                Ok(t) => r is Ok && r->Ok_0@ == t,
                Err(e) => r == Err::<Self, ParseError>(e),
            },
        decreases self,
    {
        let BinaryExp { lhs, op, rhs: slot } = self;
        match (*slot).extend(rhs) {
            Ok(filled) => Ok(BinaryExp { lhs, op, rhs: Box::new(filled) }),
            Err(e) => Err(e),
        }
    }
}

impl Exp {
    /// Puts `exp` into the rightmost open hole of the expression.
    pub fn extend(self, exp: Exp) -> (r: Result<Exp, ParseError>)
        ensures
            grown(r) == self@.attach(exp@),
        decreases self,
    {
        match self {
            Exp::Undef => Ok(exp),
            Exp::Bin(b) => match b.set_rhs(exp) {
                Ok(filled) => Ok(Exp::Bin(filled)),
                Err(e) => Err(e),
            },
            Exp::Assign(a) => {
                let Assignment { ident, rhs } = a;
                match (*rhs).extend(exp) {
                    Ok(filled) => Ok(Exp::Assign(Assignment { ident, rhs: Box::new(filled) })),
                    Err(e) => Err(e),
                }
            },
            Exp::Return(operand) => match (*operand).extend(exp) {
                Ok(filled) => Ok(Exp::Return(Box::new(filled))),
                Err(e) => Err(e),
            },
            Exp::Num(_) | Exp::Ident(_) | Exp::Child(_) => Err(ParseError::UnexpectedOperand),
        }
    }

    /// Applies the precedence rewrite for an incoming operator.
    pub fn binary(self, op: BinOp) -> (r: Result<Exp, ParseError>)
        ensures
            grown(r) == self@.rewrite(op),
        decreases self,
    {
        match self {
            Exp::Undef => Err(ParseError::EmptyLeadingOperator),
            Exp::Bin(b) => {
                if b.op.rank() >= op.rank() {
                    Ok(Exp::Bin(BinaryExp::new(Exp::Bin(b), op)))
                } else {
                    let BinaryExp { lhs, op: existing, rhs } = b;
                    match (*rhs).binary(op) {
                        Ok(rewritten) => Ok(
                            Exp::Bin(BinaryExp { lhs, op: existing, rhs: Box::new(rewritten) }),
                        ),
                        Err(e) => Err(e),
                    }
                }
            },
            Exp::Assign(a) => {
                let Assignment { ident, rhs } = a;
                match (*rhs).binary(op) {
                    Ok(rewritten) => Ok(
                        Exp::Assign(Assignment { ident, rhs: Box::new(rewritten) }),
                    ),
                    Err(e) => Err(e),
                }
            },
            Exp::Return(operand) => match (*operand).binary(op) {
                Ok(rewritten) => Ok(Exp::Return(Box::new(rewritten))),
                Err(e) => Err(e),
            },
            Exp::Num(s) => Ok(Exp::Bin(BinaryExp::new(Exp::Num(s), op))),
            Exp::Ident(s) => Ok(Exp::Bin(BinaryExp::new(Exp::Ident(s), op))),
            Exp::Child(inner) => Ok(Exp::Bin(BinaryExp::new(Exp::Child(inner), op))),
        }
    }

    /// Whether the expression is finished: no operand is missing anywhere.
    pub fn is_complete(&self) -> (r: bool)
        ensures
            r == self@.complete(),
        decreases self,
    {
        match self {
            Exp::Undef => false,
            Exp::Num(_) | Exp::Ident(_) => true,
            Exp::Bin(b) => b.lhs.is_complete() && b.rhs.is_complete(),
            Exp::Assign(a) => a.rhs.is_complete(),
            Exp::Return(operand) => operand.is_complete(),
            Exp::Child(inner) => inner.is_complete(),
        }
    }
}

impl Clone for Exp {
    fn clone(&self) -> (r: Self)
        ensures
            r == *self,
        decreases self,
    {
        match self {
            Exp::Undef => Exp::Undef,
            Exp::Num(s) => Exp::Num(s.clone()),
            Exp::Ident(s) => Exp::Ident(s.clone()),
            Exp::Bin(b) => Exp::Bin(
                BinaryExp {
                    lhs: Box::new((&**(&b.lhs)).clone()),
                    op: b.op,
                    rhs: Box::new((&**(&b.rhs)).clone()),
                },
            ),
            Exp::Assign(a) => Exp::Assign(
                Assignment { ident: a.ident.clone(), rhs: Box::new((&**(&a.rhs)).clone()) },
            ),
            Exp::Return(operand) => Exp::Return(Box::new((&**operand).clone())),
            Exp::Child(inner) => Exp::Child(Box::new((&**inner).clone())),
        }
    }
}

impl Clone for BinaryExp {
    fn clone(&self) -> (r: Self)
        ensures
            r == *self,
    {
        BinaryExp {
            lhs: Box::new((&*self.lhs).clone()),
            op: self.op,
            rhs: Box::new((&*self.rhs).clone()),
        }
    }
}

impl Clone for Assignment {
    fn clone(&self) -> (r: Self)
        ensures
            r == *self,
    {
        Assignment { ident: self.ident.clone(), rhs: Box::new((&*self.rhs).clone()) }
    }
}

} // verus!
