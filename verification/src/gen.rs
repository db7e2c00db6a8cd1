//! The code generator: from a program to the text of the function that
//! computes it.
//!
//! Lowering goes over each tree operands first and threads one register
//! counter through the whole program, so that every instruction that yields
//! a value writes a register of its own. [`lower`] and [`emit`] say what is
//! written; [`gen_from_exp`] and [`gen`] write it.

use vstd::prelude::*;
use crate::ast::{finished, trees, Ast};
use crate::exps::{Additive, BinOp, Exp, Multitive, Tree};
use crate::text::{decimal, decimal_text};

verus! {

/// The instruction name of an operator.
pub open spec fn mnemonic(op: BinOp) -> Seq<char> {
    match op {
        BinOp::PlusMinus(Additive::Plus) => "add"@,
        BinOp::PlusMinus(Additive::Minus) => "sub"@,
        BinOp::MulDiv(Multitive::Mul) => "mul"@,
        BinOp::MulDiv(Multitive::Div) => "udiv"@,
    }
}

/// How register `n` is referred to.
pub open spec fn register_name(n: nat) -> Seq<char> {
    "%"@ + decimal(n)
}

/// How the slot of a variable is referred to. A variable has one slot,
/// named after it.
pub open spec fn slot_name(name: Seq<char>) -> Seq<char> {
    "%"@ + name
}

/// The line that reads the slot of a variable into a register.
pub open spec fn load_line(target: nat, name: Seq<char>) -> Seq<char> {
    " %"@ + decimal(target) + " = load i32, i32* %"@ + name + " \n"@
}

/// The line that applies an operator to two values, into a register.
pub open spec fn compute_line(target: nat, op: BinOp, left: Seq<char>, right: Seq<char>) -> Seq<
    char,
> {
    " %"@ + decimal(target) + " = "@ + mnemonic(op) + " i32 "@ + left + ", "@ + right + "\n"@
}

/// The line that allocates the slot of a variable.
pub open spec fn allocate_line(name: Seq<char>) -> Seq<char> {
    " %"@ + name + " = alloca i32 \n"@
}

/// The line that stores a value to the slot of a variable.
pub open spec fn store_line(value: Seq<char>, name: Seq<char>) -> Seq<char> {
    " store i32 "@ + value + ", i32* %"@ + name + " \n"@
}

/// The line that returns a value.
pub open spec fn return_line(value: Seq<char>) -> Seq<char> {
    " ret i32 "@ + value + "\n"@
}

/// What lowering an expression yields.
pub struct Lowered {
    /// The instructions, one per line.
    pub code: Seq<char>,
    /// How a later instruction refers to the expression's value.
    pub value: Seq<char>,
    /// The number of the next free register.
    pub next: nat,
}

/// Lowers a tree to instructions, numbering fresh registers from `no` on:
/// operands first, left before right, then the node itself.
///
/// A literal is its own value and takes no instruction. A variable is loaded
/// from its slot into a fresh register. A binary node applies its
/// instruction to the values of its operands, into a fresh register. An
/// assignment allocates the slot of its name and stores the value there,
/// whether or not an earlier assignment has allocated that slot already;
/// its own value is the slot. A return hands its operand's value out and
/// has no value of its own. A group is lowered as its content.
pub open spec fn lower(t: Tree, no: nat) -> Lowered
    decreases t,
{
    match t {
        Tree::Hole => Lowered { code: Seq::empty(), value: Seq::empty(), next: no },
        Tree::Literal(s) => Lowered { code: Seq::empty(), value: s, next: no },
        Tree::Variable(name) => Lowered {
            code: load_line(no, name),
            value: register_name(no),
            next: no + 1,
        },
        Tree::Binary(l, op, r) => {
            let left = lower(*l, no);
            let right = lower(*r, left.next);
            Lowered {
                code: left.code + right.code + compute_line(
                    right.next,
                    op,
                    left.value,
                    right.value,
                ),
                value: register_name(right.next),
                next: right.next + 1,
            }
        },
        Tree::Assign(name, rhs) => {
            let stored = lower(*rhs, no);
            Lowered {
                code: stored.code + allocate_line(name) + store_line(stored.value, name),
                value: slot_name(name),
                next: stored.next,
            }
        },
        Tree::Return(operand) => {
            let returned = lower(*operand, no);
            Lowered {
                code: returned.code + return_line(returned.value),
                value: Seq::empty(),
                next: returned.next,
            }
        },
        Tree::Group(inner) => lower(*inner, no),
    }
}

/// How many registers lowering the tree takes: one for each variable read
/// and one for each arithmetic instruction.
pub open spec fn registers(t: Tree) -> nat
    decreases t,
{
    match t {
        Tree::Hole | Tree::Literal(_) => 0,
        Tree::Variable(_) => 1,
        Tree::Binary(l, _, r) => registers(*l) + registers(*r) + 1,
        Tree::Assign(_, rhs) => registers(*rhs),
        Tree::Return(operand) => registers(*operand),
        Tree::Group(inner) => registers(*inner),
    }
}

/// How many registers lowering the whole program takes.
pub open spec fn program_registers(program: Seq<Tree>) -> nat
    decreases program.len(),
{
    if program.len() == 0 {
        0
    } else {
        program_registers(program.drop_last()) + registers(program.last())
    }
}

/// Lowers the statements in order, threading one register counter through
/// them. The value is that of the last statement.
pub open spec fn lower_all(program: Seq<Tree>, no: nat) -> Lowered
    decreases program.len(),
{
    if program.len() == 0 {
        Lowered { code: Seq::empty(), value: Seq::empty(), next: no }
    } else {
        let before = lower_all(program.drop_last(), no);
        let last = lower(program.last(), before.next);
        Lowered { code: before.code + last.code, value: last.value, next: last.next }
    }
}

/// The statement hands a value out itself: it is a return, in parentheses
/// or not.
pub open spec fn ends_in_return(t: Tree) -> bool
    decreases t,
{
    match t {
        Tree::Return(_) => true,
        Tree::Group(inner) => ends_in_return(*inner),
        _ => false,
    }
}

/// What closes the function body: where the last statement is no return,
/// a return of that statement's value.
pub open spec fn closing(program: Seq<Tree>) -> Seq<char> {
    if program.len() > 0 && !ends_in_return(program.last()) {
        return_line(lower_all(program, 1).value)
    } else {
        Seq::empty()
    }
}

/// The text of the function that computes the program: the header, the
/// statements lowered in order with registers numbered from 1, the closing
/// return where one is needed, and the footer.
pub open spec fn emit(program: Seq<Tree>) -> Seq<char> {
    "define i32 @main() {\n"@ + lower_all(program, 1).code + closing(program) + "}"@
}

/// The threaded counter advances by exactly the registers taken.
pub proof fn lemma_lower_next(t: Tree, no: nat)
    ensures
        lower(t, no).next == no + registers(t),
    decreases t,
{
    match t {
        Tree::Binary(l, _, r) => {
            lemma_lower_next(*l, no);
            lemma_lower_next(*r, lower(*l, no).next);
        },
        Tree::Assign(_, rhs) => lemma_lower_next(*rhs, no),
        Tree::Return(operand) => lemma_lower_next(*operand, no),
        Tree::Group(inner) => lemma_lower_next(*inner, no),
        _ => {},
    }
}

/// The counter after a program has advanced by the registers it took.
pub proof fn lemma_lower_all_next(program: Seq<Tree>, no: nat)
    ensures
        lower_all(program, no).next == no + program_registers(program),
    decreases program.len(),
{
    if program.len() > 0 {
        lemma_lower_all_next(program.drop_last(), no);
        lemma_lower_next(program.last(), lower_all(program.drop_last(), no).next);
    }
}

/// A prefix of a program takes no more registers than the program.
proof fn lemma_prefix_registers(program: Seq<Tree>, k: int)
    requires
        0 <= k <= program.len(),
    ensures
        program_registers(program.take(k)) <= program_registers(program),
    decreases program.len() - k,
{
    if k < program.len() {
        assert(program.take(k + 1).drop_last() =~= program.take(k));
        lemma_prefix_registers(program, k + 1);
    } else {
        assert(program.take(k) =~= program);
    }
}

/// Filling a hole adds the registers of what fills it.
pub proof fn lemma_attach_registers(t: Tree, node: Tree)
    requires
        t.attach(node) is Ok,
    ensures
        registers(t.attach(node)->Ok_0) == registers(t) + registers(node),
    decreases t,
{
    match t {
        Tree::Binary(_, _, r) => lemma_attach_registers(*r, node),
        Tree::Assign(_, rhs) => lemma_attach_registers(*rhs, node),
        Tree::Return(operand) => lemma_attach_registers(*operand, node),
        _ => {},
    }
}

/// An operator adds one register: that of its own instruction.
pub proof fn lemma_rewrite_registers(t: Tree, op: BinOp)
    requires
        t.rewrite(op) is Ok,
    ensures
        registers(t.rewrite(op)->Ok_0) == registers(t) + 1,
    decreases t,
{
    reveal_with_fuel(registers, 2);
    match t {
        Tree::Binary(_, existing, r) => {
            if existing.rank() < op.rank() {
                lemma_rewrite_registers(*r, op);
            }
        },
        Tree::Assign(_, rhs) => lemma_rewrite_registers(*rhs, op),
        Tree::Return(operand) => lemma_rewrite_registers(*operand, op),
        _ => {},
    }
}

/// The tree without its groups: each group is replaced by its content.
pub open spec fn ungroup(t: Tree) -> Tree
    decreases t,
{
    match t {
        Tree::Group(inner) => ungroup(*inner),
        Tree::Binary(l, op, r) => Tree::Binary(Box::new(ungroup(*l)), op, Box::new(ungroup(*r))),
        Tree::Assign(name, rhs) => Tree::Assign(name, Box::new(ungroup(*rhs))),
        Tree::Return(operand) => Tree::Return(Box::new(ungroup(*operand))),
        Tree::Hole | Tree::Literal(_) | Tree::Variable(_) => t,
    }
}

/// The program without its groups.
pub open spec fn ungroup_all(program: Seq<Tree>) -> Seq<Tree> {
    program.map_values(|t: Tree| ungroup(t))
}

/// Groups leave no trace in the instructions: a tree lowers as the tree
/// without its groups does.
pub proof fn lemma_lower_ungroup(t: Tree, no: nat)
    ensures
        lower(t, no) == lower(ungroup(t), no),
        ends_in_return(t) == ends_in_return(ungroup(t)),
    decreases t,
{
    match t {
        Tree::Group(inner) => lemma_lower_ungroup(*inner, no),
        Tree::Binary(l, _, r) => {
            lemma_lower_ungroup(*l, no);
            lemma_lower_ungroup(*r, lower(*l, no).next);
        },
        Tree::Assign(_, rhs) => lemma_lower_ungroup(*rhs, no),
        Tree::Return(operand) => lemma_lower_ungroup(*operand, no),
        _ => {},
    }
}

/// A program lowers as the program without its groups does.
pub proof fn lemma_lower_all_ungroup(program: Seq<Tree>, no: nat)
    ensures
        lower_all(program, no) == lower_all(ungroup_all(program), no),
    decreases program.len(),
{
    if program.len() > 0 {
        assert(ungroup_all(program).drop_last() =~= ungroup_all(program.drop_last()));
        lemma_lower_all_ungroup(program.drop_last(), no);
        lemma_lower_ungroup(program.last(), lower_all(program.drop_last(), no).next);
    }
}

/// The function written for a program is the one written for the program
/// without its groups.
pub proof fn lemma_emit_ungroup(program: Seq<Tree>)
    ensures
        emit(program) == emit(ungroup_all(program)),
{
    lemma_lower_all_ungroup(program, 1);
    if program.len() > 0 {
        lemma_lower_ungroup(program.last(), 1);
    }
}

/// What a lowering handed back, as a [`Lowered`].
pub open spec fn lowered(r: (String, String, usize)) -> Lowered {
    Lowered { code: r.0@, value: r.1@, next: r.2 as nat }
}

fn mnemonic_text(op: BinOp) -> (s: &'static str)
    ensures
        s@ == mnemonic(op),
{
    match op {
        BinOp::PlusMinus(Additive::Plus) => "add",
        BinOp::PlusMinus(Additive::Minus) => "sub",
        BinOp::MulDiv(Multitive::Mul) => "mul",
        BinOp::MulDiv(Multitive::Div) => "udiv",
    }
}

fn register_text(n: usize) -> (s: String)
    ensures
        s@ == register_name(n as nat),
{
    let mut s = "%".to_owned();
    s.append(decimal_text(n).as_str());
    s
}

fn slot_text(name: &str) -> (s: String)
    ensures
        s@ == slot_name(name@),
{
    let mut s = "%".to_owned();
    s.append(name);
    s
}

fn write_load(code: &mut String, target: usize, name: &str)
    ensures
        final(code)@ == old(code)@ + load_line(target as nat, name@),
{
    code.append(" %");
    code.append(decimal_text(target).as_str());
    code.append(" = load i32, i32* %");
    code.append(name);
    code.append(" \n");
    assert(code@ =~= old(code)@ + load_line(target as nat, name@));
}

fn write_compute(code: &mut String, target: usize, op: BinOp, left: &str, right: &str)
    ensures
        final(code)@ == old(code)@ + compute_line(target as nat, op, left@, right@),
{
    code.append(" %");
    code.append(decimal_text(target).as_str());
    code.append(" = ");
    code.append(mnemonic_text(op));
    code.append(" i32 ");
    code.append(left);
    code.append(", ");
    code.append(right);
    code.append("\n");
    assert(code@ =~= old(code)@ + compute_line(target as nat, op, left@, right@));
}

fn write_allocate(code: &mut String, name: &str)
    ensures
        final(code)@ == old(code)@ + allocate_line(name@),
{
    code.append(" %");
    code.append(name);
    code.append(" = alloca i32 \n");
    assert(code@ =~= old(code)@ + allocate_line(name@));
}

fn write_store(code: &mut String, value: &str, name: &str)
    ensures
        final(code)@ == old(code)@ + store_line(value@, name@),
{
    code.append(" store i32 ");
    code.append(value);
    code.append(", i32* %");
    code.append(name);
    code.append(" \n");
    assert(code@ =~= old(code)@ + store_line(value@, name@));
}

fn write_return(code: &mut String, value: &str)
    ensures
        final(code)@ == old(code)@ + return_line(value@),
{
    code.append(" ret i32 ");
    code.append(value);
    code.append("\n");
    assert(code@ =~= old(code)@ + return_line(value@));
}

/// Lowers one finished expression, numbering fresh registers from `no` on.
/// Returns the instructions, the reference to the expression's value, and
/// the next free register number.
pub fn gen_from_exp(exp: &Exp, no: usize) -> (r: (String, String, usize))
    requires
        exp@.complete(),
        no + registers(exp@) <= usize::MAX,
    ensures
        lowered(r) == lower(exp@, no as nat),
        r.2 == no + registers(exp@),
    decreases exp,
{
    match exp {
        Exp::Num(s) => (String::new(), s.clone(), no),
        Exp::Ident(name) => {
            let mut code = String::new();
            write_load(&mut code, no, name.as_str());
            assert(code@ =~= load_line(no as nat, name@));
            (code, register_text(no), no + 1)
        },
        Exp::Bin(b) => {
            let (mut code, left_value, left_next) = gen_from_exp(&b.lhs, no);
            let (right_code, right_value, right_next) = gen_from_exp(&b.rhs, left_next);
            code.append(right_code.as_str());
            write_compute(&mut code, right_next, b.op, left_value.as_str(), right_value.as_str());
            (code, register_text(right_next), right_next + 1)
        },
        Exp::Assign(a) => {
            let (mut code, stored_value, next) = gen_from_exp(&a.rhs, no);
            write_allocate(&mut code, a.ident.as_str());
            write_store(&mut code, stored_value.as_str(), a.ident.as_str());
            (code, slot_text(a.ident.as_str()), next)
        },
        Exp::Return(operand) => {
            let (mut code, returned_value, next) = gen_from_exp(operand, no);
            write_return(&mut code, returned_value.as_str());
            (code, String::new(), next)
        },
        Exp::Child(inner) => gen_from_exp(inner, no),
        Exp::Undef => unreached(),
    }
}

fn is_return(exp: &Exp) -> (r: bool)
    ensures
        r == ends_in_return(exp@),
    decreases exp,
{
    match exp {
        Exp::Return(_) => true,
        Exp::Child(inner) => is_return(inner),
        _ => false,
    }
}

/// Writes the function that computes the program. Where the last statement
/// is no return, the function returns what that statement's value is
/// referred to by.
pub fn gen(ast: Ast) -> (ir: String)
    requires
        finished(ast@),
        program_registers(ast@) < usize::MAX,
    ensures
        ir@ == emit(ast@),
{
    let Ast::Stmt(exps) = ast;
    let ghost program = trees(exps@);
    let mut ir = "define i32 @main() {\n".to_owned();
    let mut no: usize = 1;
    let mut value = String::new();
    let mut open = false;
    let mut i: usize = 0;
    assert(program.take(0) =~= Seq::empty());
    while i < exps.len()
        invariant
            i <= exps.len(),
            program == trees(exps@),
            finished(program),
            program_registers(program) < usize::MAX,
            ir@ == "define i32 @main() {\n"@ + lower_all(program.take(i as int), 1).code,
            value@ == lower_all(program.take(i as int), 1).value,
            no == lower_all(program.take(i as int), 1).next,
            open == (i > 0 && !ends_in_return(program[i - 1])),
        decreases exps.len() - i,
    {
        proof {
            assert(program.take(i + 1).drop_last() =~= program.take(i as int));
            assert(program.take(i + 1).last() == exps[i as int]@);
            assert(program[i as int].complete());
            lemma_lower_all_next(program.take(i as int), 1);
            lemma_lower_all_next(program.take(i + 1), 1);
            lemma_prefix_registers(program, i + 1);
        }
        let (code, last_value, next) = gen_from_exp(&exps[i], no);
        ir.append(code.as_str());
        value = last_value;
        no = next;
        open = !is_return(&exps[i]);
        i += 1;
    }
    assert(program.take(i as int) =~= program);
    if open {
        write_return(&mut ir, value.as_str());
    }
    ir.append("}");
    ir
}

} // verus!
