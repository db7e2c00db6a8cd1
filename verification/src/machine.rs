//! Why the generator is right: the instructions it writes compute the value
//! of the program.
//!
//! [`plan`] gives the instructions of a tree as data, and
//! [`lemma_lower_lists_plan`] shows that the text written is their listing.
//! [`Machine`] says what instructions do: registers hold 32-bit words, each
//! is defined once, a slot is allocated once and stored to before it is
//! loaded from, and nothing runs after the return.
//! [`lemma_program_returns`] shows that the instructions written for a
//! program return the value that the program has by arithmetic.

use vstd::prelude::*;
use crate::exps::{Additive, BinOp, Multitive, Tree};
use crate::gen::{
    allocate_line, closing, compute_line, emit, ends_in_return, load_line, lower, lower_all,
    program_registers, register_name, registers, return_line, slot_name, store_line, Lowered,
};
use crate::text::{is_numeral, numeral};

verus! {

/// How an instruction refers to a value.
pub enum Reference {
    /// A number, written as in the source.
    Number(Seq<char>),
    /// A numbered register.
    Register(nat),
    /// The slot of a variable.
    Slot(Seq<char>),
    /// No value: what a return leaves.
    Nothing,
}

/// One instruction of the written function.
pub enum Instruction {
    /// Reads a slot into a register.
    Load { target: nat, slot: Seq<char> },
    /// Applies an operator to two values, into a register.
    Compute { target: nat, op: BinOp, left: Reference, right: Reference },
    /// Makes the slot of a variable.
    Allocate { slot: Seq<char> },
    /// Writes a value to a slot.
    Store { value: Reference, slot: Seq<char> },
    /// Ends the function with a value.
    Return { value: Reference },
}

/// What lowering yields, as instructions and not yet as text.
pub struct Plan {
    pub instructions: Seq<Instruction>,
    pub value: Reference,
    pub next: nat,
}

/// The text of a reference.
pub open spec fn reference_text(r: Reference) -> Seq<char> {
    match r {
        Reference::Number(s) => s,
        Reference::Register(n) => register_name(n),
        Reference::Slot(name) => slot_name(name),
        Reference::Nothing => Seq::empty(),
    }
}

/// The line that writes an instruction.
pub open spec fn line(i: Instruction) -> Seq<char> {
    match i {
        Instruction::Load { target, slot } => load_line(target, slot),
        Instruction::Compute { target, op, left, right } => compute_line(
            target,
            op,
            reference_text(left),
            reference_text(right),
        ),
        Instruction::Allocate { slot } => allocate_line(slot),
        Instruction::Store { value, slot } => store_line(reference_text(value), slot),
        Instruction::Return { value } => return_line(reference_text(value)),
    }
}

/// The lines of a sequence of instructions, in order.
pub open spec fn listing(instructions: Seq<Instruction>) -> Seq<char>
    decreases instructions.len(),
{
    if instructions.len() == 0 {
        Seq::empty()
    } else {
        listing(instructions.drop_last()) + line(instructions.last())
    }
}

/// The instructions that a tree lowers to, with registers numbered from
/// `no` on.
pub open spec fn plan(t: Tree, no: nat) -> Plan
    decreases t,
{
    match t {
        Tree::Hole => Plan { instructions: Seq::empty(), value: Reference::Nothing, next: no },
        Tree::Literal(s) => Plan {
            instructions: Seq::empty(),
            value: Reference::Number(s),
            next: no,
        },
        Tree::Variable(name) => Plan {
            instructions: seq![Instruction::Load { target: no, slot: name }],
            value: Reference::Register(no),
            next: no + 1,
        },
        Tree::Binary(l, op, r) => {
            let left = plan(*l, no);
            let right = plan(*r, left.next);
            Plan {
                instructions: left.instructions + right.instructions + seq![
                    Instruction::Compute {
                        target: right.next,
                        op,
                        left: left.value,
                        right: right.value,
                    },
                ],
                value: Reference::Register(right.next),
                next: right.next + 1,
            }
        },
        Tree::Assign(name, rhs) => {
            let stored = plan(*rhs, no);
            Plan {
                instructions: stored.instructions + seq![
                    Instruction::Allocate { slot: name },
                    Instruction::Store { value: stored.value, slot: name },
                ],
                value: Reference::Slot(name),
                next: stored.next,
            }
        },
        Tree::Return(operand) => {
            let returned = plan(*operand, no);
            Plan {
                instructions: returned.instructions + seq![
                    Instruction::Return { value: returned.value },
                ],
                value: Reference::Nothing,
                next: returned.next,
            }
        },
        Tree::Group(inner) => plan(*inner, no),
    }
}

/// The instructions of the statements in order, with one register counter
/// threaded through them.
pub open spec fn plan_all(program: Seq<Tree>, no: nat) -> Plan
    decreases program.len(),
{
    if program.len() == 0 {
        Plan { instructions: Seq::empty(), value: Reference::Nothing, next: no }
    } else {
        let before = plan_all(program.drop_last(), no);
        let last = plan(program.last(), before.next);
        Plan {
            instructions: before.instructions + last.instructions,
            value: last.value,
            next: last.next,
        }
    }
}

/// The instructions of the whole function body, the closing return
/// included.
pub open spec fn body(program: Seq<Tree>) -> Seq<Instruction> {
    if program.len() > 0 && !ends_in_return(program.last()) {
        plan_all(program, 1).instructions.push(
            Instruction::Return { value: plan_all(program, 1).value },
        )
    } else {
        plan_all(program, 1).instructions
    }
}

/// Listing two stretches of instructions one after the other lists their
/// concatenation.
proof fn lemma_listing_concat(first: Seq<Instruction>, second: Seq<Instruction>)
    ensures
        listing(first + second) == listing(first) + listing(second),
    decreases second.len(),
{
    if second.len() == 0 {
        assert(first + second =~= first);
        assert(listing(first) + listing(second) =~= listing(first));
    } else {
        assert((first + second).drop_last() =~= first + second.drop_last());
        lemma_listing_concat(first, second.drop_last());
        assert(listing(first + second) =~= listing(first) + listing(second));
    }
}

proof fn lemma_listing_one(i: Instruction)
    ensures
        listing(seq![i]) == line(i),
{
    reveal_with_fuel(listing, 2);
    assert(seq![i].drop_last() =~= Seq::<Instruction>::empty());
    assert(listing(seq![i]) =~= line(i));
}

proof fn lemma_listing_two(i: Instruction, j: Instruction)
    ensures
        listing(seq![i, j]) == line(i) + line(j),
{
    assert(seq![i, j] =~= seq![i] + seq![j]);
    lemma_listing_concat(seq![i], seq![j]);
    lemma_listing_one(i);
    lemma_listing_one(j);
}

/// The text that a tree lowers to is the listing of its instructions.
pub proof fn lemma_lower_lists_plan(t: Tree, no: nat)
    ensures
        lower(t, no) == (Lowered {
            code: listing(plan(t, no).instructions),
            value: reference_text(plan(t, no).value),
            next: plan(t, no).next,
        }),
    decreases t,
{
    match t {
        Tree::Variable(name) => {
            lemma_listing_one(Instruction::Load { target: no, slot: name });
            assert(lower(t, no).code =~= listing(plan(t, no).instructions));
        },
        Tree::Binary(l, op, r) => {
            let left = plan(*l, no);
            let right = plan(*r, left.next);
            let last = Instruction::Compute {
                target: right.next,
                op,
                left: left.value,
                right: right.value,
            };
            lemma_lower_lists_plan(*l, no);
            lemma_lower_lists_plan(*r, left.next);
            lemma_listing_concat(left.instructions, right.instructions);
            lemma_listing_concat(left.instructions + right.instructions, seq![last]);
            lemma_listing_one(last);
            assert(lower(t, no).code =~= listing(plan(t, no).instructions));
        },
        Tree::Assign(name, rhs) => {
            let stored = plan(*rhs, no);
            let allocate = Instruction::Allocate { slot: name };
            let store = Instruction::Store { value: stored.value, slot: name };
            lemma_lower_lists_plan(*rhs, no);
            lemma_listing_concat(stored.instructions, seq![allocate, store]);
            lemma_listing_two(allocate, store);
            assert(lower(t, no).code =~= listing(plan(t, no).instructions));
        },
        Tree::Return(operand) => {
            let returned = plan(*operand, no);
            let last = Instruction::Return { value: returned.value };
            lemma_lower_lists_plan(*operand, no);
            lemma_listing_concat(returned.instructions, seq![last]);
            lemma_listing_one(last);
            assert(lower(t, no).code =~= listing(plan(t, no).instructions));
        },
        Tree::Group(inner) => lemma_lower_lists_plan(*inner, no),
        _ => {
            assert(lower(t, no).code =~= listing(plan(t, no).instructions));
        },
    }
}

proof fn lemma_lower_all_lists_plan(program: Seq<Tree>, no: nat)
    ensures
        lower_all(program, no) == (Lowered {
            code: listing(plan_all(program, no).instructions),
            value: reference_text(plan_all(program, no).value),
            next: plan_all(program, no).next,
        }),
    decreases program.len(),
{
    if program.len() > 0 {
        let before = plan_all(program.drop_last(), no);
        lemma_lower_all_lists_plan(program.drop_last(), no);
        lemma_lower_lists_plan(program.last(), before.next);
        lemma_listing_concat(before.instructions, plan(program.last(), before.next).instructions);
    }
}

/// The function text is the header, the listing of the body and the
/// footer.
pub proof fn lemma_emit_lists_body(program: Seq<Tree>)
    ensures
        emit(program) == "define i32 @main() {\n"@ + listing(body(program)) + "}"@,
{
    lemma_lower_all_lists_plan(program, 1);
    let all = plan_all(program, 1);
    if program.len() > 0 && !ends_in_return(program.last()) {
        let last = Instruction::Return { value: all.value };
        assert(all.instructions.push(last) =~= all.instructions + seq![last]);
        lemma_listing_concat(all.instructions, seq![last]);
        lemma_listing_one(last);
        assert(listing(body(program)) =~= lower_all(program, 1).code + closing(program));
    } else {
        assert(listing(body(program)) =~= lower_all(program, 1).code + closing(program));
    }
    assert(emit(program) =~= "define i32 @main() {\n"@ + listing(body(program)) + "}"@);
}

/// The registers that the instructions define, in the order in which
/// they define them.
pub open spec fn targets(instructions: Seq<Instruction>) -> Seq<nat>
    decreases instructions.len(),
{
    if instructions.len() == 0 {
        Seq::empty()
    } else {
        match instructions.last() {
            Instruction::Load { target, .. } | Instruction::Compute { target, .. } => targets(
                instructions.drop_last(),
            ).push(target),
            _ => targets(instructions.drop_last()),
        }
    }
}

/// The `count` numbers from `from` on, in order.
pub open spec fn counting(from: nat, count: nat) -> Seq<nat> {
    Seq::new(count, |i: int| (from + i) as nat)
}

proof fn lemma_targets_concat(first: Seq<Instruction>, second: Seq<Instruction>)
    ensures
        targets(first + second) == targets(first) + targets(second),
    decreases second.len(),
{
    if second.len() == 0 {
        assert(first + second =~= first);
        assert(targets(first) + targets(second) =~= targets(first));
    } else {
        assert((first + second).drop_last() =~= first + second.drop_last());
        lemma_targets_concat(first, second.drop_last());
        assert(targets(first + second) =~= targets(first) + targets(second));
    }
}

/// The instructions of a tree define the registers from `no` on, one after
/// the other and each once: as many as the tree takes.
pub proof fn lemma_plan_targets(t: Tree, no: nat)
    ensures
        targets(plan(t, no).instructions) == counting(no, registers(t)),
        plan(t, no).next == no + registers(t),
    decreases t,
{
    reveal_with_fuel(targets, 3);
    match t {
        Tree::Variable(name) => {
            let load = Instruction::Load { target: no, slot: name };
            assert(seq![load].drop_last() =~= Seq::<Instruction>::empty());
            assert(targets(seq![load]) =~= counting(no, 1));
        },
        Tree::Binary(l, op, r) => {
            let left = plan(*l, no);
            let right = plan(*r, left.next);
            let last = Instruction::Compute {
                target: right.next,
                op,
                left: left.value,
                right: right.value,
            };
            lemma_plan_targets(*l, no);
            lemma_plan_targets(*r, left.next);
            lemma_targets_concat(left.instructions, right.instructions);
            lemma_targets_concat(left.instructions + right.instructions, seq![last]);
            assert(seq![last].drop_last() =~= Seq::<Instruction>::empty());
            assert(targets(seq![last]) =~= seq![right.next]);
            assert(targets(plan(t, no).instructions) =~= counting(no, registers(t)));
        },
        Tree::Assign(name, rhs) => {
            let stored = plan(*rhs, no);
            let allocate = Instruction::Allocate { slot: name };
            let store = Instruction::Store { value: stored.value, slot: name };
            lemma_plan_targets(*rhs, no);
            lemma_targets_concat(stored.instructions, seq![allocate, store]);
            assert(seq![allocate, store].drop_last() =~= seq![allocate]);
            assert(seq![allocate].drop_last() =~= Seq::<Instruction>::empty());
            assert(targets(seq![allocate, store]) =~= Seq::<nat>::empty());
            assert(targets(plan(t, no).instructions) =~= counting(no, registers(t)));
        },
        Tree::Return(operand) => {
            let returned = plan(*operand, no);
            let last = Instruction::Return { value: returned.value };
            lemma_plan_targets(*operand, no);
            lemma_targets_concat(returned.instructions, seq![last]);
            assert(seq![last].drop_last() =~= Seq::<Instruction>::empty());
            assert(targets(seq![last]) =~= Seq::<nat>::empty());
            assert(targets(plan(t, no).instructions) =~= counting(no, registers(t)));
        },
        Tree::Group(inner) => lemma_plan_targets(*inner, no),
        _ => {
            assert(targets(plan(t, no).instructions) =~= counting(no, registers(t)));
        },
    }
}

proof fn lemma_plan_all_targets(program: Seq<Tree>, no: nat)
    ensures
        targets(plan_all(program, no).instructions) == counting(no, program_registers(program)),
        plan_all(program, no).next == no + program_registers(program),
    decreases program.len(),
{
    if program.len() == 0 {
        assert(targets(plan_all(program, no).instructions) =~= counting(no, 0));
    } else {
        let before = plan_all(program.drop_last(), no);
        lemma_plan_all_targets(program.drop_last(), no);
        lemma_plan_targets(program.last(), before.next);
        lemma_targets_concat(before.instructions, plan(program.last(), before.next).instructions);
        assert(targets(plan_all(program, no).instructions) =~= counting(
            no,
            program_registers(program),
        ));
    }
}

/// Across the whole function every register is defined once, and the
/// registers are numbered from 1 on in the order of their definitions.
pub proof fn lemma_body_targets(program: Seq<Tree>)
    ensures
        targets(body(program)) == counting(1, program_registers(program)),
{
    lemma_plan_all_targets(program, 1);
    let all = plan_all(program, 1);
    if program.len() > 0 && !ends_in_return(program.last()) {
        assert(all.instructions.push(Instruction::Return { value: all.value }).drop_last()
            =~= all.instructions);
    }
}

/// The values that a register holds: 32-bit words.
pub open spec fn is_word(x: int) -> bool {
    0 <= x < 0x1_0000_0000
}

/// The state in which the written function runs.
pub struct Machine {
    /// The registers defined so far, with their values.
    pub registers: Map<nat, int>,
    /// The slots allocated so far, with what was last stored in each.
    pub slots: Map<Seq<char>, Option<int>>,
    /// What the function has returned, once it has.
    pub returned: Option<int>,
}

impl Machine {
    /// The machine at the entry of the function.
    pub open spec fn fresh() -> Machine {
        Machine { registers: Map::empty(), slots: Map::empty(), returned: None }
    }

    /// The value that a reference stands for, where it stands for one: a
    /// number that fits a word, or a register that is defined.
    pub open spec fn read(self, r: Reference) -> Option<int> {
        match r {
            Reference::Number(s) => if is_numeral(s) && is_word(numeral(s) as int) {
                Some(numeral(s) as int)
            } else {
                None
            },
            Reference::Register(n) => if self.registers.dom().contains(n) {
                Some(self.registers[n])
            } else {
                None
            },
            Reference::Slot(_) | Reference::Nothing => None,
        }
    }

    /// The machine after one instruction, where the instruction is in
    /// order: nothing runs after the return, a register is defined once, a
    /// slot is allocated once and before it is used, a value is there
    /// before it is read, and nothing is divided by zero.
    pub open spec fn execute(self, i: Instruction) -> Option<Machine> {
        if self.returned is Some {
            None
        } else {
            match i {
                Instruction::Load { target, slot } => if !self.registers.dom().contains(target)
                    && self.slots.dom().contains(slot) && self.slots[slot] is Some {
                    Some(
                        Machine {
                            registers: self.registers.insert(target, self.slots[slot]->0),
                            ..self
                        },
                    )
                } else {
                    None
                },
                Instruction::Compute { target, op, left, right } => if !self.registers.dom().contains(
                    target,
                ) && self.read(left) is Some && self.read(right) is Some && !(op
                    == BinOp::MulDiv(Multitive::Div) && self.read(right)->0 == 0) {
                    Some(
                        Machine {
                            registers: self.registers.insert(
                                target,
                                compute(op, self.read(left)->0, self.read(right)->0),
                            ),
                            ..self
                        },
                    )
                } else {
                    None
                },
                Instruction::Allocate { slot } => if !self.slots.dom().contains(slot) {
                    Some(Machine { slots: self.slots.insert(slot, None), ..self })
                } else {
                    None
                },
                Instruction::Store { value, slot } => if self.slots.dom().contains(slot)
                    && self.read(value) is Some {
                    Some(Machine { slots: self.slots.insert(slot, self.read(value)), ..self })
                } else {
                    None
                },
                Instruction::Return { value } => if self.read(value) is Some {
                    Some(Machine { returned: self.read(value), ..self })
                } else {
                    None
                },
            }
        }
    }

    /// The machine after a sequence of instructions, where all are in
    /// order.
    pub open spec fn run(self, instructions: Seq<Instruction>) -> Option<Machine>
        decreases instructions.len(),
    {
        if instructions.len() == 0 {
            Some(self)
        } else {
            match self.run(instructions.drop_last()) {
                Some(m) => m.execute(instructions.last()),
                None => None,
            }
        }
    }
}

/// What an instruction computes from two words: sums, differences and
/// products wrap around, and division is that of unsigned numbers.
pub open spec fn compute(op: BinOp, a: int, b: int) -> int {
    match op {
        BinOp::PlusMinus(Additive::Plus) => (a + b) % 0x1_0000_0000,
        BinOp::PlusMinus(Additive::Minus) => (a - b) % 0x1_0000_0000,
        BinOp::MulDiv(Multitive::Mul) => (a * b) % 0x1_0000_0000,
        BinOp::MulDiv(Multitive::Div) => a / b,
    }
}

/// What an operator means in arithmetic.
pub open spec fn apply(op: BinOp, a: int, b: int) -> int {
    match op {
        BinOp::PlusMinus(Additive::Plus) => a + b,
        BinOp::PlusMinus(Additive::Minus) => a - b,
        BinOp::MulDiv(Multitive::Mul) => a * b,
        BinOp::MulDiv(Multitive::Div) => a / b,
    }
}

/// The value of an arithmetic expression, given the values of its
/// variables.
pub open spec fn value(t: Tree, env: Map<Seq<char>, int>) -> int
    decreases t,
{
    match t {
        Tree::Literal(s) => numeral(s) as int,
        Tree::Variable(name) => env[name],
        Tree::Binary(l, op, r) => apply(op, value(*l, env), value(*r, env)),
        Tree::Group(inner) => value(*inner, env),
        Tree::Return(operand) => value(*operand, env),
        Tree::Hole | Tree::Assign(_, _) => 0,
    }
}

/// The tree is an arithmetic expression that can be computed in words:
/// its numbers are numerals, its variables have values, no divisor is zero,
/// and every result fits a word.
pub open spec fn computable(t: Tree, env: Map<Seq<char>, int>) -> bool
    decreases t,
{
    match t {
        Tree::Literal(s) => is_numeral(s) && is_word(numeral(s) as int),
        Tree::Variable(name) => env.dom().contains(name),
        Tree::Binary(l, op, r) => {
            &&& computable(*l, env)
            &&& computable(*r, env)
            &&& op == BinOp::MulDiv(Multitive::Div) ==> value(*r, env) != 0
            &&& is_word(value(t, env))
        },
        Tree::Group(inner) => computable(*inner, env),
        Tree::Hole | Tree::Assign(_, _) | Tree::Return(_) => false,
    }
}

/// The machine holds the variables of `env` in its slots, has not returned,
/// and has defined no register from `no` on.
pub open spec fn holds(m: Machine, env: Map<Seq<char>, int>, no: nat) -> bool {
    &&& m.returned is None
    &&& m.slots.dom() == env.dom()
    &&& forall|name: Seq<char>| #[trigger]
        env.dom().contains(name) ==> m.slots[name] == Some(env[name]) && is_word(env[name])
    &&& forall|k: nat| #[trigger] m.registers.dom().contains(k) ==> k < no
}

/// Running two stretches of instructions one after the other is running
/// their concatenation.
proof fn lemma_run_concat(m: Machine, first: Seq<Instruction>, second: Seq<Instruction>)
    ensures
        m.run(first + second) == match m.run(first) {
            Some(mid) => mid.run(second),
            None => None,
        },
    decreases second.len(),
{
    if second.len() == 0 {
        assert(first + second =~= first);
    } else {
        assert((first + second).drop_last() =~= first + second.drop_last());
        lemma_run_concat(m, first, second.drop_last());
    }
}

proof fn lemma_run_one(m: Machine, i: Instruction)
    ensures
        m.run(seq![i]) == m.execute(i),
{
    reveal_with_fuel(Machine::run, 2);
    assert(seq![i].drop_last() =~= Seq::<Instruction>::empty());
}

/// The second machine has the registers below `no` as the first has them.
pub open spec fn unchanged_below(before: Machine, after: Machine, no: nat) -> bool {
    forall|k: nat|
        k < no ==> (#[trigger] after.registers.dom().contains(k))
            == before.registers.dom().contains(k) && (before.registers.dom().contains(k)
            ==> after.registers[k] == before.registers[k])
}

/// The instructions of a computable expression run in order and leave its
/// value where the plan says. They define registers from `no` up to, and
/// not including, the next free one, and touch nothing else.
pub proof fn lemma_expression_runs(t: Tree, env: Map<Seq<char>, int>, m: Machine, no: nat)
    requires
        computable(t, env),
        holds(m, env, no),
    ensures
        m.run(plan(t, no).instructions) is Some,
        holds(m.run(plan(t, no).instructions)->0, env, plan(t, no).next),
        m.run(plan(t, no).instructions)->0.read(plan(t, no).value) == Some(value(t, env)),
        is_word(value(t, env)),
        m.run(plan(t, no).instructions)->0.slots == m.slots,
        no <= plan(t, no).next,
        plan(t, no).value matches Reference::Register(k) ==> k < plan(t, no).next,
        unchanged_below(m, m.run(plan(t, no).instructions)->0, no),
    decreases t,
{
    match t {
        Tree::Literal(s) => {
            assert(m.run(plan(t, no).instructions) == Some(m));
            assert(unchanged_below(m, m, no));
        },
        Tree::Variable(name) => {
            let load = Instruction::Load { target: no, slot: name };
            lemma_run_one(m, load);
            assert(env.dom().contains(name));
            assert(!m.registers.dom().contains(no));
            let after = m.execute(load)->0;
            assert(after.registers == m.registers.insert(no, env[name]));
            assert forall|k: nat| #[trigger] after.registers.dom().contains(k) implies k < no
                + 1 by {
                if k != no {
                    assert(m.registers.dom().contains(k));
                }
            }
            assert(unchanged_below(m, after, no));
        },
        Tree::Binary(l, op, r) => {
            let left = plan(*l, no);
            let right = plan(*r, left.next);
            let last = Instruction::Compute {
                target: right.next,
                op,
                left: left.value,
                right: right.value,
            };
            lemma_expression_runs(*l, env, m, no);
            let m1 = m.run(left.instructions)->0;
            lemma_expression_runs(*r, env, m1, left.next);
            let m2 = m1.run(right.instructions)->0;
            lemma_run_concat(m, left.instructions, right.instructions);
            lemma_run_concat(m, left.instructions + right.instructions, seq![last]);
            lemma_run_one(m2, last);
            let a = value(*l, env);
            let b = value(*r, env);
            assert(m2.read(left.value) == Some(a)) by {
                match left.value {
                    Reference::Register(k) => {
                        assert(k < left.next);
                        assert(m1.registers.dom().contains(k));
                        assert(m2.registers.dom().contains(k));
                    },
                    _ => {},
                }
            }
            assert(m2.read(right.value) == Some(b));
            assert(!m2.registers.dom().contains(right.next));
            assert(compute(op, a, b) == apply(op, a, b)) by {
                assert(is_word(apply(op, a, b)));
                vstd::arithmetic::div_mod::lemma_small_mod(
                    apply(op, a, b) as nat,
                    0x1_0000_0000nat,
                );
            }
            let m3 = m2.execute(last)->0;
            assert(m3.registers == m2.registers.insert(right.next, apply(op, a, b)));
            assert(m.run(plan(t, no).instructions) == Some(m3));
            assert forall|k: nat| #[trigger] m3.registers.dom().contains(k) implies k < right.next
                + 1 by {
                if k != right.next {
                    assert(m2.registers.dom().contains(k));
                }
            }
            assert forall|k: nat| k < no implies (#[trigger] m3.registers.dom().contains(k))
                == m.registers.dom().contains(k) && (m.registers.dom().contains(k)
                ==> m3.registers[k] == m.registers[k]) by {
                assert(m1.registers.dom().contains(k) == m.registers.dom().contains(k));
                assert(m2.registers.dom().contains(k) == m1.registers.dom().contains(k));
            }
            assert(unchanged_below(m, m3, no));
        },
        Tree::Group(inner) => lemma_expression_runs(*inner, env, m, no),
        _ => {},
    }
}

/// The statement can be run where the variables of `env` have been
/// assigned: it computes an arithmetic expression, and assigns it to a
/// variable that has not been assigned before, returns it, or leaves it.
pub open spec fn sound(statement: Tree, env: Map<Seq<char>, int>) -> bool {
    match statement {
        Tree::Assign(name, rhs) => !env.dom().contains(name) && computable(*rhs, env),
        Tree::Return(operand) => computable(*operand, env),
        _ => computable(statement, env),
    }
}

/// The variables after a statement.
pub open spec fn bind(statement: Tree, env: Map<Seq<char>, int>) -> Map<Seq<char>, int> {
    match statement {
        Tree::Assign(name, rhs) => env.insert(name, value(*rhs, env)),
        _ => env,
    }
}

/// The variables after the statements of a program.
pub open spec fn bindings(program: Seq<Tree>) -> Map<Seq<char>, int>
    decreases program.len(),
{
    if program.len() == 0 {
        Map::empty()
    } else {
        bind(program.last(), bindings(program.drop_last()))
    }
}

/// Every statement can be run after those before it, and only the last
/// one returns or leaves the value that the program is run for.
pub open spec fn sound_program(program: Seq<Tree>) -> bool {
    &&& program.len() > 0
    &&& forall|i: int|
        0 <= i < program.len() ==> sound(#[trigger] program[i], bindings(program.take(i)))
    &&& forall|i: int| 0 <= i < program.len() - 1 ==> !(#[trigger] program[i] is Return)
    &&& !(program.last() is Assign)
}

/// The value that a program is run for: that of its last statement.
pub open spec fn outcome(program: Seq<Tree>) -> int {
    value(program.last(), bindings(program.drop_last()))
}

proof fn lemma_computable_is_no_return(t: Tree, env: Map<Seq<char>, int>)
    requires
        computable(t, env),
    ensures
        !ends_in_return(t),
    decreases t,
{
    match t {
        Tree::Group(inner) => lemma_computable_is_no_return(*inner, env),
        _ => {},
    }
}

proof fn lemma_statement_runs(statement: Tree, env: Map<Seq<char>, int>, m: Machine, no: nat)
    requires
        sound(statement, env),
        !(statement is Return),
        holds(m, env, no),
    ensures
        m.run(plan(statement, no).instructions) is Some,
        holds(
            m.run(plan(statement, no).instructions)->0,
            bind(statement, env),
            plan(statement, no).next,
        ),
        !(statement is Assign) ==> m.run(plan(statement, no).instructions)->0.read(
            plan(statement, no).value,
        ) == Some(value(statement, env)),
{
    match statement {
        Tree::Assign(name, rhs) => {
            let stored = plan(*rhs, no);
            let allocate = Instruction::Allocate { slot: name };
            let store = Instruction::Store { value: stored.value, slot: name };
            lemma_expression_runs(*rhs, env, m, no);
            let m1 = m.run(stored.instructions)->0;
            lemma_run_concat(m, stored.instructions, seq![allocate, store]);
            assert(seq![allocate, store] =~= seq![allocate] + seq![store]);
            lemma_run_concat(m1, seq![allocate], seq![store]);
            lemma_run_one(m1, allocate);
            let m2 = m1.execute(allocate)->0;
            lemma_run_one(m2, store);
            let m3 = m2.execute(store)->0;
            assert(m2.read(stored.value) == m1.read(stored.value));
            let after = bind(statement, env);
            assert(m3.slots.dom() =~= after.dom());
        },
        _ => {
            lemma_expression_runs(statement, env, m, no);
        },
    }
}

proof fn lemma_statements_run(program: Seq<Tree>, k: int)
    requires
        sound_program(program),
        0 <= k < program.len(),
    ensures
        Machine::fresh().run(plan_all(program.take(k), 1).instructions) is Some,
        holds(
            Machine::fresh().run(plan_all(program.take(k), 1).instructions)->0,
            bindings(program.take(k)),
            plan_all(program.take(k), 1).next,
        ),
    decreases k,
{
    if k > 0 {
        let earlier = program.take(k - 1);
        assert(program.take(k).drop_last() =~= earlier);
        assert(program.take(k).last() == program[k - 1]);
        lemma_statements_run(program, k - 1);
        let before = plan_all(earlier, 1);
        let m = Machine::fresh().run(before.instructions)->0;
        lemma_statement_runs(program[k - 1], bindings(earlier), m, before.next);
        lemma_run_concat(
            Machine::fresh(),
            before.instructions,
            plan(program[k - 1], before.next).instructions,
        );
    }
}

/// The body written for a sound program runs in order from the entry of
/// the function and returns the value that the program is run for.
pub proof fn lemma_program_returns(program: Seq<Tree>)
    requires
        sound_program(program),
    ensures
        Machine::fresh().run(body(program)) is Some,
        Machine::fresh().run(body(program))->0.returned == Some(outcome(program)),
{
    let earlier = program.drop_last();
    let last = program.last();
    assert(program.take(program.len() - 1) =~= earlier);
    assert(program[program.len() - 1] == last);
    lemma_statements_run(program, program.len() - 1);
    let before = plan_all(earlier, 1);
    let env = bindings(earlier);
    let m = Machine::fresh().run(before.instructions)->0;
    match last {
        Tree::Return(operand) => {
            let returned = plan(*operand, before.next);
            let hand_out = Instruction::Return { value: returned.value };
            lemma_expression_runs(*operand, env, m, before.next);
            let m1 = m.run(returned.instructions)->0;
            lemma_run_concat(m, returned.instructions, seq![hand_out]);
            lemma_run_one(m1, hand_out);
            lemma_run_concat(
                Machine::fresh(),
                before.instructions,
                plan(last, before.next).instructions,
            );
        },
        _ => {
            let computed = plan(last, before.next);
            let hand_out = Instruction::Return { value: computed.value };
            lemma_computable_is_no_return(last, env);
            lemma_expression_runs(last, env, m, before.next);
            let m1 = m.run(computed.instructions)->0;
            lemma_run_concat(Machine::fresh(), before.instructions, computed.instructions);
            let all = plan_all(program, 1).instructions;
            assert(all.push(hand_out) =~= all + seq![hand_out]);
            lemma_run_concat(Machine::fresh(), all, seq![hand_out]);
            lemma_run_one(m1, hand_out);
        },
    }
}

} // verus!
